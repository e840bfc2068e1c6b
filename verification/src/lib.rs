//! Console-client core for a blockchain full node's JSON-RPC interface:
//! credential resolution, request construction, response decoding, and the
//! typed extraction of supply quantities, together with the command router
//! that drives one interactive session.

pub mod connection;
pub mod credentials;
pub mod errors;
pub mod jsontext;
pub mod materialize;
pub mod mnemonic;
pub mod numbers;
pub mod records;
pub mod router;
pub mod rpc;
pub mod supply;
