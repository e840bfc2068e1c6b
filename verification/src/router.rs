//! The command router's decisions: the menu catalogue, the mapping from a
//! selection to a command, the request each command issues, session start,
//! and the decoding pipeline each structured command runs on the response.
//!
//! The interactive loop itself (prompting, transport, rendering) lives
//! outside the library; it asks this module what to do at every step.

use vstd::prelude::*;

use crate::connection::NodeConnection;
use crate::errors::ClientError;
use crate::jsontext::{bytes_of_ascii, str_bytes};
use crate::materialize::{
    block_supply_of, chain_info_of, materialize_block_supply, materialize_chain_info,
    project_result, result_span,
};
use crate::records::pool_views;
use crate::rpc::{param_views, RpcParam, RpcParamV, RpcRequest};
use crate::supply::{
    extract_block_supply, extract_chain_supply, BlockSupplyBreakdown, ChainSupplyBreakdown,
};

verus! {

/// The thirteen menu entries, in menu order.
#[derive(Clone, Copy, Debug, PartialEq, Eq, Structural)]
pub enum Command {
    DisplayMnemonic,
    VisualizeMempool,
    BlockchainDetail,
    ExtractSupply,
    ExtractSupplyAtBlock,
    ListTransactions,
    TransactionDetail,
    TransactionType,
    TransactionDate,
    BlockDetail,
    BlockDate,
    PeerDetails,
    Exit,
}

/// Maps a menu selection index to its command.
pub fn command_for_selection(i: usize) -> (r: Option<Command>)
    ensures
        i == 0 ==> r == Some(Command::DisplayMnemonic),
        i == 1 ==> r == Some(Command::VisualizeMempool),
        i == 2 ==> r == Some(Command::BlockchainDetail),
        i == 3 ==> r == Some(Command::ExtractSupply),
        i == 4 ==> r == Some(Command::ExtractSupplyAtBlock),
        i == 5 ==> r == Some(Command::ListTransactions),
        i == 6 ==> r == Some(Command::TransactionDetail),
        i == 7 ==> r == Some(Command::TransactionType),
        i == 8 ==> r == Some(Command::TransactionDate),
        i == 9 ==> r == Some(Command::BlockDetail),
        i == 10 ==> r == Some(Command::BlockDate),
        i == 11 ==> r == Some(Command::PeerDetails),
        i == 12 ==> r == Some(Command::Exit),
        i > 12 ==> r is None,
{
    if i == 0 {
        Some(Command::DisplayMnemonic)
    } else if i == 1 {
        Some(Command::VisualizeMempool)
    } else if i == 2 {
        Some(Command::BlockchainDetail)
    } else if i == 3 {
        Some(Command::ExtractSupply)
    } else if i == 4 {
        Some(Command::ExtractSupplyAtBlock)
    } else if i == 5 {
        Some(Command::ListTransactions)
    } else if i == 6 {
        Some(Command::TransactionDetail)
    } else if i == 7 {
        Some(Command::TransactionType)
    } else if i == 8 {
        Some(Command::TransactionDate)
    } else if i == 9 {
        Some(Command::BlockDetail)
    } else if i == 10 {
        Some(Command::BlockDate)
    } else if i == 11 {
        Some(Command::PeerDetails)
    } else if i == 12 {
        Some(Command::Exit)
    } else {
        None
    }
}

/// Whether the command prompts the operator for a block or transaction id.
pub fn needs_argument(c: Command) -> (r: bool)
    ensures
        r <==> (c == Command::ExtractSupplyAtBlock || c == Command::ListTransactions || c
            == Command::TransactionDetail || c == Command::TransactionType || c
            == Command::TransactionDate || c == Command::BlockDetail || c
            == Command::BlockDate),
{
    match c {
        Command::ExtractSupplyAtBlock => true,
        Command::ListTransactions => true,
        Command::TransactionDetail => true,
        Command::TransactionType => true,
        Command::TransactionDate => true,
        Command::BlockDetail => true,
        Command::BlockDate => true,
        _ => false,
    }
}

/// Whether the session's loop resumes at the prompt after this failure.
/// Only a missing credential aborts the whole session.
pub fn resumes_after(e: ClientError) -> (r: bool)
    ensures
        r <==> e != ClientError::CredentialUnavailable,
{
    match e {
        ClientError::CredentialUnavailable => false,
        _ => true,
    }
}

/// A request with the client's fixed protocol tag and correlation id and no
/// parameters yet.
fn base_request(method: &str) -> (r: RpcRequest)
    requires
        method.is_ascii(),
    ensures
        r@.version == bytes_of_ascii("1.0"@),
        r@.id == bytes_of_ascii("curltest"@),
        r@.method == bytes_of_ascii(method@),
        r@.params == Seq::<RpcParamV>::empty(),
        r.params@ == Seq::<RpcParam>::empty(),
{
    proof {
        reveal_strlit("1.0");
        reveal_strlit("curltest");
    }
    let r = RpcRequest {
        version: vstd::slice::slice_to_vec(str_bytes("1.0")),
        id: vstd::slice::slice_to_vec(str_bytes("curltest")),
        method: vstd::slice::slice_to_vec(str_bytes(method)),
        params: Vec::new(),
    };
    assert(r.params@ =~= Seq::<RpcParam>::empty());
    assert(param_views(r.params@) =~= Seq::<RpcParamV>::empty());
    r
}

/// The request a command issues: `None` for the commands that issue no RPC
/// (the mnemonic, the date scripts, exit) and for an argument-taking
/// command given no argument.
pub fn request_for_command(c: Command, arg: Option<Vec<u8>>) -> (r: Option<RpcRequest>)
    ensures
        r is Some ==> (r->0)@.version == bytes_of_ascii("1.0"@) && (r->0)@.id == bytes_of_ascii(
            "curltest"@,
        ),
        c == Command::DisplayMnemonic || c == Command::TransactionDate || c == Command::BlockDate
            || c == Command::Exit ==> r is None,
        c == Command::VisualizeMempool ==> r is Some && (r->0)@.method == bytes_of_ascii(
            "getrawmempool"@,
        ) && (r->0)@.params == seq![RpcParamV::Flag(true)],
        c == Command::BlockchainDetail || c == Command::ExtractSupply ==> r is Some && (
        r->0)@.method == bytes_of_ascii("getblockchaininfo"@) && (r->0)@.params
            == Seq::<RpcParamV>::empty(),
        c == Command::ExtractSupplyAtBlock || c == Command::ListTransactions || c
            == Command::BlockDetail ==> match arg {
            Some(a) => r is Some && (r->0)@.method == bytes_of_ascii("getblock"@) && (
            r->0)@.params == seq![RpcParamV::Text(a@), RpcParamV::Number(1)],
            None => r is None,
        },
        c == Command::TransactionDetail || c == Command::TransactionType ==> match arg {
            Some(a) => r is Some && (r->0)@.method == bytes_of_ascii("getrawtransaction"@) && (
            r->0)@.params == seq![RpcParamV::Text(a@), RpcParamV::Number(1)],
            None => r is None,
        },
        c == Command::PeerDetails ==> r is Some && (r->0)@.method == bytes_of_ascii(
            "getpeerinfo"@,
        ) && (r->0)@.params == Seq::<RpcParamV>::empty(),
{
    match c {
        Command::DisplayMnemonic => None,
        Command::VisualizeMempool => {
            proof {
                reveal_strlit("getrawmempool");
            }
            let mut r = base_request("getrawmempool");
            r.params.push(RpcParam::Flag(true));
            assert(param_views(r.params@) =~= seq![RpcParamV::Flag(true)]);
            Some(r)
        },
        Command::BlockchainDetail | Command::ExtractSupply => {
            proof {
                reveal_strlit("getblockchaininfo");
            }
            Some(base_request("getblockchaininfo"))
        },
        Command::ExtractSupplyAtBlock | Command::ListTransactions | Command::BlockDetail => {
            match arg {
                Some(a) => {
                    proof {
                        reveal_strlit("getblock");
                    }
                    let ghost av = a@;
                    let mut r = base_request("getblock");
                    r.params.push(RpcParam::Text(a));
                    r.params.push(RpcParam::Number(1));
                    assert(r.params@.len() == 2);
                    assert(r.params@[0]@ == RpcParamV::Text(av));
                    assert(r.params@[1]@ == RpcParamV::Number(1));
                    assert(param_views(r.params@) =~= seq![
                        RpcParamV::Text(av),
                        RpcParamV::Number(1),
                    ]);
                    Some(r)
                },
                None => None,
            }
        },
        Command::TransactionDetail | Command::TransactionType => {
            match arg {
                Some(a) => {
                    proof {
                        reveal_strlit("getrawtransaction");
                    }
                    let ghost av = a@;
                    let mut r = base_request("getrawtransaction");
                    r.params.push(RpcParam::Text(a));
                    r.params.push(RpcParam::Number(1));
                    assert(r.params@.len() == 2);
                    assert(r.params@[0]@ == RpcParamV::Text(av));
                    assert(r.params@[1]@ == RpcParamV::Number(1));
                    assert(param_views(r.params@) =~= seq![
                        RpcParamV::Text(av),
                        RpcParamV::Number(1),
                    ]);
                    Some(r)
                },
                None => None,
            }
        },
        Command::TransactionDate | Command::BlockDate => None,
        Command::PeerDetails => {
            proof {
                reveal_strlit("getpeerinfo");
            }
            Some(base_request("getpeerinfo"))
        },
        Command::Exit => None,
    }
}

/// Starts a session: resolves credentials from the cookie text and hands
/// back the connection together with the initial `getinfo` probe request.
/// An unreadable cookie aborts the session before any request exists.
pub fn start_session(conn: NodeConnection, cookie: Option<&str>) -> (r: Result<
    (NodeConnection, RpcRequest),
    ClientError,
>)
    ensures
        cookie is None ==> r == Err::<(NodeConnection, RpcRequest), ClientError>(
            ClientError::CredentialUnavailable,
        ),
        cookie is Some ==> r is Ok && {
            let c = (r->Ok_0).0;
            let req = (r->Ok_0).1;
            &&& match crate::credentials::cookie_secret(cookie->0@) {
                Some(sec) => c.username@ == "__cookie__"@ && c.password@ == sec,
                None => c.username@ == conn.username@ && c.password@ == conn.password@,
            }
            &&& c.url == conn.url
            &&& c.port == conn.port
            &&& req@.method == bytes_of_ascii("getinfo"@)
            &&& req@.params == Seq::<RpcParamV>::empty()
            &&& req@.version == bytes_of_ascii("1.0"@)
            &&& req@.id == bytes_of_ascii("curltest"@)
        },
{
    match cookie {
        None => Err(ClientError::CredentialUnavailable),
        Some(text) => {
            proof {
                reveal_strlit("getinfo");
            }
            let mut c = conn;
            c.apply_cookie(text);
            let req = base_request("getinfo");
            Ok((c, req))
        },
    }
}

/// Runs the supply-extraction pipeline on a `getblockchaininfo` response
/// envelope: projects `result`, materializes the chain info record, and
/// derives the supply breakdown.
pub fn chain_supply_from_response(body: &[u8]) -> (r: Result<ChainSupplyBreakdown, ClientError>)
    ensures
        result_span(body@) is None ==> r == Err::<ChainSupplyBreakdown, ClientError>(
            ClientError::ShapeMismatch,
        ),
        result_span(body@) is Some ==> {
            let sp = result_span(body@)->0;
            let proj = body@.subrange(sp.0 as int, sp.1 as int);
            match chain_info_of(proj) {
                None => r == Err::<ChainSupplyBreakdown, ClientError>(ClientError::ShapeMismatch),
                Some(ci) => {
                    if ci.value_pools.len() < 5 {
                        r == Err::<ChainSupplyBreakdown, ClientError>(
                            ClientError::PoolIndexOutOfRange,
                        )
                    } else {
                        &&& r is Ok
                        &&& r->Ok_0.total == ci.chain_supply.chain_value
                        &&& r->Ok_0.transparent == ci.value_pools[0].chain_value
                        &&& r->Ok_0.sprout == ci.value_pools[1].chain_value
                        &&& r->Ok_0.sapling == ci.value_pools[2].chain_value
                        &&& r->Ok_0.orchard == ci.value_pools[3].chain_value
                        &&& r->Ok_0.lockbox == ci.value_pools[4].chain_value
                        &&& r->Ok_0.shielded == ci.chain_supply.chain_value
                            - ci.value_pools[0].chain_value - ci.value_pools[4].chain_value
                    }
                },
            }
        },
{
    let projected = match project_result(body) {
        Ok(p) => p,
        Err(e) => {
            return Err(e);
        },
    };
    let info = match materialize_chain_info(projected.as_slice()) {
        Ok(i) => i,
        Err(e) => {
            return Err(e);
        },
    };
    let ghost ci = chain_info_of(projected@)->0;
    assert(pool_views(info.value_pools@) == ci.value_pools);
    assert(forall|k: int|
        0 <= k < info.value_pools@.len() ==> (#[trigger] info.value_pools@[k])@
            == ci.value_pools[k]);
    extract_chain_supply(&info)
}

/// Runs the supply-extraction pipeline on a `getblock` response envelope.
pub fn block_supply_from_response(body: &[u8]) -> (r: Result<BlockSupplyBreakdown, ClientError>)
    ensures
        result_span(body@) is None ==> r == Err::<BlockSupplyBreakdown, ClientError>(
            ClientError::ShapeMismatch,
        ),
        result_span(body@) is Some ==> {
            let sp = result_span(body@)->0;
            let proj = body@.subrange(sp.0 as int, sp.1 as int);
            match block_supply_of(proj) {
                None => r == Err::<BlockSupplyBreakdown, ClientError>(ClientError::ShapeMismatch),
                Some(bi) => {
                    if bi.value_pools.len() < 5 {
                        r == Err::<BlockSupplyBreakdown, ClientError>(
                            ClientError::PoolIndexOutOfRange,
                        )
                    } else {
                        &&& r is Ok
                        &&& r->Ok_0.height == bi.height
                        &&& r->Ok_0.transparent == bi.value_pools[0].chain_value
                        &&& r->Ok_0.sprout == bi.value_pools[1].chain_value
                        &&& r->Ok_0.sapling == bi.value_pools[2].chain_value
                        &&& r->Ok_0.orchard == bi.value_pools[3].chain_value
                        &&& r->Ok_0.lockbox == bi.value_pools[4].chain_value
                    }
                },
            }
        },
{
    let projected = match project_result(body) {
        Ok(p) => p,
        Err(e) => {
            return Err(e);
        },
    };
    let info = match materialize_block_supply(projected.as_slice()) {
        Ok(i) => i,
        Err(e) => {
            return Err(e);
        },
    };
    let ghost bi = block_supply_of(projected@)->0;
    assert(pool_views(info.value_pools@) == bi.value_pools);
    assert(forall|k: int|
        0 <= k < info.value_pools@.len() ==> (#[trigger] info.value_pools@[k])@
            == bi.value_pools[k]);
    extract_block_supply(&info)
}

} // verus!
