//! Session behaviour: credentials, supply extraction, the command router,
//! and the recovery phrase.

use rusty_zechub::connection::NodeConnection;
use rusty_zechub::credentials::resolve_cookie;
use rusty_zechub::errors::ClientError;
use rusty_zechub::records::{BlockSupplyInfo, ChainInfo, PoolEntry, SupplyInfo};
use rusty_zechub::router::{
    block_supply_from_response, chain_supply_from_response, command_for_selection,
    needs_argument, resumes_after, start_session, Command,
};
use rusty_zechub::supply::{extract_block_supply, extract_chain_supply};

fn pool(id: &str, zats: i64) -> PoolEntry {
    PoolEntry { id: id.as_bytes().to_vec(), chain_value: zats, monitored: true }
}

fn five_pools() -> Vec<PoolEntry> {
    vec![
        pool("transparent", 40_000_000_000),
        pool("sprout", 1_000_000_000),
        pool("sapling", 20_000_000_000),
        pool("orchard", 38_000_000_000),
        pool("lockbox", 1_000_000_000),
    ]
}

#[test]
fn shielded_supply_is_total_minus_transparent_minus_lockbox() {
    let info = ChainInfo {
        chain: b"main".to_vec(),
        blocks: 100,
        size_on_disk: 500,
        chain_supply: SupplyInfo { chain_value: 100_000_000_000, monitored: true },
        value_pools: five_pools(),
    };
    let b = extract_chain_supply(&info).unwrap();
    assert_eq!(b.total, 100_000_000_000);
    assert_eq!(b.transparent, 40_000_000_000);
    assert_eq!(b.sprout, 1_000_000_000);
    assert_eq!(b.sapling, 20_000_000_000);
    assert_eq!(b.orchard, 38_000_000_000);
    assert_eq!(b.lockbox, 1_000_000_000);
    assert_eq!(b.shielded, b.total - b.transparent - b.lockbox);
    assert_eq!(b.shielded, 59_000_000_000);
}

#[test]
fn short_pool_list_is_pool_index_out_of_range() {
    let info = ChainInfo {
        chain: b"main".to_vec(),
        blocks: 1,
        size_on_disk: 1,
        chain_supply: SupplyInfo { chain_value: 5, monitored: true },
        value_pools: vec![pool("transparent", 1), pool("sprout", 1)],
    };
    assert_eq!(
        extract_chain_supply(&info).err(),
        Some(ClientError::PoolIndexOutOfRange)
    );
    let block = BlockSupplyInfo { height: 9, value_pools: vec![pool("transparent", 1)] };
    assert_eq!(
        extract_block_supply(&block).err(),
        Some(ClientError::PoolIndexOutOfRange)
    );
}

#[test]
fn block_supply_extraction_reads_the_five_pools() {
    let block = BlockSupplyInfo { height: 42, value_pools: five_pools() };
    let b = extract_block_supply(&block).unwrap();
    assert_eq!(b.height, 42);
    assert_eq!(b.transparent, 40_000_000_000);
    assert_eq!(b.lockbox, 1_000_000_000);
}

#[test]
fn end_to_end_chain_supply_scenario() {
    let body = r#"{"result":{"chain":"main","blocks":100,"size_on_disk":500,"chainSupply":{"chainValue":1000,"monitored":true},"valuePools":[{"id":"transparent","chainValue":400,"monitored":true},{"id":"sprout","chainValue":10,"monitored":true},{"id":"sapling","chainValue":200,"monitored":true},{"id":"orchard","chainValue":380,"monitored":true},{"id":"lockbox","chainValue":10,"monitored":true}]},"error":null,"id":"curltest"}"#;
    let b = chain_supply_from_response(body.as_bytes()).unwrap();
    assert_eq!(b.transparent, 40_000_000_000);
    assert_eq!(b.lockbox, 1_000_000_000);
    assert_eq!(b.total, 100_000_000_000);
    assert_eq!(b.shielded, 59_000_000_000);
}

#[test]
fn end_to_end_block_supply_scenario() {
    let body = r#"{"result":{"height":200,"valuePools":[{"id":"transparent","chainValue":1,"monitored":true},{"id":"sprout","chainValue":2,"monitored":true},{"id":"sapling","chainValue":3,"monitored":true},{"id":"orchard","chainValue":4,"monitored":true},{"id":"lockbox","chainValue":5,"monitored":true}]},"error":null,"id":"curltest"}"#;
    let b = block_supply_from_response(body.as_bytes()).unwrap();
    assert_eq!(b.height, 200);
    assert_eq!(b.sapling, 300_000_000);
    assert_eq!(b.lockbox, 500_000_000);
}

#[test]
fn end_to_end_short_pool_response_fails() {
    let body = r#"{"result":{"height":200,"valuePools":[{"id":"transparent","chainValue":1,"monitored":true}]},"error":null,"id":"curltest"}"#;
    assert_eq!(
        block_supply_from_response(body.as_bytes()).err(),
        Some(ClientError::PoolIndexOutOfRange)
    );
}

#[test]
fn cookie_with_colon_resolves_reserved_identity() {
    let (user, secret) = resolve_cookie(
        "cookie:SECRETVALUE",
        String::from("olduser"),
        String::from("oldpass"),
    );
    assert_eq!(user, "__cookie__");
    assert_eq!(secret, "SECRETVALUE");
}

#[test]
fn cookie_secret_is_trimmed() {
    let (user, secret) = resolve_cookie(
        "__cookie__:  s3kr1t\n",
        String::from("u"),
        String::from("p"),
    );
    assert_eq!(user, "__cookie__");
    assert_eq!(secret, "s3kr1t");
}

#[test]
fn cookie_without_colon_keeps_caller_credentials() {
    let (user, secret) = resolve_cookie(
        "no separator here",
        String::from("olduser"),
        String::from("oldpass"),
    );
    assert_eq!(user, "olduser");
    assert_eq!(secret, "oldpass");
}

#[test]
fn unreadable_cookie_aborts_before_any_request() {
    let conn = NodeConnection {
        username: String::new(),
        password: String::new(),
        url: String::from("http://127.0.0.1"),
        port: 8232,
    };
    let r = start_session(conn, None);
    assert!(r.is_err());
    assert_eq!(r.err().unwrap(), ClientError::CredentialUnavailable);
}

#[test]
fn session_start_probes_with_getinfo() {
    let conn = NodeConnection {
        username: String::new(),
        password: String::new(),
        url: String::from("http://127.0.0.1"),
        port: 8232,
    };
    let (c, req) = start_session(conn, Some("cookie:abc")).unwrap();
    assert_eq!(c.username, "__cookie__");
    assert_eq!(c.password, "abc");
    assert_eq!(c.url, "http://127.0.0.1");
    assert_eq!(c.port, 8232);
    assert_eq!(req.method, b"getinfo".to_vec());
    assert_eq!(
        rusty_zechub::rpc::serialize_request(&req),
        br#"{"jsonrpc":"1.0","id":"curltest","method":"getinfo","params":[]}"#.to_vec()
    );
}

#[test]
fn connection_displays_url_and_port() {
    let conn = NodeConnection {
        username: String::new(),
        password: String::new(),
        url: String::from("http://127.0.0.1"),
        port: 8232,
    };
    assert_eq!(conn.display(), "http://127.0.0.1:8232");
}

#[test]
fn connection_displays_negative_port() {
    let conn = NodeConnection {
        username: String::new(),
        password: String::new(),
        url: String::from("h"),
        port: -17,
    };
    assert_eq!(conn.display(), "h:-17");
}

#[test]
fn menu_selection_maps_to_commands() {
    assert_eq!(command_for_selection(0), Some(Command::DisplayMnemonic));
    assert_eq!(command_for_selection(1), Some(Command::VisualizeMempool));
    assert_eq!(command_for_selection(2), Some(Command::BlockchainDetail));
    assert_eq!(command_for_selection(3), Some(Command::ExtractSupply));
    assert_eq!(command_for_selection(4), Some(Command::ExtractSupplyAtBlock));
    assert_eq!(command_for_selection(5), Some(Command::ListTransactions));
    assert_eq!(command_for_selection(6), Some(Command::TransactionDetail));
    assert_eq!(command_for_selection(7), Some(Command::TransactionType));
    assert_eq!(command_for_selection(8), Some(Command::TransactionDate));
    assert_eq!(command_for_selection(9), Some(Command::BlockDetail));
    assert_eq!(command_for_selection(10), Some(Command::BlockDate));
    assert_eq!(command_for_selection(11), Some(Command::PeerDetails));
    assert_eq!(command_for_selection(12), Some(Command::Exit));
    assert_eq!(command_for_selection(13), None);
}

#[test]
fn argument_prompt_matches_menu_catalogue() {
    assert!(!needs_argument(Command::DisplayMnemonic));
    assert!(!needs_argument(Command::VisualizeMempool));
    assert!(!needs_argument(Command::BlockchainDetail));
    assert!(!needs_argument(Command::ExtractSupply));
    assert!(needs_argument(Command::ExtractSupplyAtBlock));
    assert!(needs_argument(Command::ListTransactions));
    assert!(needs_argument(Command::TransactionDetail));
    assert!(needs_argument(Command::TransactionType));
    assert!(needs_argument(Command::TransactionDate));
    assert!(needs_argument(Command::BlockDetail));
    assert!(needs_argument(Command::BlockDate));
    assert!(!needs_argument(Command::PeerDetails));
    assert!(!needs_argument(Command::Exit));
}

#[test]
fn only_missing_credentials_end_the_session() {
    assert!(!resumes_after(ClientError::CredentialUnavailable));
    assert!(resumes_after(ClientError::TransportFailure));
    assert!(resumes_after(ClientError::HttpStatusNotOk));
    assert!(resumes_after(ClientError::ShapeMismatch));
    assert!(resumes_after(ClientError::PoolIndexOutOfRange));
    assert!(resumes_after(ClientError::SubprocessFailure));
}

#[test]
fn fresh_mnemonic_has_twenty_four_words() {
    let phrase = rusty_zechub::mnemonic::fresh_mnemonic();
    let words: Vec<&str> = phrase.split(' ').collect();
    assert_eq!(words.len(), 24);
    for w in words {
        assert!(!w.is_empty());
        assert!(w.chars().all(|c| c.is_ascii_lowercase()));
    }
}
