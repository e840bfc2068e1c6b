//! Decoding and request-construction behaviour on concrete payloads.

use rusty_zechub::errors::ClientError;
use rusty_zechub::materialize::{
    block_transactions, materialize_block_supply, materialize_chain_info, peer_addresses,
    project_result,
};
use rusty_zechub::router::{request_for_command, Command};
use rusty_zechub::rpc::{serialize_request, RpcParam, RpcRequest};

const CAMEL_CHAIN_INFO: &str = r#"{"chain":"main","blocks":100,"size_on_disk":500,"chainSupply":{"chainValue":1000,"monitored":true},"valuePools":[{"id":"transparent","chainValue":400,"monitored":true},{"id":"sprout","chainValue":10,"monitored":true},{"id":"sapling","chainValue":200,"monitored":true},{"id":"orchard","chainValue":380,"monitored":true},{"id":"lockbox","chainValue":10,"monitored":true}]}"#;

const SNAKE_CHAIN_INFO: &str = r#"{"chain":"main","blocks":100,"size_on_disk":500,"chain_supply":{"chain_value":1000,"monitored":true},"value_pools":[{"id":"transparent","chain_value":400,"monitored":true},{"id":"sprout","chain_value":10,"monitored":true},{"id":"sapling","chain_value":200,"monitored":true},{"id":"orchard","chain_value":380,"monitored":true},{"id":"lockbox","chain_value":10,"monitored":true}]}"#;

#[test]
fn decodes_camel_chain_info() {
    let info = materialize_chain_info(CAMEL_CHAIN_INFO.as_bytes()).unwrap();
    assert_eq!(info.chain, b"main".to_vec());
    assert_eq!(info.blocks, 100);
    assert_eq!(info.size_on_disk, 500);
    assert_eq!(info.chain_supply.chain_value, 100_000_000_000);
    assert!(info.chain_supply.monitored);
    assert_eq!(info.value_pools.len(), 5);
    assert_eq!(info.value_pools[0].id, b"transparent".to_vec());
    assert_eq!(info.value_pools[0].chain_value, 40_000_000_000);
    assert_eq!(info.value_pools[4].id, b"lockbox".to_vec());
    assert_eq!(info.value_pools[4].chain_value, 1_000_000_000);
}

#[test]
fn alias_spellings_decode_to_identical_records() {
    let a = materialize_chain_info(CAMEL_CHAIN_INFO.as_bytes()).unwrap();
    let b = materialize_chain_info(SNAKE_CHAIN_INFO.as_bytes()).unwrap();
    assert_eq!(a.chain, b.chain);
    assert_eq!(a.blocks, b.blocks);
    assert_eq!(a.size_on_disk, b.size_on_disk);
    assert_eq!(a.chain_supply.chain_value, b.chain_supply.chain_value);
    assert_eq!(a.chain_supply.monitored, b.chain_supply.monitored);
    assert_eq!(a.value_pools.len(), b.value_pools.len());
    for k in 0..a.value_pools.len() {
        assert_eq!(a.value_pools[k].id, b.value_pools[k].id);
        assert_eq!(a.value_pools[k].chain_value, b.value_pools[k].chain_value);
        assert_eq!(a.value_pools[k].monitored, b.value_pools[k].monitored);
    }
}

#[test]
fn decodes_fractional_and_negative_amounts() {
    let text = r#"{"height":7,"valuePools":[{"id":"transparent","chainValue":1.5,"monitored":true},{"id":"sprout","chainValue":0.00000001,"monitored":false},{"id":"sapling","chainValue":-2.5,"monitored":true},{"id":"orchard","chainValue":0.5,"monitored":true},{"id":"lockbox","chainValue":3,"monitored":true}]}"#;
    let info = materialize_block_supply(text.as_bytes()).unwrap();
    assert_eq!(info.height, 7);
    assert_eq!(info.value_pools[0].chain_value, 150_000_000);
    assert_eq!(info.value_pools[1].chain_value, 1);
    assert_eq!(info.value_pools[2].chain_value, -250_000_000);
    assert_eq!(info.value_pools[3].chain_value, 50_000_000);
    assert_eq!(info.value_pools[4].chain_value, 300_000_000);
}

#[test]
fn tolerates_whitespace_and_unknown_fields() {
    let text = "{ \"height\" : 3 ,\n\t\"verified\" : true , \"extra\" : [ 1 , 2 ] ,\r\n\"valuePools\" : [ ] }";
    let info = materialize_block_supply(text.as_bytes()).unwrap();
    assert_eq!(info.height, 3);
    assert_eq!(info.value_pools.len(), 0);
}

#[test]
fn missing_field_is_shape_mismatch() {
    let text = r#"{"blocks":100}"#;
    assert_eq!(
        materialize_chain_info(text.as_bytes()).err(),
        Some(ClientError::ShapeMismatch)
    );
}

#[test]
fn wrong_type_is_shape_mismatch() {
    let text = r#"{"height":"tall","valuePools":[]}"#;
    assert_eq!(
        materialize_block_supply(text.as_bytes()).err(),
        Some(ClientError::ShapeMismatch)
    );
}

#[test]
fn fractional_integer_field_is_shape_mismatch() {
    let text = r#"{"height":3.5,"valuePools":[]}"#;
    assert_eq!(
        materialize_block_supply(text.as_bytes()).err(),
        Some(ClientError::ShapeMismatch)
    );
}

#[test]
fn nine_fraction_digits_is_shape_mismatch() {
    let text = r#"{"height":3,"valuePools":[{"id":"transparent","chainValue":0.000000001,"monitored":true}]}"#;
    assert_eq!(
        materialize_block_supply(text.as_bytes()).err(),
        Some(ClientError::ShapeMismatch)
    );
}

#[test]
fn oversized_amount_is_shape_mismatch() {
    let text = r#"{"height":3,"valuePools":[{"id":"transparent","chainValue":99999999999,"monitored":true}]}"#;
    assert_eq!(
        materialize_block_supply(text.as_bytes()).err(),
        Some(ClientError::ShapeMismatch)
    );
}

#[test]
fn exponent_notation_is_shape_mismatch() {
    let text = r#"{"height":3,"valuePools":[{"id":"transparent","chainValue":1e5,"monitored":true}]}"#;
    assert_eq!(
        materialize_block_supply(text.as_bytes()).err(),
        Some(ClientError::ShapeMismatch)
    );
}

#[test]
fn escape_sequence_is_shape_mismatch() {
    let text = "{\"chain\":\"ma\\\"in\",\"blocks\":1,\"size_on_disk\":1,\"chainSupply\":{\"chainValue\":1,\"monitored\":true},\"valuePools\":[]}";
    assert_eq!(
        materialize_chain_info(text.as_bytes()).err(),
        Some(ClientError::ShapeMismatch)
    );
}

#[test]
fn trailing_garbage_is_shape_mismatch() {
    let text = r#"{"height":3,"valuePools":[]} x"#;
    assert_eq!(
        materialize_block_supply(text.as_bytes()).err(),
        Some(ClientError::ShapeMismatch)
    );
}

#[test]
fn empty_input_is_shape_mismatch() {
    assert_eq!(
        materialize_chain_info(b"").err(),
        Some(ClientError::ShapeMismatch)
    );
    assert_eq!(project_result(b"   ").err(), Some(ClientError::ShapeMismatch));
}

#[test]
fn first_of_duplicate_keys_wins() {
    let text = r#"{"height":1,"height":2,"valuePools":[]}"#;
    let info = materialize_block_supply(text.as_bytes()).unwrap();
    assert_eq!(info.height, 1);
}

#[test]
fn projects_result_out_of_envelope() {
    let body = r#"{"result":{"abc":{"size":1}},"error":null,"id":"curltest"}"#;
    let projected = project_result(body.as_bytes()).unwrap();
    assert_eq!(projected, br#"{"abc":{"size":1}}"#.to_vec());
}

#[test]
fn envelope_without_result_is_shape_mismatch() {
    let body = r#"{"error":"nope","id":"curltest"}"#;
    assert_eq!(
        project_result(body.as_bytes()).err(),
        Some(ClientError::ShapeMismatch)
    );
}

#[test]
fn lists_block_transactions_newest_first() {
    let text = r#"{"height":5,"tx":["aa","bb","cc"]}"#;
    let ids = block_transactions(text.as_bytes()).unwrap();
    assert_eq!(ids, vec![b"cc".to_vec(), b"bb".to_vec(), b"aa".to_vec()]);
}

#[test]
fn lists_peer_addresses_in_order() {
    let body = r#"{"result":[{"addr":"192.0.2.1:8233","inbound":true},{"addr":"198.51.100.7:8233"}],"error":null,"id":"curltest"}"#;
    let addrs = peer_addresses(body.as_bytes()).unwrap();
    assert_eq!(
        addrs,
        vec![b"192.0.2.1:8233".to_vec(), b"198.51.100.7:8233".to_vec()]
    );
}

#[test]
fn serializes_the_fixed_request_shape() {
    let req = RpcRequest {
        version: b"1.0".to_vec(),
        id: b"curltest".to_vec(),
        method: b"getblockchaininfo".to_vec(),
        params: Vec::new(),
    };
    let body = serialize_request(&req);
    assert_eq!(
        body,
        br#"{"jsonrpc":"1.0","id":"curltest","method":"getblockchaininfo","params":[]}"#.to_vec()
    );
}

#[test]
fn serializes_every_parameter_kind() {
    let req = RpcRequest {
        version: b"1.0".to_vec(),
        id: b"curltest".to_vec(),
        method: b"getrawmempool".to_vec(),
        params: vec![
            RpcParam::Flag(true),
            RpcParam::Number(-7),
            RpcParam::Text(b"abc".to_vec()),
        ],
    };
    let body = serialize_request(&req);
    assert_eq!(
        body,
        br#"{"jsonrpc":"1.0","id":"curltest","method":"getrawmempool","params":[true,-7,"abc"]}"#
            .to_vec()
    );
}

#[test]
fn getblock_request_round_trips_through_a_parser() {
    let hash = b"000000000019d6689c085ae165831e93".to_vec();
    let req = request_for_command(Command::BlockDetail, Some(hash.clone())).unwrap();
    let body = serialize_request(&req);
    let value: serde_json::Value = serde_json::from_slice(&body).unwrap();
    assert_eq!(value.get("method").unwrap(), "getblock");
    let params = value.get("params").unwrap().as_array().unwrap();
    assert_eq!(params.len(), 2);
    assert_eq!(params[0], String::from_utf8(hash).unwrap().as_str());
    assert_eq!(params[1], 1);
    assert_eq!(value.get("jsonrpc").unwrap(), "1.0");
    assert_eq!(value.get("id").unwrap(), "curltest");
}
