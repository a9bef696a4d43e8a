use base64::Engine;
use rdfs::{
    chunk_round_trip, delete_chunk, get_chunk, store_chunk, ChunkError, ChunkStore, Config,
};

#[test]
fn chunk_round_trip_returns_identical_bytes() {
    let mut store = ChunkStore::new();
    let bytes: Vec<u8> = b"chunk payload \x00\x01\x02\xff".to_vec();
    let out = chunk_round_trip(&mut store, &"7-abc".to_string(), &bytes);
    assert_eq!(out, Some(bytes));
}

#[test]
fn store_then_get_chunk_over_the_wire() {
    let mut store = ChunkStore::new();
    let bytes = b"hello rdfs".to_vec();
    let wire = base64::prelude::BASE64_STANDARD.encode(&bytes);
    let id = "1-5c9d".to_string();
    let stored = store_chunk(&mut store, &id, &wire).unwrap();
    assert_eq!(stored, "1-5c9d");
    let msg = get_chunk(&store, &id).unwrap();
    assert_eq!(msg.id, "1-5c9d");
    assert_eq!(msg.chunk, wire);
    let decoded = base64::prelude::BASE64_STANDARD.decode(&msg.chunk).unwrap();
    assert_eq!(decoded, bytes);
}

#[test]
fn store_chunk_overwrites() {
    let mut store = ChunkStore::new();
    let id = "2-aa".to_string();
    let first = base64::prelude::BASE64_STANDARD.encode(b"one");
    let second = base64::prelude::BASE64_STANDARD.encode(b"two");
    store_chunk(&mut store, &id, &first).unwrap();
    store_chunk(&mut store, &id, &second).unwrap();
    let msg = get_chunk(&store, &id).unwrap();
    let decoded = base64::prelude::BASE64_STANDARD.decode(&msg.chunk).unwrap();
    assert_eq!(decoded, b"two".to_vec());
}

#[test]
fn empty_chunk_round_trips() {
    let mut store = ChunkStore::new();
    let out = chunk_round_trip(&mut store, &"0-empty".to_string(), &Vec::new());
    assert_eq!(out, Some(Vec::new()));
}

#[test]
fn store_chunk_rejects_bad_encoding() {
    let mut store = ChunkStore::new();
    let r = store_chunk(&mut store, &"3-bb".to_string(), &"not base64 !!".to_string());
    assert_eq!(r.unwrap_err(), ChunkError::BadEncoding);
    assert_eq!(
        get_chunk(&store, &"3-bb".to_string()).unwrap_err(),
        ChunkError::NotFound
    );
}

#[test]
fn get_chunk_unknown_id_is_not_found() {
    let store = ChunkStore::new();
    let r = get_chunk(&store, &"9-zz".to_string());
    assert_eq!(r.unwrap_err(), ChunkError::NotFound);
}

#[test]
fn delete_chunk_removes_and_reports_absence() {
    let mut store = ChunkStore::new();
    let id = "4-cc".to_string();
    let wire = base64::prelude::BASE64_STANDARD.encode(b"data");
    store_chunk(&mut store, &id, &wire).unwrap();
    assert_eq!(delete_chunk(&mut store, &id).unwrap(), "4-cc");
    assert_eq!(
        get_chunk(&store, &id).unwrap_err(),
        ChunkError::NotFound
    );
    assert_eq!(
        delete_chunk(&mut store, &id).unwrap_err(),
        ChunkError::NotFound
    );
}

#[test]
fn authorise_compares_the_shared_token() {
    let expected = "cluster-token-1".to_string();
    assert!(rdfs::auth::authorise(Some(&expected.clone()), &expected));
    assert!(!rdfs::auth::authorise(
        Some(&"wrong".to_string()),
        &expected
    ));
    assert!(!rdfs::auth::authorise(None, &expected));
}

#[test]
fn config_carries_endpoint_and_token() {
    let c = Config {
        endpoint: "http://127.0.0.1:8888".to_string(),
        token: "cluster-token-1".to_string(),
    };
    let d = c.clone();
    assert_eq!(d.endpoint, "http://127.0.0.1:8888");
    assert_eq!(d.token, c.token);
}

#[test]
fn client_commands_accept_their_arguments() {
    rdfs::client::list(&None);
    rdfs::client::list(&Some("docs".to_string()));
    rdfs::client::get(&"foo.txt".to_string());
    rdfs::client::add(&"foo.txt".to_string());
    rdfs::client::remove(&"foo.txt".to_string());
}
