use std::collections::HashMap;

use storage::asset_handler::{asset_list, commit_batch, delete_asset, get_asset, AssetArg};
use storage::chunk_handler::{
    chunk_availability_check, clear_expired_chunks, get_chunk, store_chunk, upload_chunk,
    RETENTION_NANOS,
};
use storage::checksum::MODULO_VALUE;
use storage::http_handler::{
    create_strategy, create_token, http_request, http_request_streaming_callback,
};
use storage::memory::memory_is_full;
use storage::types::{
    ChunkArg, ContentEncoding, CreateStrategyArgs, HttpRequest, State, StorageError,
    StreamingCallbackToken, StreamingStrategy,
};
use storage::utils::{generate_url, get_asset_id};

const CANISTER: &str = "bkyz2-fmaaa-aaaaa-qaaaq-cai";

fn alice() -> Vec<u8> {
    vec![1, 2, 3]
}

fn bob() -> Vec<u8> {
    vec![9, 9]
}

fn upload(state: &mut State, who: &Vec<u8>, order: u32, bytes: &[u8], now: u64) -> u128 {
    upload_chunk(state, who, now, ChunkArg { order, content: bytes.to_vec() }).unwrap()
}

fn commit_args(checksum: u32, ids: Vec<u128>) -> AssetArg {
    AssetArg {
        checksum,
        chunk_ids: ids,
        content_type: "text/plain".to_string(),
        file_name: "notes.txt".to_string(),
        content_encoding: ContentEncoding::Identity,
    }
}

fn aggregate(sums: &[u32]) -> u32 {
    let mut acc: u64 = 0;
    for s in sums {
        acc = (acc + *s as u64) % MODULO_VALUE as u64;
    }
    acc as u32
}

fn request(url: &str) -> HttpRequest {
    HttpRequest { method: "GET".to_string(), url: url.to_string(), headers: vec![], body: vec![] }
}

fn token_of(strategy: Option<StreamingStrategy>) -> Option<StreamingCallbackToken> {
    strategy.map(|s| match s {
        StreamingStrategy::Callback { token, .. } => token,
    })
}

#[test]
fn upload_commit_and_deliver_two_chunks() {
    let mut state = State::default();
    let x = alice();
    let id0 = upload(&mut state, &x, 0, b"AB", 5);
    let id1 = upload(&mut state, &x, 1, b"CD", 5);
    let c0 = crc32fast::hash(b"AB");
    let c1 = crc32fast::hash(b"CD");
    let checksum = ((c0 as u64 + c1 as u64) % 400_000_000) as u32;
    let a = commit_batch(&mut state, &x, CANISTER, commit_args(checksum, vec![id0, id1])).unwrap();
    assert_eq!(a, 1);
    let q = get_asset(&state, a).unwrap();
    assert_eq!(q.content_type, "text/plain");
    assert_eq!(q.file_name, "notes.txt");
    assert_eq!(q.owner, x);
    assert_eq!(q.url, format!("http://{}.localhost:8080/asset/1", CANISTER));

    let resp = http_request(&state, &vec![7], &request(&q.url)).unwrap();
    assert_eq!(resp.status_code, 200);
    assert_eq!(resp.body, b"AB".to_vec());
    match &resp.streaming_strategy {
        Some(StreamingStrategy::Callback { callback, .. }) => {
            assert_eq!(callback.method, "http_request_streaming_callback");
            assert_eq!(callback.principal, vec![7]);
        }
        None => panic!("expected a strategy"),
    }
    let token = token_of(resp.streaming_strategy).expect("a continuation token");
    assert_eq!(token.asset_id, a);
    assert_eq!(token.chunk_index, 1);
    assert_eq!(token.chunk_size, 2);
    assert_eq!(token.content_encoding, "gzip");
    let next = http_request_streaming_callback(&state, token).unwrap();
    assert_eq!(next.body, b"CD".to_vec());
    assert!(next.token.is_none());
    // the fragments were consumed
    assert!(!chunk_availability_check(&state, &vec![id0]));
    assert!(!chunk_availability_check(&state, &vec![id1]));
}

#[test]
fn commit_orders_fragments_by_order_field() {
    let mut state = State::default();
    let x = alice();
    let late = upload(&mut state, &x, 2, b"ccc", 0);
    let early = upload(&mut state, &x, 0, b"a", 0);
    let mid = upload(&mut state, &x, 1, b"bb", 0);
    let sums = [crc32fast::hash(b"a"), crc32fast::hash(b"bb"), crc32fast::hash(b"ccc")];
    let a = commit_batch(&mut state, &x, CANISTER, commit_args(aggregate(&sums), vec![late, early, mid]))
        .unwrap();
    let url = get_asset(&state, a).unwrap().url;
    let mut bodies: Vec<u8> = Vec::new();
    let first = http_request(&state, &vec![7], &request(&url)).unwrap();
    bodies.extend(first.body);
    let mut token = token_of(first.streaming_strategy);
    let mut tokens = 0;
    while let Some(t) = token {
        tokens += 1;
        let r = http_request_streaming_callback(&state, t).unwrap();
        bodies.extend(r.body);
        token = r.token;
    }
    assert_eq!(tokens, 2);
    assert_eq!(bodies, b"abbccc".to_vec());
}

#[test]
fn single_chunk_asset_has_no_continuation() {
    let mut state = State::default();
    let x = alice();
    let id = upload(&mut state, &x, 0, b"only", 0);
    let a = commit_batch(&mut state, &x, CANISTER, commit_args(aggregate(&[crc32fast::hash(b"only")]), vec![id]))
        .unwrap();
    let resp = http_request(&state, &vec![7], &request(&format!("https://h/asset/{}", a))).unwrap();
    assert_eq!(resp.body, b"only".to_vec());
    assert!(resp.streaming_strategy.is_none());
    assert_eq!(resp.headers.len(), 4);
    assert_eq!(resp.headers[0].0, "Content-Type");
    assert_eq!(resp.headers[0].1, "text/plain");
    assert_eq!(resp.headers[2].1, "attachment; filename=notes.txt");
    assert_eq!(resp.headers[3].1, "private, max-age=0");
}

#[test]
fn commit_with_missing_or_foreign_ids_keeps_everything() {
    let mut state = State::default();
    let x = alice();
    let y = bob();
    let mine = upload(&mut state, &x, 0, b"AB", 0);
    let theirs = upload(&mut state, &y, 1, b"CD", 0);
    let checksum = crc32fast::hash(b"AB") % MODULO_VALUE;
    match commit_batch(&mut state, &x, CANISTER, commit_args(checksum, vec![mine, 77, 78])) {
        Err(StorageError::NotFound(ids)) => assert_eq!(ids, vec![77, 78]),
        _ => panic!("expected NotFound"),
    }
    match commit_batch(&mut state, &x, CANISTER, commit_args(checksum, vec![mine, theirs])) {
        Err(StorageError::NotOwned(ids)) => assert_eq!(ids, vec![theirs]),
        _ => panic!("expected NotOwned"),
    }
    assert!(chunk_availability_check(&state, &vec![mine, theirs]));
    assert!(get_asset(&state, 1).is_err());
}

#[test]
fn commit_without_own_fragments_reports_offenders() {
    let mut state = State::default();
    let theirs = upload(&mut state, &bob(), 0, b"CD", 0);
    match commit_batch(&mut state, &alice(), CANISTER, commit_args(0, vec![theirs])) {
        Err(StorageError::NotOwned(ids)) => assert_eq!(ids, vec![theirs]),
        _ => panic!("expected NotOwned"),
    }
    match commit_batch(&mut state, &alice(), CANISTER, commit_args(0, vec![41])) {
        Err(StorageError::NotFound(ids)) => assert_eq!(ids, vec![41]),
        _ => panic!("expected NotFound"),
    }
    match commit_batch(&mut state, &alice(), CANISTER, commit_args(0, vec![41, theirs])) {
        Err(StorageError::NotFound(ids)) => assert_eq!(ids, vec![41]),
        _ => panic!("expected NotFound"),
    }
    assert!(matches!(
        commit_batch(&mut state, &alice(), CANISTER, commit_args(0, vec![])),
        Err(StorageError::EmptyCommit)
    ));
    assert!(chunk_availability_check(&state, &vec![theirs]));
}

#[test]
fn commit_with_repeated_id_reports_it_missing() {
    let mut state = State::default();
    let x = alice();
    let id = upload(&mut state, &x, 0, b"AB", 0);
    match commit_batch(&mut state, &x, CANISTER, commit_args(0, vec![id, id])) {
        Err(StorageError::NotFound(ids)) => assert_eq!(ids, vec![id]),
        _ => panic!("expected NotFound"),
    }
    assert!(chunk_availability_check(&state, &vec![id]));
}

#[test]
fn repeated_claim_does_not_hide_absent_or_foreign_ids() {
    let mut state = State::default();
    let x = alice();
    let a = upload(&mut state, &x, 0, b"AB", 0);
    let f = upload(&mut state, &bob(), 1, b"CD", 0);
    match commit_batch(&mut state, &x, CANISTER, commit_args(0, vec![a, a, 55, 55])) {
        Err(StorageError::NotFound(ids)) => assert_eq!(ids, vec![55]),
        _ => panic!("expected NotFound"),
    }
    match commit_batch(&mut state, &x, CANISTER, commit_args(0, vec![f, a, a, f])) {
        Err(StorageError::NotOwned(ids)) => assert_eq!(ids, vec![f]),
        _ => panic!("expected NotOwned"),
    }
    assert!(chunk_availability_check(&state, &vec![a, f]));
}

#[test]
fn checksum_mismatch_keeps_fragments() {
    let mut state = State::default();
    let x = alice();
    let id0 = upload(&mut state, &x, 0, b"AB", 0);
    let id1 = upload(&mut state, &x, 1, b"CD", 0);
    let right = aggregate(&[crc32fast::hash(b"AB"), crc32fast::hash(b"CD")]);
    let wrong = (right + 1) % MODULO_VALUE;
    match commit_batch(&mut state, &x, CANISTER, commit_args(wrong, vec![id0, id1])) {
        Err(StorageError::ChecksumMismatch { expected, actual }) => {
            assert_eq!(expected, wrong);
            assert_eq!(actual, right);
        }
        _ => panic!("expected ChecksumMismatch"),
    }
    assert!(chunk_availability_check(&state, &vec![id0, id1]));
    assert!(commit_batch(&mut state, &x, CANISTER, commit_args(right, vec![id1, id0])).is_ok());
}

#[test]
fn aggregate_wraps_at_modulus() {
    let mut state = State::default();
    let x = alice();
    let id0 = store_chunk(&mut state, &x, 0, ChunkArg { order: 0, content: vec![1] }, 399_999_999).unwrap();
    let id1 = store_chunk(&mut state, &x, 0, ChunkArg { order: 1, content: vec![2] }, u32::MAX).unwrap();
    let expected = ((399_999_999u64 + u32::MAX as u64) % 400_000_000) as u32;
    assert_eq!(expected, 294_967_294);
    assert!(commit_batch(&mut state, &x, CANISTER, commit_args(expected, vec![id0, id1])).is_ok());
}

#[test]
fn availability_check_ignores_query_order() {
    let mut state = State::default();
    let x = alice();
    let a = upload(&mut state, &x, 0, b"1", 0);
    let b = upload(&mut state, &x, 1, b"2", 0);
    assert!(chunk_availability_check(&state, &vec![a, b]));
    assert!(chunk_availability_check(&state, &vec![b, a]));
    assert!(chunk_availability_check(&state, &vec![]));
    assert!(!chunk_availability_check(&state, &vec![a, 99, b]));
    assert!(!chunk_availability_check(&state, &vec![99, b, a]));
}

#[test]
fn sweep_removes_only_expired_fragments_and_is_idempotent() {
    let mut state = State::default();
    let x = alice();
    let old = upload(&mut state, &x, 0, b"old", 1_000);
    let edge = upload(&mut state, &x, 0, b"edge", 2_000);
    let young = upload(&mut state, &x, 0, b"young", 5_000);
    let now = 2_000 + RETENTION_NANOS;
    clear_expired_chunks(&mut state, now);
    assert!(!chunk_availability_check(&state, &vec![old]));
    assert!(chunk_availability_check(&state, &vec![edge, young]));
    clear_expired_chunks(&mut state, now);
    assert!(chunk_availability_check(&state, &vec![edge, young]));
    assert!(get_chunk(&state, old).is_err());
    assert_eq!(RETENTION_NANOS, 600_000_000_000);
}

#[test]
fn sweep_early_in_time_keeps_everything() {
    let mut state = State::default();
    let id = upload(&mut state, &alice(), 0, b"x", 0);
    clear_expired_chunks(&mut state, 10);
    assert!(chunk_availability_check(&state, &vec![id]));
}

#[test]
fn upload_records_crc32_of_content() {
    let mut state = State::default();
    let id = upload(&mut state, &alice(), 4, b"123456789", 42);
    assert_eq!(id, 1);
    let q = get_chunk(&state, id).unwrap();
    assert_eq!(q.checksum, 0xCBF4_3926);
    assert_eq!(q.order, 4);
    assert_eq!(q.created_at, 42);
    assert_eq!(q.owner, alice());
    assert_eq!(q.id, 1);
    assert_eq!(upload(&mut state, &alice(), 0, b"", 0), 2);
    match get_chunk(&state, 9) {
        Err(StorageError::NotFound(ids)) => assert_eq!(ids, vec![9]),
        _ => panic!("expected NotFound"),
    }
}

#[test]
fn delete_requires_owner() {
    let mut state = State::default();
    let x = alice();
    let id = upload(&mut state, &x, 0, b"AB", 0);
    let a = commit_batch(&mut state, &x, CANISTER, commit_args(aggregate(&[crc32fast::hash(b"AB")]), vec![id]))
        .unwrap();
    match delete_asset(&mut state, &bob(), a) {
        Err(StorageError::NotOwned(ids)) => assert_eq!(ids, vec![a]),
        _ => panic!("expected NotOwned"),
    }
    assert!(get_asset(&state, a).is_ok());
    assert_eq!(delete_asset(&mut state, &x, a).unwrap(), true);
    match get_asset(&state, a) {
        Err(StorageError::NotFound(ids)) => assert_eq!(ids, vec![a]),
        _ => panic!("expected NotFound"),
    }
    assert!(matches!(delete_asset(&mut state, &x, a), Err(StorageError::NotFound(_))));
}

#[test]
fn asset_list_shows_every_asset() {
    let mut state = State::default();
    let x = alice();
    let mut made: Vec<u128> = Vec::new();
    for n in 0..3u8 {
        let id = upload(&mut state, &x, 0, &[n], 0);
        let a = commit_batch(&mut state, &x, CANISTER, commit_args(aggregate(&[crc32fast::hash(&[n])]), vec![id]))
            .unwrap();
        made.push(a);
    }
    let list: HashMap<u128, _> = asset_list(&state);
    assert_eq!(list.len(), 3);
    for a in made {
        assert_eq!(list[&a].id, a);
        assert_eq!(list[&a].url, format!("http://{}.localhost:8080/asset/{}", CANISTER, a));
    }
}

#[test]
fn unknown_asset_gets_not_found_response() {
    let state = State::default();
    let resp = http_request(&state, &vec![7], &request("http://h/asset/5")).unwrap();
    assert_eq!(resp.status_code, 404);
    assert_eq!(resp.body, b"Asset Not Found".to_vec());
    assert!(resp.headers.is_empty());
    assert!(resp.streaming_strategy.is_none());
}

#[test]
fn malformed_locator_is_rejected() {
    let state = State::default();
    assert!(matches!(
        http_request(&state, &vec![7], &request("http://h/asset/abc")),
        Err(StorageError::MalformedLocator)
    ));
}

#[test]
fn stale_or_out_of_range_token_is_rejected() {
    let mut state = State::default();
    let x = alice();
    let id = upload(&mut state, &x, 0, b"AB", 0);
    let a = commit_batch(&mut state, &x, CANISTER, commit_args(aggregate(&[crc32fast::hash(b"AB")]), vec![id]))
        .unwrap();
    let bad_index = StreamingCallbackToken { asset_id: a, chunk_index: 1, chunk_size: 1, content_encoding: "gzip".to_string() };
    assert!(matches!(
        http_request_streaming_callback(&state, bad_index),
        Err(StorageError::InvalidContinuationToken)
    ));
    delete_asset(&mut state, &x, a).unwrap();
    let gone = StreamingCallbackToken { asset_id: a, chunk_index: 0, chunk_size: 1, content_encoding: "gzip".to_string() };
    assert!(matches!(
        http_request_streaming_callback(&state, gone),
        Err(StorageError::InvalidContinuationToken)
    ));
}

#[test]
fn locator_parsing() {
    assert_eq!(get_asset_id("http://h.localhost:8080/asset/42").unwrap(), 42);
    assert_eq!(get_asset_id("https://h.raw.ic0.app/asset/7?download=1").unwrap(), 7);
    assert_eq!(get_asset_id("/asset/ 19 ").unwrap(), 19);
    assert_eq!(get_asset_id("/asset/+8").unwrap(), 8);
    assert_eq!(get_asset_id("123").unwrap(), 123);
    assert_eq!(
        get_asset_id("/asset/340282366920938463463374607431768211455").unwrap(),
        u128::MAX
    );
    assert!(matches!(get_asset_id("/asset/340282366920938463463374607431768211456"), Err(StorageError::MalformedLocator)));
    assert!(matches!(get_asset_id("/asset/"), Err(StorageError::MalformedLocator)));
    assert!(matches!(get_asset_id("/asset/-1"), Err(StorageError::MalformedLocator)));
    assert!(matches!(get_asset_id("/asset/1/"), Err(StorageError::MalformedLocator)));
    assert!(matches!(get_asset_id("/asset/+"), Err(StorageError::MalformedLocator)));
}

#[test]
fn url_generation() {
    assert_eq!(generate_url("abc", 0), "http://abc.localhost:8080/asset/0");
    assert_eq!(generate_url("abc", 1234), "http://abc.localhost:8080/asset/1234");
    assert_eq!(get_asset_id(&generate_url("abc", 98765)).unwrap(), 98765);
}

#[test]
fn token_creation() {
    assert!(create_token(CreateStrategyArgs { asset_id: 3, chunk_index: 0, chunk_size: 1 }).is_none());
    assert!(create_token(CreateStrategyArgs { asset_id: 3, chunk_index: u32::MAX, chunk_size: u32::MAX }).is_none());
    let t = create_token(CreateStrategyArgs { asset_id: 3, chunk_index: 1, chunk_size: 3 }).unwrap();
    assert_eq!((t.asset_id, t.chunk_index, t.chunk_size), (3, 2, 3));
    match create_strategy(CreateStrategyArgs { asset_id: 3, chunk_index: 0, chunk_size: 2 }, &vec![5, 6]) {
        Some(StreamingStrategy::Callback { token, callback }) => {
            assert_eq!(token.chunk_index, 1);
            assert_eq!(callback.principal, vec![5, 6]);
            assert_eq!(callback.method, "http_request_streaming_callback");
        }
        None => panic!("expected a strategy"),
    }
}

#[test]
fn memory_limit() {
    let limit: u128 = 40 * 1024 * 1024 * 1024;
    assert!(!memory_is_full(limit - 1));
    assert!(memory_is_full(limit));
}
