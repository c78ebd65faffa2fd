use fusion_store::compact::CompactResult;
use fusion_store::error::StoreError;
use fusion_store::serve::auth::{
    choose_token, constant_eq, enforce_bind_auth_policy, guard, require_auth, AuthRole, AuthTokens,
    Endpoint,
};
use fusion_store::serve::base64::{base64_decode, columnar_write, decoded};
use fusion_store::serve::compaction::{CompactGate, CompactResp};
use fusion_store::serve::health::internal_error;
use fusion_store::serve::metrics::{
    inc, observe, set_queue_depth, set_seg_util, Metrics, Update,
};
use fusion_store::serve::queue::{
    admit_knn, await_write_done, handle_write_req, queue_cap, Sent, WriteOutcome, WriteQueue,
    WriteReq, DEFAULT_QUEUE_CAP,
};
use fusion_store::serve::{
    AppError, PutColumnarReq, DEFAULT_PORT, KNN_CONCURRENCY, MAX_BODY_BYTES, WRITE_WORKERS,
};

fn token(t: &str) -> Option<Vec<u8>> {
    Some(t.as_bytes().to_vec())
}

fn admin_only(t: &str) -> AuthTokens {
    AuthTokens { admin: token(t), readwrite: None, readonly: None }
}

fn three() -> AuthTokens {
    AuthTokens { admin: token("adm"), readwrite: token("rw"), readonly: token("ro") }
}

fn anonymous() -> AuthTokens {
    AuthTokens { admin: None, readwrite: None, readonly: None }
}

fn status(r: Result<(), AppError>) -> u16 {
    match r {
        Ok(()) => 200,
        Err(e) => e.0,
    }
}

#[test]
fn admin_endpoint_requires_bearer_token() {
    let t = admin_only("s3cret");
    assert_eq!(
        guard(&t, None, Endpoint::Compact, true),
        Err(AppError(401, "missing or invalid Authorization Bearer token".to_string())),
        "compact without token"
    );
    assert_eq!(status(guard(&t, Some(b"Bearer wrong"), Endpoint::Compact, true)), 401);
    assert_eq!(status(guard(&t, Some(b"Bearer s3cret"), Endpoint::Compact, true)), 200);
}

#[test]
fn kv_write_requires_bearer_when_auth_set() {
    let t = admin_only("tok");
    assert_eq!(status(guard(&t, None, Endpoint::PutKv, true)), 401);
    assert_eq!(status(guard(&t, None, Endpoint::InsertVector, true)), 401);
    assert_eq!(status(guard(&t, None, Endpoint::PutColumnar, true)), 401);
    assert_eq!(status(guard(&t, Some(b"Bearer tok"), Endpoint::PutKv, true)), 200);
}

#[test]
fn read_endpoints_not_gated_by_auth() {
    let t = admin_only("tok");
    assert_eq!(status(guard(&t, None, Endpoint::Health, true)), 200);
    assert_eq!(status(guard(&t, None, Endpoint::Stats, true)), 200);
    assert_eq!(status(guard(&t, None, Endpoint::Metrics, true)), 200);
    assert_eq!(status(guard(&t, None, Endpoint::Knn, true)), 200);
}

#[test]
fn roles_may_what_they_may() {
    let t = three();
    let (adm, rw, ro): (&[u8], &[u8], &[u8]) = (b"Bearer adm", b"Bearer rw", b"Bearer ro");
    assert_eq!(t.role(Some(adm)), Some(AuthRole::Admin));
    assert_eq!(t.role(Some(rw)), Some(AuthRole::Readwrite));
    assert_eq!(t.role(Some(ro)), Some(AuthRole::Readonly));
    assert_eq!(t.role(Some(b"adm")), None);
    assert_eq!(t.role(Some(b"bearer adm")), None);
    assert_eq!(t.role(Some(b"Bearer adm ")), None);
    assert_eq!(t.role(None), None);
    assert_eq!(status(guard(&t, Some(adm), Endpoint::Compact, false)), 200);
    assert_eq!(
        guard(&t, Some(rw), Endpoint::Compact, false),
        Err(AppError(403, "role not permitted for this endpoint".to_string()))
    );
    assert_eq!(status(guard(&t, Some(rw), Endpoint::PutKv, false)), 200);
    assert_eq!(status(guard(&t, Some(ro), Endpoint::PutKv, false)), 403);
    assert_eq!(status(guard(&t, Some(ro), Endpoint::Stats, false)), 200);
    assert_eq!(status(guard(&t, None, Endpoint::Stats, false)), 401);
    assert_eq!(status(guard(&t, None, Endpoint::Health, false)), 200);
    assert!(AuthRole::Admin.allows(AuthRole::Readonly));
    assert!(!AuthRole::Readonly.allows(AuthRole::Readwrite));
}

#[test]
fn without_tokens_no_one_is_asked() {
    let t = anonymous();
    assert!(t.is_empty());
    assert!(!three().is_empty());
    assert_eq!(status(require_auth(&t, None, AuthRole::Admin)), 200);
    assert_eq!(status(guard(&t, None, Endpoint::Compact, true)), 200);
}

#[test]
fn listening_beyond_the_machine_needs_a_token() {
    assert!(enforce_bind_auth_policy(true, false).is_ok());
    assert!(enforce_bind_auth_policy(false, true).is_ok());
    assert_eq!(
        enforce_bind_auth_policy(false, false),
        Err("refusing to listen on a non-loopback address without an auth token".to_string())
    );
}

#[test]
fn tokens_come_directly_or_from_a_file() {
    assert_eq!(choose_token(token("a"), token("b")), token("a"));
    assert_eq!(choose_token(None, token("b\r\n")), token("b"));
    assert_eq!(choose_token(token(""), token("b c \t\n")), token("b c"));
    assert_eq!(choose_token(None, token(" \n")), None);
    assert_eq!(choose_token(None, None), None);
}

#[test]
fn comparing_looks_at_every_byte() {
    assert!(constant_eq(b"", b""));
    assert!(constant_eq(b"abc", b"abc"));
    assert!(!constant_eq(b"abc", b"abd"));
    assert!(!constant_eq(b"xbc", b"abc"));
    assert!(!constant_eq(b"abc", b"ab"));
}

#[test]
fn backpressure_returns_503_when_queue_full() {
    let mut q = WriteQueue { cap: 2, depth: 2 };
    let full = AppError(503, "backpressure: queue full".to_string());
    assert_eq!(q.reserve(), Err(full.clone()), "queue full -> 503 backpressure");
    assert_eq!(q.depth, 2);
    q.depth = 0;
    q.reserve().unwrap();
    assert_eq!(q.try_enqueue(Sent::Queued), Ok(1));
    q.reserve().unwrap();
    assert_eq!(q.try_enqueue(Sent::Full), Err(full), "its place is given back");
    assert_eq!(q.depth, 1);
    q.reserve().unwrap();
    assert_eq!(q.try_enqueue(Sent::Closed), Ok(2));
    assert_eq!(q.finished(), 1);
    assert_eq!(q.finished(), 0);
    assert_eq!(WriteQueue::new(7).cap, 7);
}

#[test]
fn queue_caps() {
    assert_eq!(queue_cap(0), 10_000);
    assert_eq!(queue_cap(5), 5);
    assert_eq!(DEFAULT_QUEUE_CAP, 10_000);
    assert_eq!((DEFAULT_PORT, WRITE_WORKERS, KNN_CONCURRENCY), (11463, 4, 64));
    assert_eq!(MAX_BODY_BYTES, 16 * 1024 * 1024);
}

#[test]
fn writes_are_answered_by_what_became_of_them() {
    assert_eq!(await_write_done(WriteOutcome::Done, "put_kv"), Ok(204));
    assert_eq!(
        await_write_done(WriteOutcome::Failed, "put_kv"),
        Err(AppError(500, "put_kv failed".to_string()))
    );
    assert_eq!(
        await_write_done(WriteOutcome::Dropped, "insert_vector"),
        Err(AppError(500, "insert_vector worker dropped".to_string()))
    );
}

#[test]
fn workers_report_each_write() {
    let put = WriteReq::PutKv { key: b"k".to_vec(), value: b"v".to_vec() };
    let r = handle_write_req(&put, true);
    assert_eq!((r.label, r.result, r.refresh_usage), ("put_kv", "ok", true));
    assert_eq!(r.outcome, WriteOutcome::Done);
    let r = handle_write_req(&put, false);
    assert_eq!((r.result, r.refresh_usage, r.outcome), ("error", false, WriteOutcome::Failed));
    let insert = WriteReq::InsertVector { id: 1, vector: Vec::new() };
    let r = handle_write_req(&insert, true);
    assert_eq!((r.label, r.refresh_usage), ("insert_vector", false));
    let table = WriteReq::PutColumnar { table_id: String::new(), ipc: Vec::new() };
    assert_eq!(handle_write_req(&table, true).label, "put_columnar");
}

#[test]
fn searches_beyond_the_limit_are_refused() {
    assert_eq!(admit_knn(true), Ok(()));
    assert_eq!(
        admit_knn(false),
        Err(AppError(503, "knn concurrency limit reached".to_string()))
    );
}

#[test]
fn compact_endpoint_runs_cow() {
    let mut gate = CompactGate { in_progress: false };
    gate.begin().unwrap();
    assert_eq!(gate.begin(), Err(AppError(409, "compact already in progress".to_string())));
    let done = Ok(CompactResult { live_vectors: 4, reclaimable_segs: vec![0, 1], snapshot: Vec::new() });
    assert_eq!(gate.finish(&done), Ok(CompactResp { live_vectors: 4, reclaimable_segs: 2 }));
    assert!(!gate.in_progress);
    gate.begin().unwrap();
    assert_eq!(
        gate.finish(&Err(StoreError::NotFound)),
        Err(AppError(500, "key not found".to_string()))
    );
    assert!(!gate.in_progress);
    assert_eq!(internal_error(&StoreError::Timeout).0, 500);
}

fn all() -> Metrics {
    Metrics {
        ops_total: true,
        ops_latency_us: true,
        seg_used_bytes: true,
        seg_capacity_bytes: true,
        backpressure_queue_depth: true,
    }
}

#[test]
fn missing_metrics_are_passed_over() {
    assert!(!all().degraded());
    let some = Metrics { ops_latency_us: false, seg_used_bytes: false, ..all() };
    assert!(some.degraded());
    let updates = observe(Some(all()), "knn", "ok", 7);
    assert!(matches!(
        updates[..],
        [
            Update::OpsTotal { op: "knn", result: "ok" },
            Update::OpsLatency { op: "knn", elapsed_us: 7 },
        ]
    ));
    assert_eq!(observe(Some(some), "knn", "ok", 7).len(), 1);
    assert!(observe(None, "knn", "ok", 7).is_empty());
    assert!(matches!(
        inc(Some(all()), "health", "ok")[..],
        [Update::OpsTotal { op: "health", result: "ok" }]
    ));
    assert!(matches!(
        set_seg_util(Some(all()), 5, 9)[..],
        [Update::SegUsed(5), Update::SegCapacity(9)]
    ));
    assert!(matches!(set_seg_util(Some(some), 5, 9)[..], [Update::SegCapacity(9)]));
    assert!(matches!(set_queue_depth(Some(all()), 3)[..], [Update::QueueDepth(3)]));
    assert!(inc(None, "a", "b").is_empty());
    assert!(set_seg_util(None, 1, 2).is_empty() && set_queue_depth(None, 1).is_empty());
}

#[test]
fn base64_is_decoded_or_refused() {
    assert_eq!(base64_decode("").unwrap(), b"");
    assert_eq!(base64_decode("Zg==").unwrap(), b"f");
    assert_eq!(base64_decode("Zm8=").unwrap(), b"fo");
    assert_eq!(base64_decode("Zm9v").unwrap(), b"foo");
    assert_eq!(base64_decode("Zm9vYmFy").unwrap(), b"foobar");
    assert_eq!(base64_decode("+/+/").unwrap(), vec![0xfb, 0xff, 0xbf]);
    let text = "aGVsbG8gd29ybGR+CmhlbGxvIHdvcmxkfgpoZWxsbyB3b3JsZH4K";
    assert_eq!(base64_decode(text).unwrap(), b"hello world~\nhello world~\nhello world~\n");
    for bad in ["Zg", "Zg=", "Zh==", "Z===", "Zm9v\n", "Zm_v", "=", "Zm9vYg==Zm9v", "\u{e9}A=="] {
        let e = base64_decode(bad).unwrap_err();
        assert_eq!(e.0, 400, "{bad}");
        assert!(e.1.starts_with("base64 decode: "), "{bad}");
    }
    assert_eq!(
        base64_decode("Zm!v"),
        Err(AppError(400, "base64 decode: Invalid symbol 33, offset 2.".to_string()))
    );
    assert_eq!(
        decoded(Err("no".to_string())),
        Err(AppError(400, "base64 decode: no".to_string()))
    );
}

#[test]
fn tables_are_queued_as_bytes() {
    let req = PutColumnarReq { table_id: "t".to_string(), ipc_base64: "AQID".to_string() };
    match columnar_write(req) {
        Ok(WriteReq::PutColumnar { table_id, ipc }) => {
            assert_eq!((table_id.as_str(), ipc), ("t", vec![1, 2, 3]));
        }
        _ => panic!("not queued"),
    }
    let req = PutColumnarReq { table_id: "t".to_string(), ipc_base64: "A".to_string() };
    assert!(columnar_write(req).is_err());
}
