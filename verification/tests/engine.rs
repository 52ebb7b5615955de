use pkg_resolve::async_fns::{
    judge, AsyncState, CompletedTransfer, EnqueueError, VerificationResult, DEFAULT_SERVER,
};
use pkg_resolve::packages::{PackageRecord, Packages};
use pkg_resolve::version::Version;

fn engine() -> Packages {
    let records = vec![
        PackageRecord {
            name: "hello".to_string(),
            installed: Some(Version::new("1.0", 10)),
            available: Some(Version::new("2:1.0+b 1", 11)),
            md5sum: Some("abc".to_string()),
            dependencies: vec![],
        },
        PackageRecord {
            name: "plain".to_string(),
            installed: None,
            available: Some(Version::new("0.9~rc1", 9)),
            md5sum: None,
            dependencies: vec![],
        },
        PackageRecord {
            name: "ghost".to_string(),
            installed: None,
            available: None,
            md5sum: None,
            dependencies: vec![],
        },
    ];
    Packages::from_records(records).expect("records form a database")
}

fn done(key: u64, status: u32, body: &str) -> CompletedTransfer {
    CompletedTransfer { key, status, body: body.to_string() }
}

#[test]
fn new_state_is_fresh() {
    let state = AsyncState::new();
    assert_eq!(state.server, DEFAULT_SERVER);
    assert_eq!(state.server, "ece459.patricklam.ca:4590");
    assert_eq!(state.next_key, 0);
    assert!(state.pending.is_empty());
}

#[test]
fn request_address_is_built_from_server_package_and_encoded_version() {
    let mut p = engine();
    let t = p.enq_verify_with_version("hello", "1.0").unwrap();
    assert_eq!(t.key, 0);
    assert_eq!(t.url, "http://ece459.patricklam.ca:4590/rest/v1/checksums/hello/1.0");
    let t = p.enq_verify_with_version("hello", "2:1.0+b 1").unwrap();
    assert_eq!(t.key, 1);
    assert_eq!(
        t.url,
        "http://ece459.patricklam.ca:4590/rest/v1/checksums/hello/2%3A1.0%2Bb%201"
    );
}

#[test]
fn version_is_percent_encoded_byte_by_byte() {
    let mut p = engine();
    p.set_server("h");
    let t = p.enq_verify_with_version("p", "aZ09-._~").unwrap();
    assert_eq!(t.url, "http://h/rest/v1/checksums/p/aZ09-._~");
    let t = p.enq_verify_with_version("p", "a/b\u{e9}").unwrap();
    assert_eq!(t.url, "http://h/rest/v1/checksums/p/a%2Fb%C3%A9");
    let t = p.enq_verify_with_version("p", "").unwrap();
    assert_eq!(t.url, "http://h/rest/v1/checksums/p/");
}

#[test]
fn set_server_changes_later_requests_only() {
    let mut p = engine();
    let first = p.enq_verify_with_version("hello", "1").unwrap();
    p.set_server("localhost:4590");
    let second = p.enq_verify_with_version("hello", "1").unwrap();
    assert_eq!(first.url, "http://ece459.patricklam.ca:4590/rest/v1/checksums/hello/1");
    assert_eq!(second.url, "http://localhost:4590/rest/v1/checksums/hello/1");
    assert_eq!(p.async_state.server, "localhost:4590");
    assert_eq!(p.async_state.pending.len(), 2);
    assert_eq!(p.async_state.next_key, 2);
}

#[test]
fn enqueue_records_the_request_with_the_local_checksum() {
    let mut p = engine();
    p.enq_verify_with_version("hello", "1.0").unwrap();
    p.enq_verify_with_version("plain", "0.9").unwrap();
    p.enq_verify_with_version("nowhere", "3").unwrap();
    let pending = &p.async_state.pending;
    assert_eq!(pending.len(), 3);
    assert_eq!(pending[&0].pkg_name, "hello");
    assert_eq!(pending[&0].version, "1.0");
    assert_eq!(pending[&0].local_md5, Some("abc".to_string()));
    assert_eq!(pending[&1].pkg_name, "plain");
    assert_eq!(pending[&1].local_md5, None);
    assert_eq!(pending[&2].pkg_name, "nowhere");
    assert_eq!(pending[&2].local_md5, None);
    assert!(!pending.contains_key(&3));
}

#[test]
fn enq_verify_uses_the_available_version() {
    let mut p = engine();
    let t = p.enq_verify("plain").unwrap();
    assert_eq!(t.url, "http://ece459.patricklam.ca:4590/rest/v1/checksums/plain/0.9~rc1");
    assert_eq!(p.async_state.pending[&0].version, "0.9~rc1");
    let t = p.enq_verify("hello").unwrap();
    assert_eq!(
        t.url,
        "http://ece459.patricklam.ca:4590/rest/v1/checksums/hello/2%3A1.0%2Bb%201"
    );
}

#[test]
fn enq_verify_of_an_unknown_package_queues_nothing() {
    let mut p = engine();
    assert_eq!(p.enq_verify("nowhere").unwrap_err(), EnqueueError::UnknownPackage);
    assert_eq!(p.enq_verify("ghost").unwrap_err(), EnqueueError::UnknownPackage);
    assert!(p.async_state.pending.is_empty());
    assert_eq!(p.async_state.next_key, 0);
}

#[test]
fn enqueue_fails_when_keys_are_exhausted() {
    let mut p = engine();
    p.async_state.next_key = u64::MAX - 1;
    assert_eq!(p.enq_verify_with_version("hello", "1").unwrap().key, u64::MAX - 1);
    assert_eq!(
        p.enq_verify_with_version("hello", "1").unwrap_err(),
        EnqueueError::KeysExhausted
    );
    assert_eq!(p.enq_verify("hello").unwrap_err(), EnqueueError::KeysExhausted);
    assert_eq!(p.async_state.pending.len(), 1);
    assert_eq!(p.async_state.next_key, u64::MAX);
}

#[test]
fn matching_checksum_is_reported_as_a_match() {
    let mut p = engine();
    let t = p.enq_verify_with_version("hello", "1.0").unwrap();
    let out = p.execute(&vec![done(t.key, 200, " abc\n")]);
    assert_eq!(out.len(), 1);
    assert_eq!(out[0].pkg_name, "hello");
    assert_eq!(out[0].version, "1.0");
    assert_eq!(out[0].result, VerificationResult::Matched(true));
    assert!(p.async_state.pending.is_empty());
}

#[test]
fn other_checksum_is_reported_as_a_mismatch() {
    let mut p = engine();
    let t = p.enq_verify_with_version("hello", "1.0").unwrap();
    let out = p.execute(&vec![done(t.key, 200, "xyz")]);
    assert_eq!(out.len(), 1);
    assert_eq!(out[0].result, VerificationResult::Matched(false));
}

#[test]
fn error_status_is_reported_with_its_code() {
    let mut p = engine();
    let t = p.enq_verify_with_version("hello", "1.0").unwrap();
    let out = p.execute(&vec![done(t.key, 404, "not found")]);
    assert_eq!(out.len(), 1);
    assert_eq!(out[0].pkg_name, "hello");
    assert_eq!(out[0].version, "1.0");
    assert_eq!(out[0].result, VerificationResult::RequestFailed(404));
}

#[test]
fn two_requests_give_two_outcomes_in_either_order() {
    let mut p = engine();
    let a = p.enq_verify_with_version("hello", "1.0").unwrap();
    let b = p.enq_verify_with_version("plain", "0.9").unwrap();
    let out = p.execute(&vec![done(b.key, 500, ""), done(a.key, 200, "abc")]);
    assert_eq!(out.len(), 2);
    assert_eq!(out[0].pkg_name, "plain");
    assert_eq!(out[0].result, VerificationResult::RequestFailed(500));
    assert_eq!(out[1].pkg_name, "hello");
    assert_eq!(out[1].result, VerificationResult::Matched(true));
    assert!(p.async_state.pending.is_empty());

    let a = p.enq_verify_with_version("hello", "1.0").unwrap();
    let b = p.enq_verify_with_version("plain", "0.9").unwrap();
    assert_eq!((a.key, b.key), (2, 3));
    let out = p.execute(&vec![done(a.key, 200, "abc"), done(b.key, 500, "")]);
    assert_eq!(out.len(), 2);
    assert_eq!(out[0].pkg_name, "hello");
    assert_eq!(out[1].pkg_name, "plain");
}

#[test]
fn one_pending_request_gives_one_outcome_when_flushed() {
    let mut p = engine();
    let t = p.enq_verify("hello").unwrap();
    assert_eq!(p.async_state.pending.len(), 1);
    let out = p.execute(&vec![done(t.key, 200, "abc")]);
    assert_eq!(out.len(), 1);
    assert!(p.async_state.pending.is_empty());
}

#[test]
fn a_key_is_consumed_once() {
    let mut p = engine();
    let t = p.enq_verify_with_version("hello", "1.0").unwrap();
    let out = p.execute(&vec![done(t.key, 200, "abc"), done(t.key, 200, "abc")]);
    assert_eq!(out.len(), 1);
    assert!(p.execute(&vec![done(t.key, 404, "")]).is_empty());
    assert!(p.execute(&vec![done(77, 200, "abc")]).is_empty());
}

#[test]
fn other_statuses_are_not_reported() {
    let mut p = engine();
    let a = p.enq_verify_with_version("hello", "1.0").unwrap();
    let b = p.enq_verify_with_version("hello", "1.1").unwrap();
    let c = p.enq_verify_with_version("hello", "1.2").unwrap();
    let out = p.execute(&vec![done(a.key, 302, "abc"), done(c.key, 399, ""), done(b.key, 400, "")]);
    assert_eq!(out.len(), 1);
    assert_eq!(out[0].version, "1.1");
    assert_eq!(out[0].result, VerificationResult::RequestFailed(400));
    assert!(p.async_state.pending.is_empty());
}

#[test]
fn requests_without_an_answer_stay_pending() {
    let mut p = engine();
    let a = p.enq_verify_with_version("hello", "1.0").unwrap();
    let b = p.enq_verify_with_version("plain", "0.9").unwrap();
    let out = p.execute(&vec![done(a.key, 200, "abc")]);
    assert_eq!(out.len(), 1);
    assert_eq!(p.async_state.pending.len(), 1);
    assert!(p.async_state.pending.contains_key(&b.key));
    assert!(!p.async_state.pending.contains_key(&a.key));
    let out = p.async_state.complete(&done(b.key, 200, "   "));
    assert_eq!(out.map(|o| o.result), Some(VerificationResult::Matched(true)));
}

#[test]
fn judge_trims_the_body_before_comparing() {
    let abc = Some("abc".to_string());
    assert_eq!(judge(&abc, 200, "\t abc \r\n"), Some(VerificationResult::Matched(true)));
    assert_eq!(judge(&abc, 200, "a bc"), Some(VerificationResult::Matched(false)));
    assert_eq!(judge(&abc, 200, "\u{a0}abc\u{2003}"), Some(VerificationResult::Matched(true)));
    assert_eq!(judge(&abc, 200, "ABC"), Some(VerificationResult::Matched(false)));
    assert_eq!(judge(&None, 200, " \n"), Some(VerificationResult::Matched(true)));
    assert_eq!(judge(&None, 200, "abc"), Some(VerificationResult::Matched(false)));
    assert_eq!(judge(&abc, 599, "abc"), Some(VerificationResult::RequestFailed(599)));
    assert_eq!(judge(&abc, 600, "abc"), Some(VerificationResult::RequestFailed(600)));
    assert_eq!(judge(&abc, 201, "abc"), None);
    assert_eq!(judge(&abc, 100, "abc"), None);
    assert_eq!(judge(&abc, 0, "abc"), None);
}
