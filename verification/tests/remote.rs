use oracle::model::{HttpMethod, RemoteCheck, RemoteTarget};
use oracle::remote::{classify, describe, is_healthy, FailureKind, RemoteStatus};

#[test]
fn any_success_or_redirect_counts_as_healthy_by_default() {
    assert!(is_healthy(200, &[]));
    assert!(is_healthy(204, &[]));
    assert!(is_healthy(301, &[]));
    assert!(is_healthy(399, &[]));
}

#[test]
fn errors_are_not_healthy_by_default() {
    assert!(!is_healthy(404, &[]));
    assert!(!is_healthy(500, &[]));
    assert!(!is_healthy(502, &[]));
}

#[test]
fn an_explicit_expectation_overrides_the_default() {
    // A project whose health endpoint legitimately answers 418.
    assert!(is_healthy(418, &[418]));
    // And which should therefore treat a plain 200 as wrong.
    assert!(!is_healthy(200, &[418]));
}

fn target(expect: Vec<u16>) -> RemoteTarget {
    RemoteTarget {
        url: "https://example.com".to_string(),
        check: RemoteCheck::Http { method: HttpMethod::Get, expect_status: expect },
        interval_secs: 30,
    }
}

#[test]
fn a_response_is_classified_against_the_expectation() {
    match classify(&target(vec![]), Ok((12, 200))) {
        RemoteStatus::Up { ms, code } => {
            assert_eq!(ms, 12);
            assert_eq!(code, 200);
        }
        _ => panic!("a 200 is up"),
    }
    match classify(&target(vec![]), Ok((30, 503))) {
        RemoteStatus::Degraded { ms, code } => {
            assert_eq!(ms, 30);
            assert_eq!(code, 503);
        }
        _ => panic!("a 503 is degraded"),
    }
    match classify(&target(vec![418]), Ok((5, 200))) {
        RemoteStatus::Degraded { .. } => {}
        _ => panic!("an unexpected 200 is degraded"),
    }
    match classify(&target(vec![]), Err(FailureKind::Timeout)) {
        RemoteStatus::Down { reason } => assert_eq!(reason, describe(FailureKind::Timeout)),
        _ => panic!("a timeout is down"),
    }
}

#[test]
fn only_an_answer_has_a_latency() {
    assert_eq!(RemoteStatus::Up { ms: 9, code: 200 }.latency_ms(), Some(9));
    assert_eq!(RemoteStatus::Degraded { ms: 4, code: 500 }.latency_ms(), Some(4));
    assert_eq!(RemoteStatus::Down { reason: "x".to_string() }.latency_ms(), None);
    assert_eq!(RemoteStatus::Unchecked.latency_ms(), None);
}
