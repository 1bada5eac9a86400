//! End-to-end tests of the rate-limit service façade.

use limitador::engine::RateLimiter;
use limitador::expr::{Condition, Descriptor, Entry, Selector};
use limitador::limit::Limit;
use limitador::service::{MyRateLimiter, OverallCode, RateLimitHeaders, RateLimitRequest};

const NOW: u64 = 1_000_000;

fn entry(key: &str, value: &str) -> Entry {
    Entry { key: key.to_string(), value: value.to_string() }
}

fn descriptor(entries: Vec<Entry>) -> Descriptor {
    Descriptor { entries }
}

fn cond(s: &str) -> Condition {
    Condition::parse(s).expect("failed parsing!")
}

fn var(s: &str) -> Selector {
    Selector::parse(s).expect("failed parsing!")
}

fn headers_of(resp: &limitador::service::RateLimitResponse) -> Vec<(String, String)> {
    resp.response_headers_to_add
        .iter()
        .map(|h| (h.key.clone(), h.value.clone()))
        .collect()
}

#[test]
fn test_returns_ok_and_overlimit_correctly() {
    let namespace = "test_namespace";
    let limit = Limit::new(
        namespace.to_string(),
        1,
        60,
        vec![cond("descriptors[0]['req.method'] == 'GET'")],
        vec![var("descriptors[0]['app.id']")],
    );

    let mut limiter = RateLimiter::new();
    limiter.add_limit(limit);

    let mut rate_limiter = MyRateLimiter::new(limiter, RateLimitHeaders::DraftVersion03);

    let req = || RateLimitRequest {
        domain: namespace.to_string(),
        descriptors: vec![descriptor(vec![
            entry("req.method", "GET"),
            entry("app.id", "1"),
        ])],
        hits_addend: 1,
    };

    // There's a limit of 1, so the first request should return "OK" and the
    // second "OverLimit".
    let response = rate_limiter.should_rate_limit(req(), NOW);
    assert_eq!(response.overall_code, OverallCode::Allowed);
    assert_eq!(
        headers_of(&response),
        vec![
            ("X-RateLimit-Limit".to_string(), "1, 1;w=60".to_string()),
            ("X-RateLimit-Remaining".to_string(), "0".to_string()),
        ],
    );

    let response = rate_limiter.should_rate_limit(req(), NOW);
    assert_eq!(response.overall_code, OverallCode::OverLimit);
    assert_eq!(
        headers_of(&response),
        vec![
            ("X-RateLimit-Limit".to_string(), "1, 1;w=60".to_string()),
            ("X-RateLimit-Remaining".to_string(), "0".to_string()),
        ],
    );
}

#[test]
fn test_returns_ok_when_no_limits_apply() {
    // No limits saved.
    let mut rate_limiter =
        MyRateLimiter::new(RateLimiter::new(), RateLimitHeaders::DraftVersion03);

    let req = RateLimitRequest {
        domain: "test_namespace".to_string(),
        descriptors: vec![descriptor(vec![entry("req.method", "GET")])],
        hits_addend: 1,
    };

    let response = rate_limiter.should_rate_limit(req, NOW);
    assert_eq!(response.overall_code, OverallCode::Allowed);
    assert!(response.response_headers_to_add.is_empty());
}

#[test]
fn test_returns_unknown_when_domain_is_empty() {
    let mut rate_limiter =
        MyRateLimiter::new(RateLimiter::new(), RateLimitHeaders::DraftVersion03);

    let req = RateLimitRequest {
        domain: "".to_string(),
        descriptors: vec![descriptor(vec![entry("req.method", "GET")])],
        hits_addend: 1,
    };

    let response = rate_limiter.should_rate_limit(req, NOW);
    assert_eq!(response.overall_code, OverallCode::Unknown);
    assert!(response.response_headers_to_add.is_empty());
}

#[test]
fn test_takes_into_account_all_the_descriptors() {
    let mut limiter = RateLimiter::new();
    let namespace = "test_namespace";

    limiter.add_limit(Limit::new(
        namespace.to_string(),
        10,
        60,
        vec![cond("descriptors[0].x == '1'")],
        vec![var("descriptors[0].z")],
    ));
    limiter.add_limit(Limit::new(
        namespace.to_string(),
        0,
        60,
        vec![
            cond("descriptors[0].x == '1'"),
            cond("descriptors[1].y == '2'"),
        ],
        vec![var("descriptors[0].z")],
    ));

    let mut rate_limiter = MyRateLimiter::new(limiter, RateLimitHeaders::DraftVersion03);

    let req = RateLimitRequest {
        domain: namespace.to_string(),
        descriptors: vec![
            descriptor(vec![entry("x", "1"), entry("z", "1")]),
            // If this is taken into account, the result will be "overlimit"
            // because of the second limit that has a max of 0.
            descriptor(vec![entry("y", "2")]),
        ],
        hits_addend: 1,
    };

    let response = rate_limiter.should_rate_limit(req, NOW);
    assert_eq!(response.overall_code, OverallCode::OverLimit);
    assert_eq!(
        headers_of(&response),
        vec![
            ("X-RateLimit-Limit".to_string(), "0, 0;w=60, 10;w=60".to_string()),
            ("X-RateLimit-Remaining".to_string(), "0".to_string()),
        ],
    );
}

#[test]
fn test_takes_into_account_the_hits_addend_param() {
    let namespace = "test_namespace";
    let limit = Limit::new(
        namespace.to_string(),
        10,
        60,
        vec![cond("descriptors[0].x == '1'")],
        vec![var("descriptors[0].y")],
    );

    let mut limiter = RateLimiter::new();
    limiter.add_limit(limit);

    let mut rate_limiter = MyRateLimiter::new(limiter, RateLimitHeaders::DraftVersion03);

    let req = || RateLimitRequest {
        domain: namespace.to_string(),
        descriptors: vec![descriptor(vec![entry("x", "1"), entry("y", "1")])],
        hits_addend: 6,
    };

    // There's a limit of 10, "hits_addend" is 6, so the first request
    // should return "Ok" and the second "OverLimit".
    let response = rate_limiter.should_rate_limit(req(), NOW);
    assert_eq!(response.overall_code, OverallCode::Allowed);
    assert_eq!(
        headers_of(&response),
        vec![
            ("X-RateLimit-Limit".to_string(), "10, 10;w=60".to_string()),
            ("X-RateLimit-Remaining".to_string(), "4".to_string()),
        ],
    );

    let response = rate_limiter.should_rate_limit(req(), NOW);
    assert_eq!(response.overall_code, OverallCode::OverLimit);
    assert_eq!(
        headers_of(&response),
        vec![
            ("X-RateLimit-Limit".to_string(), "10, 10;w=60".to_string()),
            ("X-RateLimit-Remaining".to_string(), "0".to_string()),
        ],
    );
}

#[test]
fn test_0_hits_addend_is_converted_to_1() {
    // "hits_addend" is optional according to the protocol, and should
    // default to 1, but the on-wire default of the field is 0.
    let namespace = "test_namespace";
    let limit = Limit::new(
        namespace.to_string(),
        1,
        60,
        vec![cond("descriptors[0].x == '1'")],
        vec![var("descriptors[0].y")],
    );

    let mut limiter = RateLimiter::new();
    limiter.add_limit(limit);

    let mut rate_limiter = MyRateLimiter::new(limiter, RateLimitHeaders::DraftVersion03);

    let req = || RateLimitRequest {
        domain: namespace.to_string(),
        descriptors: vec![descriptor(vec![entry("x", "1"), entry("y", "2")])],
        hits_addend: 0,
    };

    // There's a limit of 1, and hits_addend is converted to 1, so the first
    // request should return "OK" and the second "OverLimit".
    let response = rate_limiter.should_rate_limit(req(), NOW);
    assert_eq!(response.overall_code, OverallCode::Allowed);
    assert_eq!(
        headers_of(&response),
        vec![
            ("X-RateLimit-Limit".to_string(), "1, 1;w=60".to_string()),
            ("X-RateLimit-Remaining".to_string(), "0".to_string()),
        ],
    );

    let response = rate_limiter.should_rate_limit(req(), NOW);
    assert_eq!(response.overall_code, OverallCode::OverLimit);
    assert_eq!(
        headers_of(&response),
        vec![
            ("X-RateLimit-Limit".to_string(), "1, 1;w=60".to_string()),
            ("X-RateLimit-Remaining".to_string(), "0".to_string()),
        ],
    );
}
