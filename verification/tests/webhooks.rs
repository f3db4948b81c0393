use hmac::{Hmac, Mac};
use reqwest::Url;
use sha2::Sha256;
use soroscope::webhooks::{
    is_retryable, sign, signature_header, verify, ContractEvent, ContractSubscription, Delivery, DeliveryOutcome,
    DeliveryStep, SubscriptionRegistry, WebhookConfig, WebhookError, DELIVERY_HEADER,
    SIGNATURE_HEADER, TIMESTAMP_HEADER,
};
use std::time::Duration;

fn event(event_type: &str) -> ContractEvent {
    let mut payload = serde_json::Map::new();
    payload.insert("amount".to_string(), serde_json::Value::String("42".to_string()));
    let now = chrono::Utc::now();
    ContractEvent {
        id: 0,
        contract_id: "CABC".into(),
        event_type: event_type.into(),
        ledger: 123,
        payload: serde_json::Value::Object(payload),
        occurred_at_secs: now.timestamp(),
        occurred_at_nanos: now.timestamp_subsec_nanos(),
    }
}

fn subscription(contract_id: &str, event_types: Vec<String>, url: &str, secret: &str) -> Result<ContractSubscription, WebhookError> {
    ContractSubscription::new(
        contract_id.to_string(),
        event_types,
        Url::parse(url).unwrap().to_string(),
        secret.to_string(),
    )
}

#[test]
fn signature_round_trip_detects_tampering() {
    let secret = "a-secret-that-is-at-least-thirty-two-bytes";
    let body = br#"{"event":"transfer"}"#;
    let signature = format!("sha256={}", sign(secret, "1700000000", body));

    assert!(verify(secret, "1700000000", body, &signature));
    assert!(!verify(secret, "1700000001", body, &signature));
    assert!(!verify(secret, "1700000000", b"changed", &signature));
}

#[test]
fn registry_filters_by_contract_event_and_active_state() {
    let mut registry = SubscriptionRegistry::new();
    let transfer = subscription(
        "CABC",
        vec!["transfer".into()],
        "https://example.com/events",
        "a-secret-that-is-at-least-thirty-two-bytes",
    )
    .unwrap();
    let mut inactive = subscription(
        "CABC",
        Vec::new(),
        "https://example.com/all",
        "another-secret-that-is-at-least-32-bytes",
    )
    .unwrap();
    inactive.active = false;
    registry.insert(transfer.clone());
    registry.insert(inactive);

    assert_eq!(registry.matching(&event("transfer")), vec![transfer]);
    assert!(registry.matching(&event("mint")).is_empty());
}

#[test]
fn exponential_backoff_is_capped() {
    let config = WebhookConfig {
        retry_base: Duration::from_secs(2),
        retry_max: Duration::from_secs(10),
        ..WebhookConfig::default()
    };
    assert_eq!(config.retry_delay(1), Duration::from_secs(2));
    assert_eq!(config.retry_delay(2), Duration::from_secs(4));
    assert_eq!(config.retry_delay(3), Duration::from_secs(8));
    assert_eq!(config.retry_delay(4), Duration::from_secs(10));
}

#[test]
fn rejects_weak_subscription_configuration() {
    let result = subscription("", Vec::new(), "https://example.com", "short");
    assert!(matches!(result, Err(WebhookError::InvalidSubscription(_))));
}

#[test]
fn transient_failure_is_retried_with_a_valid_signature() {
    let secret = "a-secret-that-is-at-least-thirty-two-bytes";
    let subscription = subscription("CABC", Vec::new(), "http://127.0.0.1:8080/events", secret).unwrap();
    let config = WebhookConfig {
        max_attempts: 3,
        retry_base: Duration::from_millis(1),
        retry_max: Duration::from_millis(1),
        ..WebhookConfig::default()
    };
    let body = br#"{"event":"transfer"}"#;

    // The receiver answers 503 to the first request and 204 afterwards.
    let mut attempts = 0;
    let mut delivery = Delivery::new();
    let result = loop {
        let timestamp = format!("{}", 1_700_000_000 + attempts);
        let signature = format!("sha256={}", sign(&subscription.signing_secret, &timestamp, body));
        assert!(verify(secret, &timestamp, body, &signature));
        let status = if attempts == 0 { 503 } else { 204 };
        attempts += 1;
        let text = if status == 503 { "503 Service Unavailable" } else { "204 No Content" };
        let outcome = DeliveryOutcome::Response { status, status_text: text.to_string() };
        match delivery.record(&config, outcome) {
            DeliveryStep::Retry { delay } => assert_eq!(delay, Duration::from_millis(1)),
            DeliveryStep::Done(result) => break result,
        }
    };
    assert!(result.is_ok());
    assert_eq!(attempts, 2);
}

#[test]
fn header_names() {
    assert_eq!(SIGNATURE_HEADER, "x-soroscope-signature");
    assert_eq!(DELIVERY_HEADER, "x-soroscope-delivery");
    assert_eq!(TIMESTAMP_HEADER, "x-soroscope-timestamp");
}

#[test]
fn sign_is_hex_hmac_of_timestamp_dot_body() {
    let secret = "a-secret-that-is-at-least-thirty-two-bytes";
    let mut mac = Hmac::<Sha256>::new_from_slice(secret.as_bytes()).unwrap();
    mac.update(b"1700000000.payload");
    let expected = hex::encode(mac.finalize().into_bytes());
    let signature = sign(secret, "1700000000", b"payload");
    assert_eq!(signature, expected);
    assert_eq!(signature.len(), 64);
    assert!(signature.chars().all(|c| c.is_ascii_digit() || ('a'..='f').contains(&c)));
}

#[test]
fn verify_rejects_malformed_headers_and_accepts_uppercase_hex() {
    let secret = "a-secret-that-is-at-least-thirty-two-bytes";
    let signature = sign(secret, "1", b"x");
    assert!(!verify(secret, "1", b"x", &signature));
    assert!(!verify(secret, "1", b"x", &format!("sha512={signature}")));
    assert!(!verify(secret, "1", b"x", "sha256=zz"));
    assert!(!verify(secret, "1", b"x", "sha256=abc"));
    assert!(!verify(secret, "1", b"x", &format!("sha256={}", &signature[..62])));
    assert!(verify(secret, "1", b"x", &format!("sha256={}", signature.to_uppercase())));
    assert!(!verify("another-secret-that-is-at-least-32-bytes", "1", b"x", &format!("sha256={signature}")));
}

#[test]
fn subscription_validation_messages() {
    let secret = "a-secret-that-is-at-least-thirty-two-bytes";
    match subscription(" \t", Vec::new(), "https://example.com", secret) {
        Err(WebhookError::InvalidSubscription(m)) => assert_eq!(m, "contract_id cannot be empty"),
        other => panic!("unexpected {other:?}"),
    }
    match subscription("CABC", Vec::new(), "ftp://example.com", secret) {
        Err(WebhookError::InvalidSubscription(m)) => assert_eq!(m, "callback_url must use http or https"),
        other => panic!("unexpected {other:?}"),
    }
    match subscription("CABC", Vec::new(), "http://example.com", "0123456789012345678901234567890") {
        Err(WebhookError::InvalidSubscription(m)) => assert_eq!(m, "signing_secret must contain at least 32 bytes"),
        other => panic!("unexpected {other:?}"),
    }
    let ok = subscription("CABC", vec!["mint".into()], "http://example.com/x", "01234567890123456789012345678901").unwrap();
    assert!(ok.active);
    assert_eq!(ok.contract_id, "CABC");
    assert_eq!(ok.callback_url, "http://example.com/x");
    assert!(ok.matches(&event("mint")));
    assert!(!ok.matches(&event("transfer")));
}

#[test]
fn fresh_subscriptions_get_distinct_ids() {
    let secret = "a-secret-that-is-at-least-thirty-two-bytes";
    let a = subscription("CABC", Vec::new(), "https://example.com", secret).unwrap();
    let b = subscription("CABC", Vec::new(), "https://example.com", secret).unwrap();
    assert_ne!(a.id, b.id);
}

#[test]
fn registry_insert_and_remove() {
    let secret = "a-secret-that-is-at-least-thirty-two-bytes";
    let mut registry = SubscriptionRegistry::new();
    let s = subscription("CABC", Vec::new(), "https://example.com", secret).unwrap();
    let id = registry.insert(s.clone());
    assert_eq!(id, s.id);
    assert_eq!(registry.matching(&event("anything")).len(), 1);
    assert_eq!(registry.remove(id), Some(s));
    assert_eq!(registry.remove(id), None);
    assert!(registry.matching(&event("anything")).is_empty());
}

#[test]
fn retryable_statuses() {
    assert!(is_retryable(500));
    assert!(is_retryable(503));
    assert!(is_retryable(599));
    assert!(is_retryable(408));
    assert!(is_retryable(429));
    assert!(!is_retryable(404));
    assert!(!is_retryable(400));
    assert!(!is_retryable(600));
}

#[test]
fn non_retryable_status_stops_after_one_attempt() {
    let config = WebhookConfig::default();
    let mut delivery = Delivery::new();
    let step = delivery.record(
        &config,
        DeliveryOutcome::Response { status: 404, status_text: "404 Not Found".to_string() },
    );
    match step {
        DeliveryStep::Done(Err(WebhookError::DeliveryFailed { attempts, reason })) => {
            assert_eq!(attempts, 1);
            assert_eq!(reason, "HTTP 404 Not Found");
        }
        _ => panic!("expected a failed delivery"),
    }
}

#[test]
fn transport_errors_exhaust_the_attempts() {
    let config = WebhookConfig {
        max_attempts: 3,
        retry_base: Duration::from_secs(1),
        retry_max: Duration::from_secs(60),
        ..WebhookConfig::default()
    };
    let mut delivery = Delivery::new();
    let mut delays = Vec::new();
    let result = loop {
        assert!(delivery.attempt() <= 3);
        match delivery.record(&config, DeliveryOutcome::TransportError("connection refused".to_string())) {
            DeliveryStep::Retry { delay } => delays.push(delay),
            DeliveryStep::Done(result) => break result,
        }
    };
    assert_eq!(delays, vec![Duration::from_secs(1), Duration::from_secs(2)]);
    match result {
        Err(WebhookError::DeliveryFailed { attempts, reason }) => {
            assert_eq!(attempts, 3);
            assert_eq!(reason, "connection refused");
        }
        _ => panic!("expected a failed delivery"),
    }
}

#[test]
fn zero_max_attempts_still_sends_once() {
    let config = WebhookConfig { max_attempts: 0, ..WebhookConfig::default() };
    let mut delivery = Delivery::new();
    assert_eq!(delivery.attempt(), 1);
    match delivery.record(&config, DeliveryOutcome::Response { status: 503, status_text: "503 Service Unavailable".to_string() }) {
        DeliveryStep::Done(Err(WebhookError::DeliveryFailed { attempts, reason })) => {
            assert_eq!(attempts, 1);
            assert_eq!(reason, "HTTP 503 Service Unavailable");
        }
        _ => panic!("expected a failed delivery"),
    }
}

#[test]
fn default_config_values() {
    let config = WebhookConfig::default();
    assert_eq!(config.queue_capacity, 1024);
    assert_eq!(config.request_timeout, Duration::from_secs(10));
    assert_eq!(config.max_attempts, 5);
    assert_eq!(config.retry_base, Duration::from_secs(1));
    assert_eq!(config.retry_max, Duration::from_secs(60));
    // 1 s doubled per attempt: 1, 2, 4, 8, 16, 32, then capped at 60.
    assert_eq!(config.retry_delay(0), Duration::from_secs(1));
    assert_eq!(config.retry_delay(6), Duration::from_secs(32));
    assert_eq!(config.retry_delay(7), Duration::from_secs(60));
}

#[test]
fn backoff_saturates_like_duration() {
    let config = WebhookConfig {
        retry_base: Duration::MAX,
        retry_max: Duration::MAX,
        ..WebhookConfig::default()
    };
    assert_eq!(config.retry_delay(40), Duration::MAX);
    let fractional = WebhookConfig {
        retry_base: Duration::from_nanos(1_500_000_001),
        retry_max: Duration::from_secs(100),
        ..WebhookConfig::default()
    };
    assert_eq!(fractional.retry_delay(2), Duration::from_nanos(3_000_000_002));
}

#[test]
fn retryable_statuses_exhaust_the_attempts() {
    let config = WebhookConfig {
        max_attempts: 2,
        retry_base: Duration::from_millis(1),
        retry_max: Duration::from_millis(1),
        ..WebhookConfig::default()
    };
    let mut delivery = Delivery::new();
    let unavailable = || DeliveryOutcome::Response { status: 503, status_text: "503 Service Unavailable".to_string() };
    assert!(matches!(delivery.record(&config, unavailable()), DeliveryStep::Retry { .. }));
    assert_eq!(delivery.attempt(), 2);
    match delivery.record(&config, unavailable()) {
        DeliveryStep::Done(Err(WebhookError::DeliveryFailed { attempts, reason })) => {
            assert_eq!(attempts, 2);
            assert_eq!(reason, "HTTP 503 Service Unavailable");
        }
        _ => panic!("expected a failed delivery"),
    }
}

#[test]
fn signature_header_is_accepted_by_verify() {
    let secret = "a-secret-that-is-at-least-thirty-two-bytes";
    let header = signature_header(secret, "1700000000", b"body");
    assert_eq!(header, format!("sha256={}", sign(secret, "1700000000", b"body")));
    assert!(verify(secret, "1700000000", b"body", &header));
    assert!(!verify(secret, "1700000000", b"body", &sign(secret, "1700000000", b"body")));
}

#[test]
fn unicode_white_space_counts_as_blank() {
    let secret = "a-secret-that-is-at-least-thirty-two-bytes";
    assert!(subscription("\u{3000}\u{2009}\u{85}", Vec::new(), "https://example.com", secret).is_err());
    assert!(subscription("\u{200B}", Vec::new(), "https://example.com", secret).is_ok());
}

#[test]
fn first_retry_waits_the_capped_base() {
    let config = WebhookConfig {
        retry_base: Duration::new(3, 500),
        retry_max: Duration::from_secs(60),
        ..WebhookConfig::default()
    };
    assert_eq!(config.retry_delay(0), Duration::new(3, 500));
    assert_eq!(config.retry_delay(1), Duration::new(3, 500));
    let capped = WebhookConfig { retry_max: Duration::from_secs(2), ..config };
    assert_eq!(capped.retry_delay(0), Duration::from_secs(2));
    assert_eq!(capped.retry_delay(1), Duration::from_secs(2));
}
