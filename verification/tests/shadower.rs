use std::time::Duration;

use request_shadow::{
    DivergenceLog, IgnoreField, ResponseRecord, ShadowConfig, ShadowError, ShadowLeg,
    ShadowOutcome,
};

/// How a scripted shadow backend answers.
enum Script {
    Answer(ResponseRecord),
    Fail(String),
    TooSlow,
}

/// Drives one call the way the async shadower does: sample, run the legs,
/// settle. `shadow_calls` counts how often the shadow leg was started.
fn drive(
    cfg: &ShadowConfig,
    log: &mut DivergenceLog,
    input: &[u8],
    primary: &ResponseRecord,
    shadow: &Script,
    shadow_calls: &mut u32,
) -> ShadowOutcome {
    if !cfg.should_shadow(input) {
        return ShadowOutcome::skipped(primary.clone());
    }
    *shadow_calls += 1;
    let leg = match shadow {
        Script::Answer(r) => ShadowLeg::Returned(r.clone()),
        Script::Fail(msg) => ShadowLeg::Failed(ShadowError::Backend(msg.clone())),
        Script::TooSlow => ShadowLeg::TimedOut,
    };
    let outcome = ShadowOutcome::settle(cfg, Ok(primary.clone()), leg).unwrap();
    outcome.record(input, log);
    outcome
}

fn once(cfg: ShadowConfig, input: &[u8], primary: ResponseRecord, shadow: Script) -> ShadowOutcome {
    let mut log = DivergenceLog::default();
    let mut calls = 0;
    drive(&cfg, &mut log, input, &primary, &shadow, &mut calls)
}

#[test]
fn identical_responses_have_no_divergence() {
    let outcome = once(
        ShadowConfig::full_sample(),
        b"req-1",
        ResponseRecord::ok(b"hello".to_vec()),
        Script::Answer(ResponseRecord::ok(b"hello".to_vec())),
    );
    assert!(outcome.primary.ok);
    assert!(outcome.divergence.is_none());
    assert!(outcome.shadow.is_some());
    assert!(!outcome.skipped_by_sampler);
}

#[test]
fn body_difference_is_flagged_with_prefix_length() {
    let outcome = once(
        ShadowConfig::full_sample(),
        b"req-2",
        ResponseRecord::ok(b"hello world".to_vec()),
        Script::Answer(ResponseRecord::ok(b"hello earth".to_vec())),
    );
    let div = outcome.divergence.expect("body differs");
    let body = div.body.expect("body diff present");
    assert_eq!(body.primary_len, 11);
    assert_eq!(body.shadow_len, 11);
    // "hello " is the shared prefix.
    assert_eq!(body.prefix_equal_bytes, 6);
}

#[test]
fn status_difference_is_flagged() {
    let outcome = once(
        ShadowConfig::full_sample(),
        b"req-3",
        ResponseRecord::ok(b"x".to_vec()),
        Script::Answer(ResponseRecord::err(500, b"x".to_vec())),
    );
    let div = outcome.divergence.unwrap();
    assert_eq!(div.status, Some((200, 500)));
}

#[test]
fn header_difference_is_flagged() {
    let outcome = once(
        ShadowConfig::full_sample(),
        b"req-4",
        ResponseRecord::ok(b"x".to_vec()).with_header("x-server", "old"),
        Script::Answer(
            ResponseRecord::ok(b"x".to_vec())
                .with_header("x-server", "new")
                .with_header("x-extra", "yes"),
        ),
    );
    let headers = outcome.divergence.unwrap().headers.unwrap();
    assert!(headers.changed.contains(&"x-server".to_string()));
    assert!(headers.added.contains(&"x-extra".to_string()));
}

#[test]
fn ignore_body_silences_body_diff() {
    let cfg = ShadowConfig::full_sample().ignore(IgnoreField::Body);
    let outcome = once(
        cfg,
        b"req-5",
        ResponseRecord::ok(b"a".to_vec()),
        Script::Answer(ResponseRecord::ok(b"b".to_vec())),
    );
    assert!(outcome.divergence.is_none());
}

#[test]
fn sampling_at_zero_never_mirrors() {
    let cfg = ShadowConfig::full_sample().sample_rate(0);
    let mut log = DivergenceLog::default();
    let mut calls = 0;
    let primary = ResponseRecord::ok(b"x".to_vec());
    let shadow = Script::Answer(ResponseRecord::ok(b"x".to_vec()));
    for i in 0..50 {
        let outcome = drive(&cfg, &mut log, format!("req-{i}").as_bytes(), &primary, &shadow, &mut calls);
        assert!(outcome.skipped_by_sampler);
        assert!(outcome.shadow.is_none());
    }
    assert_eq!(calls, 0);
}

#[test]
fn sampling_is_sticky_by_key() {
    let cfg = ShadowConfig::full_sample().sample_rate(50);
    // Same key always lands in the same bucket.
    let first = cfg.should_shadow(b"my-key");
    for _ in 0..50 {
        assert_eq!(cfg.should_shadow(b"my-key"), first);
    }
}

#[test]
fn shadow_timeout_doesnt_block_primary_and_marks_failure() {
    let cfg = ShadowConfig::full_sample().shadow_timeout(Duration::from_millis(50));
    assert_eq!(cfg.shadow_timeout, Duration::from_millis(50));
    let outcome = once(cfg, b"req", ResponseRecord::ok(b"prod".to_vec()), Script::TooSlow);
    assert!(outcome.primary.ok);
    assert!(outcome.shadow.is_none());
    assert_eq!(outcome.shadow_failed.as_deref(), Some("timeout"));
    // Body / status / headers all None because shadow didn't return.
    assert!(outcome.divergence.is_none());
}

#[test]
fn shadow_backend_error_marks_failure_without_breaking_primary() {
    let outcome = once(
        ShadowConfig::full_sample(),
        b"req",
        ResponseRecord::ok(b"prod".to_vec()),
        Script::Fail("downstream 5xx".to_string()),
    );
    assert!(outcome.primary.ok);
    assert!(outcome.shadow.is_none());
    assert!(outcome.shadow_failed.is_some());
    assert_eq!(outcome.shadow_failed.as_deref(), Some("backend failure: downstream 5xx"));
}

#[test]
fn divergence_log_records_recent_entries() {
    let cfg = ShadowConfig::full_sample();
    let mut log = DivergenceLog::default();
    let mut calls = 0;
    let primary = ResponseRecord::ok(b"a".to_vec());
    let shadow = Script::Answer(ResponseRecord::ok(b"b".to_vec()));
    for i in 0..5 {
        drive(&cfg, &mut log, format!("req-{i}").as_bytes(), &primary, &shadow, &mut calls);
    }
    assert_eq!(log.len(), 5);
    let snap = log.snapshot();
    assert_eq!(snap.len(), 5);
    assert_eq!(snap[0].key, b"req-0".to_vec());
    assert_eq!(snap[4].key, b"req-4".to_vec());
}

#[test]
fn primary_error_is_the_call_error_and_logs_nothing() {
    let cfg = ShadowConfig::full_sample();
    let log = DivergenceLog::new(4);
    let r = ShadowOutcome::settle(
        &cfg,
        Err(ShadowError::Backend("boom".to_string())),
        ShadowLeg::Returned(ResponseRecord::ok(b"z".to_vec())),
    );
    assert_eq!(r.unwrap_err(), ShadowError::Backend("boom".to_string()));
    assert!(log.is_empty());
}

#[test]
fn skipped_outcome_keeps_primary_only() {
    let o = ShadowOutcome::skipped(ResponseRecord::err(503, b"busy".to_vec()));
    assert!(o.skipped_by_sampler);
    assert_eq!(o.primary.status, 503);
    assert!(!o.primary.ok);
    assert!(o.shadow.is_none() && o.divergence.is_none() && o.shadow_failed.is_none());
}

#[test]
fn timed_out_error_message() {
    assert_eq!(ShadowError::ShadowTimeout.message(), "shadow leg timed out");
    assert_eq!(ShadowError::Backend("x".to_string()).message(), "backend failure: x");
}

#[test]
fn record_pushes_only_divergent_outcomes() {
    let cfg = ShadowConfig::full_sample();
    let mut log = DivergenceLog::new(4);
    let same = ShadowOutcome::settle(
        &cfg,
        Ok(ResponseRecord::ok(b"a".to_vec())),
        ShadowLeg::Returned(ResponseRecord::ok(b"a".to_vec())),
    )
    .unwrap();
    same.record(b"k1", &mut log);
    assert!(log.is_empty());
    let differs = ShadowOutcome::settle(
        &cfg,
        Ok(ResponseRecord::ok(b"a".to_vec())),
        ShadowLeg::Returned(ResponseRecord::ok(b"b".to_vec())),
    )
    .unwrap();
    differs.record(b"k2", &mut log);
    let snap = log.snapshot();
    assert_eq!(snap.len(), 1);
    assert_eq!(snap[0].key, b"k2".to_vec());
    assert_eq!(Some(snap[0].divergence.clone()), differs.divergence);
}
