use std::time::Duration;

use request_shadow::config::sample_bucket;
use request_shadow::{IgnoreField, ShadowConfig};

#[test]
fn full_sample_defaults() {
    let c = ShadowConfig::full_sample();
    assert_eq!(c.sample_rate_percent(), 100);
    assert_eq!(c.shadow_timeout, Duration::from_secs(2));
    assert!(c.ignore.is_empty());
    let d = ShadowConfig::default();
    assert_eq!(d.sample_rate_percent(), 100);
    assert_eq!(d.shadow_timeout, Duration::from_secs(2));
}

#[test]
fn sample_rate_is_clamped() {
    assert_eq!(ShadowConfig::full_sample().sample_rate(250).sample_rate_percent(), 100);
    assert_eq!(ShadowConfig::full_sample().sample_rate(100).sample_rate_percent(), 100);
    assert_eq!(ShadowConfig::full_sample().sample_rate(37).sample_rate_percent(), 37);
    assert_eq!(ShadowConfig::full_sample().sample_rate(0).sample_rate_percent(), 0);
}

#[test]
fn builders_keep_other_fields() {
    let c = ShadowConfig::full_sample()
        .sample_rate(10)
        .shadow_timeout(Duration::from_millis(5))
        .ignore(IgnoreField::Status)
        .ignore(IgnoreField::Headers);
    assert_eq!(c.sample_rate_percent(), 10);
    assert_eq!(c.shadow_timeout, Duration::from_millis(5));
    assert_eq!(c.ignore, vec![IgnoreField::Status, IgnoreField::Headers]);
    assert!(c.ignores(IgnoreField::Status));
    assert!(!c.ignores(IgnoreField::Body));
    let d = c.clone();
    assert_eq!(d.sample_rate_percent(), 10);
    assert_eq!(d.ignore, c.ignore);
}

#[test]
fn sample_bucket_reads_big_endian_mod_100() {
    // 0x5e78863e = 1584956990, mod 100 = 90
    assert_eq!(sample_bucket(&[0x5e, 0x78, 0x86, 0x3e, 0xff]), 90);
    assert_eq!(sample_bucket(&[0, 0, 0, 99]), 99);
    assert_eq!(sample_bucket(&[0, 0, 1, 0]), 56);
    assert_eq!(sample_bucket(&[0xff, 0xff, 0xff, 0xff]), 95);
}

#[test]
fn should_shadow_follows_the_sha256_bucket() {
    // SHA-256("my-key") starts 5e 78 86 3e: bucket 1584956990 % 100 = 90.
    assert_eq!(sample_bucket(&[0x5e, 0x78, 0x86, 0x3e]), 90);
    let at = |r: u32| ShadowConfig::full_sample().sample_rate(r).should_shadow(b"my-key");
    assert!(!at(90));
    assert!(at(91));
    // SHA-256("hello") starts 2c f2 4d ba: bucket 14.
    let at = |r: u32| ShadowConfig::full_sample().sample_rate(r).should_shadow(b"hello");
    assert!(!at(14));
    assert!(at(15));
}

#[test]
fn sampling_extremes_hold() {
    for key in [&b""[..], b"a", b"my-key", b"req-1"] {
        assert!(!ShadowConfig::full_sample().sample_rate(0).should_shadow(key));
        assert!(ShadowConfig::full_sample().should_shadow(key));
    }
}

#[test]
fn admits_digest_compares_bucket_with_rate() {
    let c = ShadowConfig::full_sample().sample_rate(57);
    assert!(c.admits_digest(&[0, 0, 1, 0])); // bucket 56
    assert!(!c.admits_digest(&[0, 0, 0, 57])); // bucket 57
}
