//! Shadow configuration: the sampling rate, the shadow leg's timeout and the
//! fields left out of the diff.

use std::time::Duration;

use sha2::{Digest, Sha256};
use vstd::prelude::*;

verus! {

/// Diff field a caller wants to ignore.
#[derive(Clone, Copy, Debug, PartialEq, Eq, Structural)]
pub enum IgnoreField {
    /// Don't flag a status-code difference.
    Status,
    /// Don't flag a header difference.
    Headers,
    /// Don't flag a body difference.
    Body,
}

/// The SHA-256 digest of a byte string.
pub uninterp spec fn sha256(data: Seq<u8>) -> Seq<u8>;

/// The duration of a whole number of seconds.
pub uninterp spec fn whole_seconds(secs: u64) -> Duration;

/// Calls `sha2::Sha256::digest` (through `sha2::Digest`): the 32-byte SHA-256
/// digest of `data`, which is taken to depend on `data` alone.
#[verifier::external_body]
fn sha256_digest(data: &[u8]) -> (d: [u8; 32])
    ensures
        d@ == sha256(data@),
{
    Sha256::digest(data).into()
}

/// Calls `std::time::Duration::from_secs`: the duration of `secs` seconds.
#[verifier::external_body]
fn duration_from_secs(secs: u64) -> (d: Duration)
    ensures
        d == whole_seconds(secs),
{
    Duration::from_secs(secs)
}

/// The first four bytes of `d` read as a big-endian unsigned integer.
pub open spec fn be_u32(d: Seq<u8>) -> int {
    d[0] * 0x100_0000 + d[1] * 0x1_0000 + d[2] * 0x100 + d[3]
}

/// The sampling bucket (`0..100`) that a digest falls into.
pub open spec fn bucket_of(digest: Seq<u8>) -> int {
    be_u32(digest) % 100
}

/// Whether a request with sampling key `key` is mirrored at `rate` percent:
/// always at 100 or more, never at 0, and otherwise when the bucket of the
/// key's SHA-256 digest is below the rate.
pub open spec fn admits(rate: u32, key: Seq<u8>) -> bool {
    rate >= 100 || (rate > 0 && bucket_of(sha256(key)) < rate)
}

/// The sampling bucket of a digest: its first four bytes, big-endian, mod 100.
pub fn sample_bucket(digest: &[u8]) -> (b: u32)
    requires
        digest@.len() >= 4,
    ensures
        b == bucket_of(digest@),
        b == (digest@[0] * 0x100_0000 + digest@[1] * 0x1_0000 + digest@[2] * 0x100 + digest@[3]) % 100,
        b < 100,
{
    let x: u32 = (digest[0] as u32) * 0x100_0000 + (digest[1] as u32) * 0x1_0000 + (digest[2] as u32)
        * 0x100 + (digest[3] as u32);
    x % 100
}

/// Knobs the shadower needs.
#[derive(Debug)]
pub struct ShadowConfig {
    /// Percentage of requests that get mirrored. `0..=100`. Default 100.
    sample_rate: u32,
    /// Max time the shadow leg is allowed. After this we drop it and flag a
    /// `ShadowTimeout` on the outcome — never blocks the primary.
    pub shadow_timeout: Duration,
    /// Fields to skip in the divergence check.
    pub ignore: Vec<IgnoreField>,
}

impl ShadowConfig {
    /// The sampling rate always lies in `0..=100`.
    #[verifier::type_invariant]
    pub closed spec fn rate_in_range(self) -> bool {
        self.sample_rate <= 100
    }

    /// The configured sampling rate, in percent.
    pub closed spec fn rate(&self) -> u32 {
        self.sample_rate
    }

    /// The configured timeout of the shadow leg.
    pub closed spec fn timeout(&self) -> Duration {
        self.shadow_timeout
    }

    /// The configured ignore list.
    pub closed spec fn ignored(&self) -> Seq<IgnoreField> {
        self.ignore@
    }

    /// Mirror every request, default timeout 2s.
    pub fn full_sample() -> (c: Self)
        ensures
            c.rate() == 100,
            c.timeout() == whole_seconds(2),
            c.ignored() == Seq::<IgnoreField>::empty(),
    {
        ShadowConfig { sample_rate: 100, shadow_timeout: duration_from_secs(2), ignore: Vec::new() }
    }

    /// Set sampling rate as a percentage (`0..=100`). Values >100 are clamped.
    pub fn sample_rate(self, percent: u32) -> (c: Self)
        ensures
            c.rate() == (if percent < 100 { percent } else { 100 }),
            c.timeout() == self.timeout(),
            c.ignored() == self.ignored(),
    {
        let mut c = self;
        c.sample_rate = if percent < 100 { percent } else { 100 };
        c
    }

    /// Override the shadow timeout.
    pub fn shadow_timeout(self, d: Duration) -> (c: Self)
        ensures
            c.rate() == self.rate(),
            c.timeout() == d,
            c.ignored() == self.ignored(),
    {
        proof {
            use_type_invariant(&self);
        }
        let mut c = self;
        c.shadow_timeout = d;
        c
    }

    /// Add a field to skip in the divergence diff.
    pub fn ignore(self, field: IgnoreField) -> (c: Self)
        ensures
            c.rate() == self.rate(),
            c.timeout() == self.timeout(),
            c.ignored() == self.ignored().push(field),
    {
        proof {
            use_type_invariant(&self);
        }
        let mut c = self;
        let mut ignore: Vec<IgnoreField> = Vec::new();
        std::mem::swap(&mut ignore, &mut c.ignore);
        ignore.push(field);
        c.ignore = ignore;
        c
    }

    /// Configured sample rate (0..=100).
    pub fn sample_rate_percent(&self) -> (p: u32)
        ensures
            p == self.rate(),
            p <= 100,
    {
        proof {
            use_type_invariant(self);
        }
        self.sample_rate
    }

    /// Whether `field` is on the ignore list.
    pub fn ignores(&self, field: IgnoreField) -> (b: bool)
        ensures
            b == self.ignored().contains(field),
    {
        let mut i: usize = 0;
        while i < self.ignore.len()
            invariant
                i <= self.ignore@.len(),
                forall|j: int| 0 <= j < i ==> self.ignore@[j] != field,
            decreases self.ignore@.len() - i,
        {
            if self.ignore[i] == field {
                assert(self.ignore@[i as int] == field);
                return true;
            }
            i = i + 1;
        }
        false
    }

    /// Whether a request whose sampling key has this SHA-256 digest falls
    /// inside the configured rate.
    pub fn admits_digest(&self, digest: &[u8]) -> (b: bool)
        requires
            digest@.len() >= 4,
        ensures
            b == (bucket_of(digest@) < self.rate()),
    {
        sample_bucket(digest) < self.sample_rate
    }

    /// Decide whether this request should be mirrored. Bucketing is sticky on
    /// the `key` — the same key always gets the same yes/no for a given
    /// `sample_rate`. SHA-256 (mod 100) is cheap and avoids an RNG dep.
    pub fn should_shadow(&self, key: &[u8]) -> (b: bool)
        ensures
            b == admits(self.rate(), key@),
            self.rate() >= 100 ==> b,
            self.rate() == 0 ==> !b,
            0 < self.rate() < 100 ==> b == ((sha256(key@)[0] * 0x100_0000 + sha256(key@)[1]
                * 0x1_0000 + sha256(key@)[2] * 0x100 + sha256(key@)[3]) % 100 < self.rate()),
    {
        proof {
            sampling_hashes_the_whole_key(self.rate(), key@);
        }
        if self.sample_rate >= 100 {
            return true;
        }
        if self.sample_rate == 0 {
            return false;
        }
        let digest = sha256_digest(key);
        self.admits_digest(&digest)
    }
}

impl Clone for ShadowConfig {
    fn clone(&self) -> (c: Self)
        ensures
            c.rate() == self.rate(),
            c.timeout() == self.timeout(),
            c.ignored() == self.ignored(),
    {
        proof {
            use_type_invariant(self);
        }
        let mut ignore: Vec<IgnoreField> = Vec::new();
        let mut i: usize = 0;
        while i < self.ignore.len()
            invariant
                i <= self.ignore@.len(),
                ignore@ == self.ignore@.take(i as int),
            decreases self.ignore@.len() - i,
        {
            ignore.push(self.ignore[i]);
            assert(self.ignore@.take(i + 1) =~= self.ignore@.take(i as int).push(self.ignore@[i as int]));
            i = i + 1;
        }
        assert(self.ignore@.take(i as int) =~= self.ignore@);
        ShadowConfig { sample_rate: self.sample_rate, shadow_timeout: self.shadow_timeout, ignore }
    }
}

impl Default for ShadowConfig {
    fn default() -> (c: Self)
        ensures
            c.rate() == 100,
            c.timeout() == whole_seconds(2),
            c.ignored() == Seq::<IgnoreField>::empty(),
    {
        Self::full_sample()
    }
}

/// Sampling is sticky: the same key always gets the same answer at a given
/// rate.
pub proof fn sampling_is_sticky(rate: u32, key1: Seq<u8>, key2: Seq<u8>)
    requires
        key1 == key2,
    ensures
        admits(rate, key1) == admits(rate, key2),
{
}

/// Between 0 and 100, a key is mirrored exactly when the first four bytes of
/// the SHA-256 digest of the whole key, read big-endian, are below the rate
/// modulo 100.
pub proof fn sampling_hashes_the_whole_key(rate: u32, key: Seq<u8>)
    ensures
        0 < rate < 100 ==> admits(rate, key) == ((sha256(key)[0] * 0x100_0000 + sha256(key)[1]
            * 0x1_0000 + sha256(key)[2] * 0x100 + sha256(key)[3]) % 100 < rate),
{
}

/// The answer depends on the key only through the SHA-256 digest of all of
/// it: keys with the same digest get the same answer at every rate.
pub proof fn sampling_depends_on_the_digest_only(rate: u32, key1: Seq<u8>, key2: Seq<u8>)
    requires
        sha256(key1) == sha256(key2),
    ensures
        admits(rate, key1) == admits(rate, key2),
{
}

/// A rate of 0 never mirrors, and a rate of 100 (or more) always mirrors.
pub proof fn sampling_extremes(key: Seq<u8>)
    ensures
        !admits(0, key),
        admits(100, key),
{
}

/// Raising the rate never stops mirroring a key that was mirrored.
pub proof fn sampling_is_monotonic(low: u32, high: u32, key: Seq<u8>)
    requires
        low <= high,
        admits(low, key),
    ensures
        admits(high, key),
{
}

} // verus!
