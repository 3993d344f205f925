//! The decisions of a shadow call: what the caller gets back, and what the
//! divergence log records, once both legs have run.

use vstd::prelude::*;

use crate::backend::ResponseRecord;
use crate::config::ShadowConfig;
use crate::divergence::{divergence_of, opt_view, Divergence};
use crate::error::{error_message, ShadowError};
use crate::log::{bounded_push, DivergenceEntry, DivergenceLog, EntryView};

verus! {

/// Result of a shadow call. The client *always* sees `primary` — even if the
/// shadow leg failed or timed out, only telemetry is affected.
#[derive(Debug)]
pub struct ShadowOutcome {
    /// The primary response. This is what the calling code should return.
    pub primary: ResponseRecord,
    /// The shadow response, if it succeeded inside the configured timeout.
    pub shadow: Option<ResponseRecord>,
    /// Structured diff. `None` when bodies/status/headers all match (modulo
    /// the config's ignore list) or when the shadow didn't run.
    pub divergence: Option<Divergence>,
    /// True when the request would have been mirrored but the sampler said no.
    pub skipped_by_sampler: bool,
    /// Set when the shadow leg timed out / errored.
    pub shadow_failed: Option<String>,
}

/// How the shadow leg of a mirrored call ended.
#[derive(Debug)]
pub enum ShadowLeg {
    /// The shadow backend answered in time.
    Returned(ResponseRecord),
    /// The shadow backend failed.
    Failed(ShadowError),
    /// The shadow backend did not answer before the configured timeout.
    TimedOut,
}

/// What `shadow_failed` says for a leg that did not return.
pub open spec fn failure_note(leg: ShadowLeg) -> Option<Seq<char>> {
    match leg {
        ShadowLeg::Returned(_) => None,
        ShadowLeg::Failed(e) => Some(error_message(e)),
        ShadowLeg::TimedOut => Some("timeout"@),
    }
}

/// The view of an optional string.
pub open spec fn opt_chars(s: Option<String>) -> Option<Seq<char>> {
    match s {
        Some(s) => Some(s@),
        None => None,
    }
}

impl ShadowOutcome {
    /// The outcome of a call that the sampler left unmirrored: the primary
    /// response alone.
    pub fn skipped(primary: ResponseRecord) -> (o: Self)
        ensures
            o.primary == primary,
            o.shadow is None,
            o.divergence is None,
            o.skipped_by_sampler,
            o.shadow_failed is None,
    {
        ShadowOutcome {
            primary,
            shadow: None,
            divergence: None,
            skipped_by_sampler: true,
            shadow_failed: None,
        }
    }

    /// Settle a mirrored call once both legs have ended. A primary failure is
    /// the call's error; otherwise the caller gets the primary response, the
    /// shadow response if there is one, a note on why there is none, and the
    /// divergence between the two.
    pub fn settle(
        config: &ShadowConfig,
        primary: Result<ResponseRecord, ShadowError>,
        shadow: ShadowLeg,
    ) -> (r: Result<Self, ShadowError>)
        ensures
            primary matches Err(e) ==> r == Err::<Self, ShadowError>(e),
            primary matches Ok(p) ==> r matches Ok(o) && {
                &&& o.primary == p
                &&& !o.skipped_by_sampler
                &&& opt_chars(o.shadow_failed) == failure_note(shadow)
                &&& match shadow {
                    ShadowLeg::Returned(s) => o.shadow == Some(s) && opt_view(o.divergence)
                        == divergence_of(p, s, config.ignored()),
                    _ => o.shadow is None && o.divergence is None,
                }
            },
    {
        let primary = match primary {
            Ok(p) => p,
            Err(e) => return Err(e),
        };
        let (shadow, shadow_failed) = match shadow {
            ShadowLeg::Returned(s) => (Some(s), None),
            ShadowLeg::Failed(e) => (None, Some(e.message())),
            ShadowLeg::TimedOut => (None, Some(String::from_str("timeout"))),
        };
        let divergence = match &shadow {
            Some(s) => Divergence::compare(&primary, s, config),
            None => None,
        };
        Ok(ShadowOutcome { primary, shadow, divergence, skipped_by_sampler: false, shadow_failed })
    }

    /// Record this outcome's divergence, if it has one, in `log` under the
    /// call's `input`; an outcome without a divergence leaves the log as it is.
    pub fn record(&self, input: &[u8], log: &mut DivergenceLog)
        ensures
            final(log).cap() == old(log).cap(),
            match self.divergence {
                Some(d) => final(log)@ == bounded_push(
                    old(log).cap(),
                    old(log)@,
                    EntryView { key: input@, divergence: d@ },
                ),
                None => final(log)@ == old(log)@,
            },
    {
        match &self.divergence {
            Some(d) => {
                let mut key: Vec<u8> = Vec::new();
                key.extend_from_slice(input);
                assert(key@ =~= input@);
                log.push(DivergenceEntry { key, divergence: d.clone() });
            },
            None => {},
        }
    }
}

} // verus!
