//! Request mirroring with sampling, divergence detection and structured
//! response diffs: the decisions of a shadowing call, verified.
//!
//! - [`ResponseRecord`] — what a backend returns: status code, headers, body.
//! - [`ShadowConfig`] — sampling rate (sticky over a key hash), timeout for the
//!   shadow leg, fields to ignore in the diff.
//! - [`Divergence`] — structured diff: status / headers / body each get their
//!   own summary.
//! - [`DivergenceLog`] — bounded ring buffer of recent divergences.
//! - [`ShadowOutcome`] — what a shadow call returns, settled from the two legs.

pub mod backend;
pub mod config;
pub mod divergence;
pub mod error;
pub mod headers;
pub mod log;
pub mod shadower;

pub use backend::ResponseRecord;
pub use config::{IgnoreField, ShadowConfig};
pub use divergence::{BodyDiff, Divergence, HeaderDiff};
pub use error::ShadowError;
pub use headers::HeaderMap;
pub use log::{DivergenceEntry, DivergenceLog};
pub use shadower::{ShadowLeg, ShadowOutcome};
