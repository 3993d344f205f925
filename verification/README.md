# request-shadow

Request mirroring with sampling, divergence detection and structured response
diffs, written in Verus.

- `src/` — the verified library: response records and their sorted header
  maps (`backend.rs`, `headers.rs`), the configuration and SHA-256 sticky
  sampling (`config.rs`), the structured diff (`divergence.rs`), the bounded
  divergence log (`log.rs`), and the settling of a mirrored call once both legs
  have run (`shadower.rs`).
- `app/` — the async shell: the `Backend` trait, the `Shadower` that runs both
  legs concurrently with a timeout on the shadow leg, and the lock around the
  shared divergence log.
- `tests/` — the scenarios, run against the library.
