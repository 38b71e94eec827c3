//! A replicated key-value store core: the deterministic log-apply semantics,
//! snapshot compaction, outbound message reliability, and durable counters
//! that sit around an external consensus engine. The engine itself, the
//! network transport and the HTTP surface live outside this crate; this
//! library holds every decision those layers act on, with proofs.

pub mod counter;
pub mod rsm;
pub mod snapshot;
pub mod store;
pub mod types;
