//! A per-chat, per-user statistical text model.
//!
//! Each participant of a conversation owns a family of Markov chains of
//! several orders, grown incrementally from the messages they send.  The
//! model can produce new text in that participant's style; a dedup index
//! of everything ever fed keeps the output from reproducing training
//! text verbatim.  A registry maps `(chat, user)` pairs to models,
//! hydrates a chat from a durable key-value store at most once, and asks
//! for a write-through of a model after a configurable number of feeds.

use vstd::prelude::*;

pub mod chain_model;
pub mod chains;
pub mod codec;
pub mod commands;
pub mod hashing;
pub mod known;
pub mod numbers;
pub mod registry;
pub mod rng;
pub mod strutil;
pub mod text;
pub mod username;

verus! {

/// Configuration consumed by the model registry, constructed once at
/// startup and passed in explicitly.
pub struct Settings {
    /// Smallest chain order a model maintains (at least 1).
    pub min_order: usize,
    /// Largest chain order a model maintains (at least `min_order`).
    pub max_order: usize,
    /// How many attempts a registry-level generation makes before it
    /// reports that there is nothing to say.
    pub max_gen_retries: usize,
    /// A generated reply must have fewer tokens than this to be accepted.
    pub max_reply_tokens: usize,
    /// A model is persisted when the global feed counter reaches a
    /// multiple of this frequency (at least 1).
    pub persist_every: usize,
}

impl Settings {
    /// The orders form a non-empty range and the persistence cadence is
    /// a positive frequency.
    pub open spec fn wf(self) -> bool {
        &&& 1 <= self.min_order <= self.max_order
        &&& self.persist_every >= 1
    }

    /// Builds a configuration, rejecting an empty order range, a zero
    /// minimum order and a zero persistence frequency.
    pub fn new(
        min_order: usize,
        max_order: usize,
        max_gen_retries: usize,
        max_reply_tokens: usize,
        persist_every: usize,
    ) -> (r: Option<Settings>)
        ensures
            r is Some <==> 1 <= min_order <= max_order && persist_every >= 1,
            r is Some ==> {
                let s = r->Some_0;
                &&& s.wf()
                &&& s.min_order == min_order
                &&& s.max_order == max_order
                &&& s.max_gen_retries == max_gen_retries
                &&& s.max_reply_tokens == max_reply_tokens
                &&& s.persist_every == persist_every
            },
    {
        if 1 <= min_order && min_order <= max_order && persist_every >= 1 {
            Some(Settings { min_order, max_order, max_gen_retries, max_reply_tokens, persist_every })
        } else {
            None
        }
    }
}

} // verus!
