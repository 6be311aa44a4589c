//! The run-time options that steer extension computation and chain building.

use vstd::prelude::*;

verus! {

/// The options a run is configured with. All fields are required by the
/// configuration source; the library itself interprets `minimum_overlap`
/// and `allow_word_reuse`, and the rest steer the surrounding program
/// (worker count, persistence, diagnostics, corpus choice).
pub struct ProgramOptions {
    /// Minimum length a committed append's remainder must have.
    pub minimum_overlap: usize,
    /// Worker count for the parallel extension scan.
    pub threads: usize,
    /// Whether a computed extension index is persisted and reused.
    pub save_extensions: bool,
    /// Whether per-append diagnostics are wanted.
    pub verbose: bool,
    /// Hard cap on the chain length.
    pub max_word_chain: u64,
    /// Whether one word may be appended more than once in a chain.
    pub allow_word_reuse: bool,
    /// Selects the larger of the two corpus variants.
    pub use_large_words_file: bool,
}

} // verus!
