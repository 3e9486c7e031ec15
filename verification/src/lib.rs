//! Approximate suffix-prefix overlap search over a set of sequences.
//!
//! Every sequence is stored once in a corpus text that a full-text index
//! covers. For each query sequence a filtered backward search proposes
//! candidate overlaps, and an exact distance computation keeps those within
//! the allowed error rate and brings them into one canonical orientation.
//!
//! The flow of a run: [`prepare`] assembles the corpus, [`index`] indexes it,
//! [`modes`] cuts each pattern into blocks, [`search`] proposes candidates,
//! [`verification`] turns the candidates that stand into solutions, and
//! [`solve`] does both for one sequence.
//!
//! What is proved beyond the contracts of the functions:
//! [`verification::lemma_verdict_is_genuine`] (every solution is an overlap
//! of the sequences as they are read), [`occurrences::lemma_extension_holds`]
//! (backward extension over the index is exact), and
//! [`lossless::lemma_every_overlap_is_solved`] (under the balanced-block
//! scheme and Hamming distance no overlap within the error rate is missed).

pub mod alignment;
pub mod index;
pub mod lossless;
pub mod measuring;
pub mod modes;
pub mod occurrences;
pub mod output;
pub mod prepare;
pub mod progress;
pub mod rate;
pub mod search;
pub mod solve;
pub mod structs;
pub mod useful;
pub mod verification;
