//! Word-list curation: a cleaning pipeline and an exact-size search over it.

pub mod chars;
pub mod invariants;
pub mod options;
pub mod order;
pub mod pipeline;
pub mod removal;
pub mod seqs;
pub mod target;
pub mod whittle;
pub mod word;

pub use pipeline::tidy_list;
