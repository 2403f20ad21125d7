//! Filtered graph search over a vector index.

pub mod bitvec;
pub mod candidate;
pub mod filter;
pub mod heap;
pub mod hybrid;
pub mod labels;
pub mod laws;
pub mod native;
pub mod ordered_f32;
pub mod output;
pub mod page_laws;
pub mod paged;
pub mod plan;
pub mod queue;
pub mod record;
pub mod report;
pub mod two_queue;
pub mod walk;
