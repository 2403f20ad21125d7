//! What the operations of the library are for, as laws over their calls. A law
//! speaks of what goes into a call and what comes out of it: of ids, of the bit
//! patterns of distances, and of the calls that were made outside.

pub mod answers;
pub mod bits;
pub mod checks;
pub mod distances;
pub mod heap_search;
pub mod heaps;
pub mod native_search;
pub mod outputs;
pub mod pages;
pub mod plans;
pub mod records;
pub mod requests;
pub mod traversal;
pub mod walks;
