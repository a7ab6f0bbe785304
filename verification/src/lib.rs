//! Classic searching and sorting algorithms over slices, each with a contract
//! that is proved of its code.
//!
//! - [`search`]: linear, binary and jump search.
//! - [`sort`]: bubble sort, quicksort and merge sort, and the test for
//!   sortedness.
//! - [`order`]: the ordering that the algorithms work by, and its laws.
//! - [`arrangement`]: what it means to rearrange and to sort a sequence.
//! - [`merging`]: what merge sort computes.
pub mod arrangement;
pub mod merging;
pub mod order;
pub mod search;
pub mod sort;
