//! Sorting routines.
pub mod bubble;
pub mod exchange;
pub mod insertion;
pub mod merge;
pub mod order;
pub mod quick;
