//! A verified line-sorting library: an external-sort engine built from
//! key transforms, configurable comparators, a bounded-batch run builder,
//! and a k-way merge engine, with check and merge-only modes, an external
//! key-comparator protocol, and the `uniq` and `tail` line passes.

pub mod compare;
pub mod config;
pub mod engine;
pub mod extcmp;
pub mod keys;
pub mod laws;
pub mod lines;
pub mod modes;
pub mod ordering;
pub mod tail;
pub mod uniq;
