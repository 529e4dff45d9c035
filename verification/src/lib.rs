//! Differences between two snapshots of a library's public items.
//!
//! [`diff::PublicItemsDiff::between`] takes the items of an old and of a new
//! snapshot and tells which items were removed, which were changed and which
//! were added. Items are compared as bags: an item that occurs several times
//! in a snapshot counts that often.
//!
//! - [`tokens`] and [`item`]: the items, and what they stand for.
//! - [`order`] and [`sorting`]: the order of items, and sorting by it.
//! - [`bag`]: bags of items.
//! - [`by_path`]: items grouped by path.
//! - [`pairing`]: pairing off, path by path, what went with what came.
//! - [`diff`]: the difference itself.
//! - [`resolution`], [`unique`] and [`laws`]: what holds of every difference,
//!   and when there is only one.
//! - [`counting`]: counting in sequences and bags.

pub mod bag;
pub mod by_path;
pub mod counting;
pub mod diff;
pub mod item;
pub mod laws;
pub mod order;
pub mod pairing;
pub mod resolution;
pub mod sorting;
pub mod tokens;
pub mod unique;
