//! An ordered map keyed by disjoint half-open segments `[lower, upper)` of `i64` keys.
//!
//! `remove` and `update` split the stored segments that their target cuts, keeping
//! the parts outside the target with their values. For `update` an empty target
//! strictly inside a stored segment splits it there, and elsewhere stands for a
//! zero-width gap; `remove` with an empty target takes out only an equal entry.
//! What each operation does to the entries is stated over the map model in `model`.
mod bounded;
mod interval_map;
pub mod model;
mod next;
mod segment;
mod segment_map_node;

pub use crate::bounded::Bounded;
pub use crate::interval_map::{IntervalMap, IntoIter, Intervals, Iter, Values};
pub use crate::next::Next;
pub use crate::segment::{Interval, Segment};
pub use crate::segment_map_node::SegmentMapNode;
