use vstd::prelude::*;

use crate::bounded::Bounded;
use crate::next::Next;

verus! {

/// A half-open segment `[lower, upper)` of keys.
///
/// A segment with `lower == upper` is empty; one with `lower > upper` is accepted
/// by the constructors but is not valid as a key of a map.
#[derive(Clone, Copy, Debug, PartialEq, Eq, Structural, Hash)]
pub struct Segment {
    pub lower: i64,
    pub upper: i64,
}

/// The same half-open segment, under the name used by `IntervalMap`.
pub type Interval = Segment;

impl Segment {
    /// `lower <= upper`: the segment may be a key of a map.
    pub open spec fn is_valid(self) -> bool {
        self.lower <= self.upper
    }

    pub open spec fn contains_spec(self, key: i64) -> bool {
        self.lower <= key < self.upper
    }

    pub open spec fn encloses_spec(self, other: Segment) -> bool {
        self.lower <= other.lower && other.upper <= self.upper
    }

    pub open spec fn is_connected_spec(self, other: Segment) -> bool {
        self.lower <= other.upper && other.lower <= self.upper
    }

    pub open spec fn is_empty_spec(self) -> bool {
        self.lower == self.upper
    }

    /// `self` lies wholly at or below the start of `other`, and the two are not
    /// the same empty segment.
    pub open spec fn before(self, other: Segment) -> bool {
        self.upper <= other.lower && self.lower < other.upper
    }

    /// Two segments that may stand side by side in a map.
    pub open spec fn disjoint(self, other: Segment) -> bool {
        self.before(other) || other.before(self)
    }

    pub open spec fn max_lower(self, other: Segment) -> i64 {
        if self.lower < other.lower { other.lower } else { self.lower }
    }

    pub open spec fn min_upper(self, other: Segment) -> i64 {
        if other.upper < self.upper { other.upper } else { self.upper }
    }

    pub open spec fn intersection_spec(self, other: Segment) -> Option<Segment> {
        if self.is_connected_spec(other) {
            Some(Segment { lower: self.max_lower(other), upper: self.min_upper(other) })
        } else {
            None
        }
    }

    pub open spec fn span_spec(self, other: Segment) -> Segment {
        Segment {
            lower: if self.lower < other.lower { self.lower } else { other.lower },
            upper: if other.upper < self.upper { self.upper } else { other.upper },
        }
    }

    pub fn new(lower: i64, upper: i64) -> (r: Segment)
        ensures
            r == (Segment { lower, upper }),
    {
        Segment { lower, upper }
    }

    pub fn closed_open(lower: i64, upper: i64) -> (r: Segment)
        ensures
            r == (Segment { lower, upper }),
    {
        Segment { lower, upper }
    }

    pub fn contains(&self, value: &i64) -> (r: bool)
        ensures
            r == self.contains_spec(*value),
    {
        (self.lower <= *value) && (*value < self.upper)
    }

    pub fn encloses(&self, other: &Segment) -> (r: bool)
        ensures
            r == self.encloses_spec(*other),
    {
        (self.lower <= other.lower) && (other.upper <= self.upper)
    }

    pub fn is_connected(&self, other: &Segment) -> (r: bool)
        ensures
            r == self.is_connected_spec(*other),
    {
        (self.lower <= other.upper) && (other.lower <= self.upper)
    }

    pub fn is_empty(&self) -> (r: bool)
        ensures
            r == self.is_empty_spec(),
    {
        self.lower == self.upper
    }

    pub fn lower(&self) -> (r: &i64)
        ensures
            *r == self.lower,
    {
        &self.lower
    }

    pub fn upper(&self) -> (r: &i64)
        ensures
            *r == self.upper,
    {
        &self.upper
    }

    /// The common part of two connected segments; it is empty where they only touch.
    pub fn intersection(&self, other: &Segment) -> (r: Option<Segment>)
        ensures
            r == self.intersection_spec(*other),
    {
        if self.is_connected(other) {
            Some(
                Segment {
                    lower: if self.lower < other.lower { other.lower } else { self.lower },
                    upper: if other.upper < self.upper { other.upper } else { self.upper },
                },
            )
        } else {
            None
        }
    }

    /// The smallest segment that encloses both.
    pub fn span(&self, other: &Segment) -> (r: Segment)
        ensures
            r == self.span_spec(*other),
    {
        Segment {
            lower: if self.lower < other.lower { self.lower } else { other.lower },
            upper: if other.upper < self.upper { self.upper } else { other.upper },
        }
    }

    pub fn empty() -> (r: Segment)
        ensures
            r.lower == 0,
            r.upper == 0,
    {
        Segment { lower: 0, upper: 0 }
    }

    /// `[value, value]`.
    pub fn singleton(value: i64) -> (r: Segment)
        requires
            value < i64::MAX,
        ensures
            r.lower == value,
            r.upper == value + 1,
    {
        Segment { lower: value, upper: value.next_unchecked() }
    }

    /// `(lower, upper)`.
    pub fn open(lower: i64, upper: i64) -> (r: Segment)
        requires
            lower < i64::MAX,
        ensures
            r.lower == lower + 1,
            r.upper == upper,
    {
        Segment { lower: lower.next_unchecked(), upper }
    }

    /// `[lower, upper]`.
    pub fn closed(lower: i64, upper: i64) -> (r: Segment)
        requires
            upper < i64::MAX,
        ensures
            r.lower == lower,
            r.upper == upper + 1,
    {
        Segment { lower, upper: upper.next_unchecked() }
    }

    /// `(lower, upper]`.
    pub fn open_closed(lower: i64, upper: i64) -> (r: Segment)
        requires
            lower < i64::MAX,
            upper < i64::MAX,
        ensures
            r.lower == lower + 1,
            r.upper == upper + 1,
    {
        Segment { lower: lower.next_unchecked(), upper: upper.next_unchecked() }
    }

    /// `[MIN, value]`.
    pub fn at_most(value: i64) -> (r: Segment)
        requires
            value < i64::MAX,
        ensures
            r.lower == i64::MIN,
            r.upper == value + 1,
    {
        Segment { lower: <i64 as Bounded>::min(), upper: value.next_unchecked() }
    }

    /// `(value, MAX)`.
    pub fn greater_than(value: i64) -> (r: Segment)
        requires
            value < i64::MAX,
        ensures
            r.lower == value + 1,
            r.upper == i64::MAX,
    {
        Segment { lower: value.next_unchecked(), upper: <i64 as Bounded>::max() }
    }

    /// `[value, MAX)`.
    pub fn at_least(value: i64) -> (r: Segment)
        ensures
            r.lower == value,
            r.upper == i64::MAX,
    {
        Segment { lower: value, upper: <i64 as Bounded>::max() }
    }

    /// `[MIN, value)`.
    pub fn less_than(value: i64) -> (r: Segment)
        ensures
            r.lower == i64::MIN,
            r.upper == value,
    {
        Segment { lower: <i64 as Bounded>::min(), upper: value }
    }

    /// `[MIN, MAX)`.
    pub fn all() -> (r: Segment)
        ensures
            r.lower == i64::MIN,
            r.upper == i64::MAX,
    {
        Segment { lower: <i64 as Bounded>::min(), upper: <i64 as Bounded>::max() }
    }
}

} // verus!
