//! Closed real intervals over fixed-point bounds. The extreme `i64` values
//! stand for the infinities: the empty interval runs from +inf to -inf, the
//! universe from -inf to +inf.
use vstd::prelude::*;

verus! {

#[derive(Clone, Copy, Debug, PartialEq, Eq, Structural)]
pub struct Interval {
    pub min: i64,
    pub max: i64,
}

/// Saturation to the `i64` range, whose ends stand for the infinities.
pub open spec fn sat(x: int) -> int {
    if x > i64::MAX {
        i64::MAX as int
    } else if x < i64::MIN {
        i64::MIN as int
    } else {
        x
    }
}

pub open spec fn empty_spec() -> Interval {
    Interval { min: i64::MAX, max: i64::MIN }
}

pub open spec fn universe_spec() -> Interval {
    Interval { min: i64::MIN, max: i64::MAX }
}

pub open spec fn union_spec(a: Interval, b: Interval) -> Interval {
    Interval {
        min: if a.min <= b.min { a.min } else { b.min },
        max: if a.max >= b.max { a.max } else { b.max },
    }
}

pub open spec fn expand_spec(a: Interval, delta: int) -> Interval {
    Interval { min: sat(a.min - delta / 2) as i64, max: sat(a.max + delta / 2) as i64 }
}

pub fn sat_wide(x: i128) -> (r: i64)
    ensures
        r == sat(x as int),
{
    if x > i64::MAX as i128 {
        i64::MAX
    } else if x < i64::MIN as i128 {
        i64::MIN
    } else {
        x as i64
    }
}

impl Interval {
    pub open spec fn contains_spec(&self, x: int) -> bool {
        self.min <= x <= self.max
    }

    pub open spec fn surrounds_spec(&self, x: int) -> bool {
        self.min < x < self.max
    }

    pub fn new(min: i64, max: i64) -> (r: Interval)
        ensures
            r == (Interval { min, max }),
    {
        Interval { min, max }
    }

    /// The interval that contains nothing and absorbs into any union.
    pub fn empty() -> (r: Interval)
        ensures
            r == empty_spec(),
    {
        Interval { min: i64::MAX, max: i64::MIN }
    }

    /// The interval that contains everything.
    pub fn universe() -> (r: Interval)
        ensures
            r == universe_spec(),
    {
        Interval { min: i64::MIN, max: i64::MAX }
    }

    pub fn size(&self) -> (r: i128)
        ensures
            r == self.max - self.min,
    {
        self.max as i128 - self.min as i128
    }

    /// Closed membership.
    pub fn contains(&self, x: i64) -> (r: bool)
        ensures
            r == self.contains_spec(x as int),
    {
        self.min <= x && x <= self.max
    }

    /// Open membership.
    pub fn surrounds(&self, x: i64) -> (r: bool)
        ensures
            r == self.surrounds_spec(x as int),
    {
        self.min < x && x < self.max
    }

    /// Symmetric padding by half of `delta` on each side.
    pub fn expand(&self, delta: i64) -> (r: Interval)
        requires
            delta >= 0,
        ensures
            r == expand_spec(*self, delta as int),
    {
        let padding = delta / 2;
        Interval {
            min: sat_wide(self.min as i128 - padding as i128),
            max: sat_wide(self.max as i128 + padding as i128),
        }
    }

    /// The smallest interval enclosing both.
    pub fn union(a: &Interval, b: &Interval) -> (r: Interval)
        ensures
            r == union_spec(*a, *b),
    {
        Interval {
            min: if a.min <= b.min {
                a.min
            } else {
                b.min
            },
            max: if a.max >= b.max {
                a.max
            } else {
                b.max
            },
        }
    }

    /// Both ends moved by `delta`.
    pub fn shift(&self, delta: i64) -> (r: Interval)
        ensures
            r == (Interval {
                min: sat(self.min + delta) as i64,
                max: sat(self.max + delta) as i64,
            }),
    {
        Interval {
            min: sat_wide(self.min as i128 + delta as i128),
            max: sat_wide(self.max as i128 + delta as i128),
        }
    }
}

impl Default for Interval {
    fn default() -> (r: Interval)
        ensures
            r == empty_spec(),
    {
        Interval::empty()
    }
}

/// The union of two intervals contains every point of either, and the empty
/// interval is a neutral element of union.
pub proof fn lemma_union_contains(a: Interval, b: Interval, x: int)
    ensures
        a.contains_spec(x) || b.contains_spec(x) ==> union_spec(a, b).contains_spec(x),
        union_spec(empty_spec(), a) == a,
        union_spec(a, empty_spec()) == a,
{
}

} // verus!
