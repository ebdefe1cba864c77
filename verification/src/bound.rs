//! Inclusive intervals over the `u32` register domain.
//!
//! A [`TransitionBound`] stores each endpoint as an `Option<u32>`: `None`
//! stands for the domain extreme (`0` below, `u32::MAX` above).  The
//! canonical form keeps an endpoint equal to its extreme as `None`;
//! [`TransitionBound::from_explicit`] re-establishes that form.

use vstd::prelude::*;

verus! {

/// The smaller of two mathematical integers.
pub open spec fn int_min(a: int, b: int) -> int {
    if a <= b {
        a
    } else {
        b
    }
}

/// The larger of two mathematical integers.
pub open spec fn int_max(a: int, b: int) -> int {
    if a >= b {
        a
    } else {
        b
    }
}

/// An inclusive interval of `u32` values with optionally unbounded endpoints.
///
/// `lower: None` means the interval extends down to `0`; `upper: None` means
/// it extends up to `u32::MAX`.  The set denoted is
/// `{ d | lo() <= d <= hi() }`.
#[derive(Clone, Copy, Debug)]
pub struct TransitionBound {
    pub lower: Option<u32>,
    pub upper: Option<u32>,
}

/// The same interval type under the shorter name used by consumers that
/// import it module by module.
pub type Bound = TransitionBound;

impl PartialEq for TransitionBound {
    fn eq(&self, other: &Self) -> (r: bool) {
        self.lower == other.lower && self.upper == other.upper
    }
}

impl vstd::std_specs::cmp::PartialEqSpecImpl for TransitionBound {
    open spec fn obeys_eq_spec() -> bool {
        true
    }

    open spec fn eq_spec(&self, other: &Self) -> bool {
        self.lower == other.lower && self.upper == other.upper
    }
}

impl TransitionBound {
    /// The effective lower endpoint, with `None` read as `0`.
    pub open spec fn lo(self) -> int {
        match self.lower {
            Some(l) => l as int,
            None => 0,
        }
    }

    /// The effective upper endpoint, with `None` read as `u32::MAX`.
    pub open spec fn hi(self) -> int {
        match self.upper {
            Some(u) => u as int,
            None => u32::MAX as int,
        }
    }

    /// The point `data` lies in the interval.
    pub open spec fn spec_contains(self, data: u32) -> bool {
        self.lo() <= data as int && data as int <= self.hi()
    }

    /// Every point of `rhs` lies in `self`.
    pub open spec fn spec_contains_all(self, rhs: Self) -> bool {
        self.lo() <= rhs.lo() && rhs.hi() <= self.hi()
    }

    /// An endpoint equal to its domain extreme is stored as `None`.
    pub open spec fn is_canonical(self) -> bool {
        self.lower != Some(0u32) && self.upper != Some(u32::MAX)
    }

    /// The canonical interval with the given explicit endpoints.
    pub open spec fn spec_from_explicit(bound: (u32, u32)) -> Self {
        TransitionBound {
            lower: if bound.0 == 0 {
                None
            } else {
                Some(bound.0)
            },
            upper: if bound.1 == u32::MAX {
                None
            } else {
                Some(bound.1)
            },
        }
    }

    /// The explicit endpoints of the interval.
    pub open spec fn spec_as_explicit(self) -> (u32, u32) {
        (self.lo() as u32, self.hi() as u32)
    }

    /// Intersection: the canonical interval over the common points, or
    /// `None` when the intervals are disjoint.
    pub open spec fn spec_intersect(self, other: Self) -> Option<Self> {
        if self.lo() > other.hi() || self.hi() < other.lo() {
            None
        } else {
            Some(
                Self::spec_from_explicit(
                    (
                        int_max(self.lo(), other.lo()) as u32,
                        int_min(self.hi(), other.hi()) as u32,
                    ),
                ),
            )
        }
    }

    /// The convex hull of the two intervals, in canonical form.
    pub open spec fn spec_union(self, rhs: Self) -> Self {
        Self::spec_from_explicit(
            (int_min(self.lo(), rhs.lo()) as u32, int_max(self.hi(), rhs.hi()) as u32),
        )
    }

    /// Creates a completely unbounded interval: both endpoints are `None`.
    pub fn unbounded() -> (r: Self)
        ensures
            r.lower is None,
            r.upper is None,
    {
        TransitionBound { lower: None, upper: None }
    }

    /// Replaces `None` endpoints with the domain extremes `0` and `u32::MAX`.
    pub fn as_explicit(&self) -> (r: (u32, u32))
        ensures
            r == self.spec_as_explicit(),
    {
        let lower = match self.lower {
            Some(lower) => lower,
            None => 0,
        };

        let upper = match self.upper {
            Some(upper) => upper,
            None => u32::MAX,
        };

        (lower, upper)
    }

    /// Replaces endpoints equal to the domain extremes with `None`.
    /// Inverse of `as_explicit` on canonical intervals.
    pub fn from_explicit(bound: (u32, u32)) -> (r: Self)
        ensures
            r == Self::spec_from_explicit(bound),
            r.is_canonical(),
            r.lo() == bound.0 as int,
            r.hi() == bound.1 as int,
    {
        let lower = if bound.0 == 0 {
            None
        } else {
            Some(bound.0)
        };

        let upper = if bound.1 == u32::MAX {
            None
        } else {
            Some(bound.1)
        };

        TransitionBound { lower, upper }
    }

    /// Returns the inclusive intersection if it exists, `None` otherwise.
    pub fn intersect(&self, other: &Self) -> (r: Option<Self>)
        ensures
            r == self.spec_intersect(*other),
    {
        let (s_lower, s_upper) = self.as_explicit();
        let (o_lower, o_upper) = other.as_explicit();

        if s_lower > o_upper || s_upper < o_lower {
            None
        } else {
            let lower = if s_lower >= o_lower {
                s_lower
            } else {
                o_lower
            };
            let upper = if s_upper <= o_upper {
                s_upper
            } else {
                o_upper
            };
            Some(Self::from_explicit((lower, upper)))
        }
    }

    /// Widens `self` in place so that it contains every point of `rhs`
    /// (and keeps every point it already had): the convex hull, stored in
    /// canonical form.
    pub fn union_with(&mut self, rhs: &Self)
        ensures
            *final(self) == old(self).spec_union(*rhs),
            final(self).is_canonical(),
            final(self).lo() == int_min(old(self).lo(), rhs.lo()),
            final(self).hi() == int_max(old(self).hi(), rhs.hi()),
    {
        let (l_lower, l_upper) = self.as_explicit();
        let (r_lower, r_upper) = rhs.as_explicit();

        let lower = if l_lower <= r_lower {
            l_lower
        } else {
            r_lower
        };
        let upper = if l_upper >= r_upper {
            l_upper
        } else {
            r_upper
        };
        *self = Self::from_explicit((lower, upper));
    }

    /// Point containment: `data` lies in the inclusive range.
    pub fn contains(&self, data: &u32) -> (r: bool)
        ensures
            r == self.spec_contains(*data),
    {
        let (lower, upper) = self.as_explicit();
        *data >= lower && *data <= upper
    }

    /// Interval containment: the entire range of `rhs` lies within `self`.
    pub fn contains_interval(&self, rhs: &Self) -> (r: bool)
        ensures
            r == self.spec_contains_all(*rhs),
    {
        let (ll, lu) = self.as_explicit();
        let (rl, ru) = rhs.as_explicit();
        ll <= rl && lu >= ru
    }
}

/// Intersection is commutative.
pub proof fn lemma_intersect_commutative(a: TransitionBound, b: TransitionBound)
    ensures
        a.spec_intersect(b) == b.spec_intersect(a),
{
}

/// Intersecting a non-empty canonical interval with itself gives the
/// interval back.
pub proof fn lemma_intersect_self(a: TransitionBound)
    requires
        a.is_canonical(),
        a.lo() <= a.hi(),
    ensures
        a.spec_intersect(a) == Some(a),
{
    let c = TransitionBound::spec_from_explicit((a.lo() as u32, a.hi() as u32));
    match a.lower {
        Some(l) => {
            assert(c.lower == a.lower);
        },
        None => {
            assert(c.lower == a.lower);
        },
    }
    match a.upper {
        Some(u) => {
            assert(c.upper == a.upper);
        },
        None => {
            assert(c.upper == a.upper);
        },
    }
    assert(int_max(a.lo(), a.lo()) == a.lo());
    assert(int_min(a.hi(), a.hi()) == a.hi());
    assert(c == a);
}

/// A point lies in an intersection exactly when it lies in both operands.
pub proof fn lemma_intersect_contains(
    a: TransitionBound,
    b: TransitionBound,
    c: TransitionBound,
    d: u32,
)
    requires
        a.spec_intersect(b) == Some(c),
    ensures
        c.spec_contains(d) <==> a.spec_contains(d) && b.spec_contains(d),
{
}

/// Canonicalization round-trip: re-reading the explicit endpoints of a
/// canonical interval gives the interval back.
pub proof fn lemma_from_explicit_round_trip(x: TransitionBound)
    requires
        x.is_canonical(),
    ensures
        TransitionBound::spec_from_explicit(x.spec_as_explicit()) == x,
{
}

/// Widening makes the receiver contain the argument (and keep itself), and
/// is idempotent: when the receiver already contains the argument, the
/// endpoints do not move, and a canonically stored receiver is returned
/// unchanged.
pub proof fn lemma_union_widens(a: TransitionBound, b: TransitionBound)
    ensures
        a.spec_union(b).spec_contains_all(b),
        a.spec_union(b).spec_contains_all(a),
        a.spec_union(b).is_canonical(),
        a.spec_contains_all(b) ==> a.spec_union(b).lo() == a.lo() && a.spec_union(b).hi()
            == a.hi(),
        a.spec_contains_all(b) && a.is_canonical() ==> a.spec_union(b) == a,
{
    if a.spec_contains_all(b) && a.is_canonical() {
        let c = a.spec_union(b);
        match a.lower {
            Some(l) => {
                assert(c.lower == a.lower);
            },
            None => {
                assert(c.lower == a.lower);
            },
        }
        match a.upper {
            Some(u) => {
                assert(c.upper == a.upper);
            },
            None => {
                assert(c.upper == a.upper);
            },
        }
        assert(c == a);
    }
}

} // verus!
