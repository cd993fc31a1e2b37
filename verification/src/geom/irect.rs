//! An integer rectangle (PyMuPDF `IRect`).
//!
//! Edges are `x0, y0` (top-left) and `x1, y1` (bottom-right). A rectangle is
//! empty when `x0 >= x1` or `y0 >= y1`; operations normalize their inputs
//! (swap reversed edges) first.

use vstd::prelude::*;

verus! {

/// An integer rectangle.
#[derive(Copy, Clone, Debug, Default, PartialEq, Eq, Structural)]
pub struct IRect {
    /// Left edge.
    pub x0: i32,
    /// Top edge.
    pub y0: i32,
    /// Right edge.
    pub x1: i32,
    /// Bottom edge.
    pub y1: i32,
}

/// The smaller of two edges.
pub open spec fn min32(a: i32, b: i32) -> i32 {
    if a <= b { a } else { b }
}

/// The larger of two edges.
pub open spec fn max32(a: i32, b: i32) -> i32 {
    if a >= b { a } else { b }
}

impl IRect {
    /// The rectangle with reversed edges swapped.
    pub open spec fn spec_normalize(self) -> IRect {
        IRect {
            x0: min32(self.x0, self.x1),
            y0: min32(self.y0, self.y1),
            x1: max32(self.x0, self.x1),
            y1: max32(self.y0, self.y1),
        }
    }

    /// Zero area: `x0 >= x1` or `y0 >= y1`.
    pub open spec fn spec_is_empty(self) -> bool {
        self.x0 >= self.x1 || self.y0 >= self.y1
    }

    /// `other` lies within `self` (an empty `other` always does).
    pub open spec fn spec_contains_rect(self, other: IRect) -> bool {
        other.spec_is_empty() || {
            let a = self.spec_normalize();
            let b = other.spec_normalize();
            a.x0 <= b.x0 && a.y0 <= b.y0 && a.x1 >= b.x1 && a.y1 >= b.y1
        }
    }

    /// The smallest rectangle holding both; an empty argument leaves the
    /// other one (normalized).
    pub open spec fn spec_union(self, other: IRect) -> IRect {
        if other.spec_is_empty() {
            self.spec_normalize()
        } else if self.spec_is_empty() {
            other.spec_normalize()
        } else {
            let a = self.spec_normalize();
            let b = other.spec_normalize();
            IRect { x0: min32(a.x0, b.x0), y0: min32(a.y0, b.y0), x1: max32(a.x1, b.x1), y1: max32(a.y1, b.y1) }
        }
    }

    /// The overlap of both, or the all-zero rectangle when there is none.
    pub open spec fn spec_intersect(self, other: IRect) -> IRect {
        let a = self.spec_normalize();
        let b = other.spec_normalize();
        let x0 = max32(a.x0, b.x0);
        let y0 = max32(a.y0, b.y0);
        let x1 = min32(a.x1, b.x1);
        let y1 = min32(a.y1, b.y1);
        if x0 > x1 || y0 > y1 {
            IRect { x0: 0, y0: 0, x1: 0, y1: 0 }
        } else {
            IRect { x0, y0, x1, y1 }
        }
    }

    /// Creates a rectangle from its edges.
    pub fn new(x0: i32, y0: i32, x1: i32, y1: i32) -> (r: Self)
        ensures
            r == (IRect { x0, y0, x1, y1 }),
    {
        IRect { x0, y0, x1, y1 }
    }

    /// `|x1 - x0|`.
    pub fn width(&self) -> (r: i32)
        requires
            -i32::MAX <= self.x1 - self.x0 <= i32::MAX,
        ensures
            r == (if self.x1 >= self.x0 { self.x1 - self.x0 } else { self.x0 - self.x1 }),
    {
        let d = self.x1 - self.x0;
        if d < 0 { -d } else { d }
    }

    /// `|y1 - y0|`.
    pub fn height(&self) -> (r: i32)
        requires
            -i32::MAX <= self.y1 - self.y0 <= i32::MAX,
        ensures
            r == (if self.y1 >= self.y0 { self.y1 - self.y0 } else { self.y0 - self.y1 }),
    {
        let d = self.y1 - self.y0;
        if d < 0 { -d } else { d }
    }

    /// `width * height`, in 64 bits.
    pub fn area(&self) -> (r: i64)
        requires
            -i32::MAX <= self.x1 - self.x0 <= i32::MAX,
            -i32::MAX <= self.y1 - self.y0 <= i32::MAX,
        ensures
            r == (if self.x1 >= self.x0 { self.x1 - self.x0 } else { self.x0 - self.x1 })
                * (if self.y1 >= self.y0 { self.y1 - self.y0 } else { self.y0 - self.y1 }),
    {
        let w = self.width() as i64;
        let h = self.height() as i64;
        assert(0 <= w * h <= 0x7fff_ffff * 0x7fff_ffff) by (nonlinear_arith)
            requires 0 <= w <= 0x7fff_ffff, 0 <= h <= 0x7fff_ffff;
        w * h
    }

    /// The rectangle with reversed edges swapped.
    pub fn normalize(&self) -> (r: IRect)
        ensures
            r == self.spec_normalize(),
    {
        let (x0, x1) = if self.x0 <= self.x1 { (self.x0, self.x1) } else { (self.x1, self.x0) };
        let (y0, y1) = if self.y0 <= self.y1 { (self.y0, self.y1) } else { (self.y1, self.y0) };
        IRect { x0, y0, x1, y1 }
    }

    /// Whether the rectangle is empty (zero area).
    pub fn is_empty(&self) -> (r: bool)
        ensures
            r == self.spec_is_empty(),
    {
        self.x0 >= self.x1 || self.y0 >= self.y1
    }

    /// Whether `other` lies within this rectangle (an empty `other` always
    /// does).
    pub fn contains_rect(&self, other: &IRect) -> (r: bool)
        ensures
            r == self.spec_contains_rect(*other),
    {
        if other.is_empty() {
            return true;
        }
        let a = self.normalize();
        let b = other.normalize();
        a.x0 <= b.x0 && a.y0 <= b.y0 && a.x1 >= b.x1 && a.y1 >= b.y1
    }

    /// The smallest rectangle containing both.
    pub fn union(&self, other: &IRect) -> (r: IRect)
        ensures
            r == self.spec_union(*other),
    {
        if other.is_empty() {
            return self.normalize();
        }
        if self.is_empty() {
            return other.normalize();
        }
        let a = self.normalize();
        let b = other.normalize();
        IRect {
            x0: if a.x0 <= b.x0 { a.x0 } else { b.x0 },
            y0: if a.y0 <= b.y0 { a.y0 } else { b.y0 },
            x1: if a.x1 >= b.x1 { a.x1 } else { b.x1 },
            y1: if a.y1 >= b.y1 { a.y1 } else { b.y1 },
        }
    }

    /// The largest rectangle contained in both, or the all-zero rectangle.
    pub fn intersect(&self, other: &IRect) -> (r: IRect)
        ensures
            r == self.spec_intersect(*other),
    {
        let a = self.normalize();
        let b = other.normalize();
        let x0 = if a.x0 >= b.x0 { a.x0 } else { b.x0 };
        let y0 = if a.y0 >= b.y0 { a.y0 } else { b.y0 };
        let x1 = if a.x1 <= b.x1 { a.x1 } else { b.x1 };
        let y1 = if a.y1 <= b.y1 { a.y1 } else { b.y1 };
        if x0 > x1 || y0 > y1 {
            IRect { x0: 0, y0: 0, x1: 0, y1: 0 }
        } else {
            IRect { x0, y0, x1, y1 }
        }
    }
}

/// The union holds both rectangles.
pub proof fn law_union_contains_both(a: IRect, b: IRect)
    ensures
        a.spec_union(b).spec_contains_rect(a),
        a.spec_union(b).spec_contains_rect(b),
{
}

/// A non-empty intersection lies within both rectangles.
pub proof fn law_intersect_within_both(a: IRect, b: IRect)
    ensures
        !a.spec_intersect(b).spec_is_empty() ==> a.spec_contains_rect(a.spec_intersect(b))
            && b.spec_contains_rect(a.spec_intersect(b)),
{
}

/// Normalizing twice is normalizing once.
pub proof fn law_normalize_idempotent(a: IRect)
    ensures
        a.spec_normalize().spec_normalize() == a.spec_normalize(),
{
}

/// Intersection is commutative.
pub proof fn law_intersect_commutative(a: IRect, b: IRect)
    ensures
        a.spec_intersect(b) == b.spec_intersect(a),
{
}

} // verus!
