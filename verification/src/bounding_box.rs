//! Axis-aligned rectangles, their union and the order that ranks them.

use std::cmp::Ordering;
use std::ops::Add;
use vstd::prelude::*;
use vstd::std_specs::cmp::PartialOrdSpec;

verus! {

/// An axis-aligned rectangle: the corner nearest the origin and the extent.
#[derive(Debug, PartialEq, Eq, Clone, Copy, Structural)]
pub struct BoundingBox {
    pub x: u32,
    pub y: u32,
    pub width: u32,
    pub height: u32,
}

impl BoundingBox {
    /// The number of unit cells the rectangle covers.
    pub open spec fn spec_area(self) -> int {
        self.width * self.height
    }

    /// The length of the rectangle's border.
    pub open spec fn spec_perimeter(self) -> int {
        2 * (self.width + self.height)
    }

    /// The first column to the right of the rectangle.
    pub open spec fn right(self) -> int {
        self.x + self.width
    }

    /// The first row below the rectangle.
    pub open spec fn bottom(self) -> int {
        self.y + self.height
    }

    /// The far corner is representable: neither `x + width` nor
    /// `y + height` exceeds `u32::MAX`.
    pub open spec fn in_bounds(self) -> bool {
        self.right() <= u32::MAX && self.bottom() <= u32::MAX
    }

    /// The unit cell at `(px, py)` lies inside the rectangle.
    pub open spec fn covers_cell(self, px: int, py: int) -> bool {
        self.x <= px < self.right() && self.y <= py < self.bottom()
    }

    /// Every corner of `other` lies within the extent of `self`.
    pub open spec fn encloses(self, other: BoundingBox) -> bool {
        &&& self.x <= other.x
        &&& self.y <= other.y
        &&& other.right() <= self.right()
        &&& other.bottom() <= self.bottom()
    }

    /// A `width` by `height` rectangle fits; equal sizes fit.
    pub open spec fn spec_can_contain(self, width: u32, height: u32) -> bool {
        width <= self.width && height <= self.height
    }

    /// The smallest rectangle whose extent covers both `self` and `other`.
    pub open spec fn spec_union(self, other: BoundingBox) -> BoundingBox {
        let x = if self.x <= other.x { self.x } else { other.x };
        let y = if self.y <= other.y { self.y } else { other.y };
        let right = if self.right() >= other.right() { self.right() } else { other.right() };
        let bottom = if self.bottom() >= other.bottom() { self.bottom() } else { other.bottom() };
        BoundingBox { x, y, width: (right - x) as u32, height: (bottom - y) as u32 }
    }

    /// `self` ranks strictly before `other`: smaller area, or equal area and
    /// smaller perimeter.
    pub open spec fn ranks_before(self, other: BoundingBox) -> bool {
        self.spec_area() < other.spec_area() || (self.spec_area() == other.spec_area()
            && self.spec_perimeter() < other.spec_perimeter())
    }

    /// The three-way outcome of ranking `self` against `other`.
    pub open spec fn rank_order(self, other: BoundingBox) -> Ordering {
        if self.ranks_before(other) {
            Ordering::Less
        } else if other.ranks_before(self) {
            Ordering::Greater
        } else {
            Ordering::Equal
        }
    }

    /// Whether a `width` by `height` rectangle fits into this one.
    pub fn can_contain(&self, width: u32, height: u32) -> (r: bool)
        ensures
            r == self.spec_can_contain(width, height),
    {
        width <= self.width && height <= self.height
    }

    /// Whether this rectangle is exactly `width` wide and `height` high.
    pub fn same_shape(&self, width: u32, height: u32) -> (r: bool)
        ensures
            r == (width == self.width && height == self.height),
    {
        width == self.width && height == self.height
    }

    /// The area, where it fits 32 bits.
    pub fn area(&self) -> (r: u32)
        requires
            self.spec_area() <= u32::MAX,
        ensures
            r == self.spec_area(),
    {
        self.width * self.height
    }

    /// The perimeter, where it fits 32 bits.
    pub fn perimeter(&self) -> (r: u32)
        requires
            self.spec_perimeter() <= u32::MAX,
        ensures
            r == self.spec_perimeter(),
    {
        self.width * 2 + self.height * 2
    }

    /// The smallest rectangle covering both `self` and `other`.
    pub fn union(&self, other: &BoundingBox) -> (r: BoundingBox)
        requires
            self.in_bounds(),
            other.in_bounds(),
        ensures
            r == self.spec_union(*other),
    {
        let x: u32 = if self.x <= other.x { self.x } else { other.x };
        let y: u32 = if self.y <= other.y { self.y } else { other.y };
        let right_a: u32 = self.x + self.width;
        let right_b: u32 = other.x + other.width;
        let bottom_a: u32 = self.y + self.height;
        let bottom_b: u32 = other.y + other.height;
        let right: u32 = if right_a >= right_b { right_a } else { right_b };
        let bottom: u32 = if bottom_a >= bottom_b { bottom_a } else { bottom_b };
        BoundingBox { x, y, width: right - x, height: bottom - y }
    }

    /// The area in 64 bits, where it always fits.
    pub fn wide_area(&self) -> (r: u64)
        ensures
            r == self.spec_area(),
    {
        let w: u64 = self.width as u64;
        let h: u64 = self.height as u64;
        assert(w * h <= 0xFFFF_FFFF * 0xFFFF_FFFF) by (nonlinear_arith)
            requires
                w <= 0xFFFF_FFFF,
                h <= 0xFFFF_FFFF,
        ;
        w * h
    }

    /// The perimeter in 64 bits, where it always fits.
    pub fn wide_perimeter(&self) -> (r: u64)
        ensures
            r == self.spec_perimeter(),
    {
        2 * (self.width as u64 + self.height as u64)
    }

    /// Whether `self` ranks strictly before `other`, computed without
    /// overflow for every pair of rectangles.
    pub fn is_ranked_before(&self, other: &BoundingBox) -> (r: bool)
        ensures
            r == self.ranks_before(*other),
    {
        let a: u64 = self.wide_area();
        let b: u64 = other.wide_area();
        a < b || (a == b && self.wide_perimeter() < other.wide_perimeter())
    }

    /// Ranks by area, then by perimeter.
    pub fn cmp(&self, other: &BoundingBox) -> (r: Ordering)
        ensures
            r == self.rank_order(*other),
    {
        if self.is_ranked_before(other) {
            Ordering::Less
        } else if other.is_ranked_before(self) {
            Ordering::Greater
        } else {
            Ordering::Equal
        }
    }
}

impl Add<&BoundingBox> for &BoundingBox {
    type Output = BoundingBox;

    fn add(self, v: &BoundingBox) -> (r: BoundingBox) {
        self.union(v)
    }
}

impl vstd::std_specs::ops::AddSpecImpl<&BoundingBox> for &BoundingBox {
    open spec fn obeys_add_spec() -> bool {
        true
    }

    open spec fn add_req(self, rhs: &BoundingBox) -> bool {
        self.in_bounds() && rhs.in_bounds()
    }

    open spec fn add_spec(self, rhs: &BoundingBox) -> BoundingBox {
        self.spec_union(*rhs)
    }
}

impl Add<BoundingBox> for BoundingBox {
    type Output = BoundingBox;

    fn add(self, v: BoundingBox) -> (r: BoundingBox) {
        self.union(&v)
    }
}

impl vstd::std_specs::ops::AddSpecImpl<BoundingBox> for BoundingBox {
    open spec fn obeys_add_spec() -> bool {
        true
    }

    open spec fn add_req(self, rhs: BoundingBox) -> bool {
        self.in_bounds() && rhs.in_bounds()
    }

    open spec fn add_spec(self, rhs: BoundingBox) -> BoundingBox {
        self.spec_union(rhs)
    }
}

impl PartialOrd for BoundingBox {
    fn partial_cmp(&self, other: &Self) -> (r: Option<Ordering>) {
        Some(self.cmp(other))
    }
}

impl vstd::std_specs::cmp::PartialOrdSpecImpl for BoundingBox {
    open spec fn obeys_partial_cmp_spec() -> bool {
        true
    }

    open spec fn partial_cmp_spec(&self, other: &Self) -> Option<Ordering> {
        Some(self.rank_order(*other))
    }
}

/// Union is commutative.
pub proof fn lemma_union_commutative(a: BoundingBox, b: BoundingBox)
    ensures
        a.spec_union(b) == b.spec_union(a),
{
}

/// Union is associative on rectangles whose far corners are representable.
pub proof fn lemma_union_associative(a: BoundingBox, b: BoundingBox, c: BoundingBox)
    requires
        a.in_bounds(),
        b.in_bounds(),
        c.in_bounds(),
    ensures
        a.spec_union(b).spec_union(c) == a.spec_union(b.spec_union(c)),
{
}

/// The union covers both operands, is itself representable, and is enclosed
/// by every rectangle that covers both: it is the smallest cover.
pub proof fn lemma_union_is_least_cover(a: BoundingBox, b: BoundingBox, c: BoundingBox)
    requires
        a.in_bounds(),
        b.in_bounds(),
    ensures
        a.spec_union(b).in_bounds(),
        a.spec_union(b).encloses(a),
        a.spec_union(b).encloses(b),
        c.encloses(a) && c.encloses(b) ==> c.encloses(a.spec_union(b)),
{
}

/// Folding a union into an accumulator that starts at the origin keeps the
/// accumulator's corner at the origin.
pub proof fn lemma_union_keeps_origin(acc: BoundingBox, b: BoundingBox)
    requires
        acc.x == 0,
        acc.y == 0,
    ensures
        acc.spec_union(b).x == 0,
        acc.spec_union(b).y == 0,
{
}

/// Of two rectangles with different areas the one with the smaller area
/// compares as smaller, whatever their perimeters; of two with equal areas
/// the one with the smaller perimeter compares as smaller.
pub proof fn lemma_order_by_area_then_perimeter(a: BoundingBox, b: BoundingBox)
    ensures
        a.spec_area() < b.spec_area() ==> a.rank_order(b) == Ordering::Less && b.rank_order(a)
            == Ordering::Greater,
        a.spec_area() == b.spec_area() && a.spec_perimeter() < b.spec_perimeter() ==> a.rank_order(
            b,
        ) == Ordering::Less && b.rank_order(a) == Ordering::Greater,
        a.spec_area() == b.spec_area() && a.spec_perimeter() == b.spec_perimeter()
            <==> a.rank_order(b) == Ordering::Equal,
        a.partial_cmp_spec(&b) == Some(a.rank_order(b)),
{
}

/// The ranking is a strict weak order: nothing ranks before itself, ranking
/// before is transitive, and so is being ranked equal.
pub proof fn lemma_rank_is_strict_weak_order(a: BoundingBox, b: BoundingBox, c: BoundingBox)
    ensures
        !a.ranks_before(a),
        a.ranks_before(b) ==> !b.ranks_before(a),
        a.ranks_before(b) && b.ranks_before(c) ==> a.ranks_before(c),
        !a.ranks_before(b) && !b.ranks_before(c) ==> !a.ranks_before(c),
{
}

} // verus!
