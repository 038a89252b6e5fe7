//! Rectangles in device pixels.

use crate::rounding::BINADE;
use crate::single::{
    law_held_sum_is_exact, law_order_is_numeric, law_sum_on_grid_is_exact, law_whole_order,
    law_whole_product, law_whole_sums, lemma_whole_zero, same_number, Single,
};
use vstd::arithmetic::div_mod::*;
use vstd::arithmetic::power2::*;
use vstd::prelude::*;

verus! {

/// A length in device pixels, after scaling.
#[derive(Clone, Copy, Debug, Default, PartialEq, Eq, Structural)]
pub struct ScaledPixels(pub Single);

/// A length in whole device pixels.
#[derive(Clone, Copy, Debug, Default, PartialEq, Eq, Structural)]
pub struct DevicePixels(pub i32);

/// A position.
#[derive(Clone, Copy, Debug, Default, PartialEq, Eq, Structural)]
pub struct Point<T> {
    pub x: T,
    pub y: T,
}

/// An extent.
#[derive(Clone, Copy, Debug, Default, PartialEq, Eq, Structural)]
pub struct Size<T> {
    pub width: T,
    pub height: T,
}

/// A rectangle: its near corner and its extent.
#[derive(Clone, Copy, Debug, Default, PartialEq, Eq, Structural)]
pub struct Bounds<T> {
    pub origin: Point<T>,
    pub size: Size<T>,
}

/// The four corner values of a rectangle.
#[derive(Clone, Copy, Debug, Default, PartialEq, Eq, Structural)]
pub struct Corners<T> {
    pub top_left: T,
    pub top_right: T,
    pub bottom_right: T,
    pub bottom_left: T,
}

/// The four side values of a rectangle.
#[derive(Clone, Copy, Debug, Default, PartialEq, Eq, Structural)]
pub struct Edges<T> {
    pub top: T,
    pub right: T,
    pub bottom: T,
    pub left: T,
}

/// The rectangle that drawing is clipped to.
#[derive(Clone, Copy, Debug, Default, PartialEq, Eq, Structural)]
pub struct ContentMask<T> {
    pub bounds: Bounds<T>,
}

impl Bounds<ScaledPixels> {
    pub open spec fn left(self) -> Single {
        self.origin.x.0
    }

    pub open spec fn top(self) -> Single {
        self.origin.y.0
    }

    pub open spec fn right(self) -> Single {
        Single::sum(self.origin.x.0, self.size.width.0)
    }

    pub open spec fn bottom(self) -> Single {
        Single::sum(self.origin.y.0, self.size.height.0)
    }

    /// The rectangle between two corners.
    pub open spec fn between_corners(
        left: Single,
        top: Single,
        right: Single,
        bottom: Single,
    ) -> Self {
        Bounds {
            origin: Point { x: ScaledPixels(left), y: ScaledPixels(top) },
            size: Size {
                width: ScaledPixels(Single::difference(right, left)),
                height: ScaledPixels(Single::difference(bottom, top)),
            },
        }
    }

    /// Whether every side of `inner` lies within `self`.
    pub open spec fn encloses(self, inner: Self) -> bool {
        &&& Single::at_most(self.left(), inner.left())
        &&& Single::at_most(self.top(), inner.top())
        &&& Single::at_most(inner.right(), self.right())
        &&& Single::at_most(inner.bottom(), self.bottom())
    }

    /// The least rectangle around both.
    pub open spec fn joined(self, other: Self) -> Self {
        Bounds::between_corners(
            near(self.left(), other.left()),
            near(self.top(), other.top()),
            far(self.right(), other.right()),
            far(self.bottom(), other.bottom()),
        )
    }

    /// What the two have in common.
    pub open spec fn clipped(self, other: Self) -> Self {
        Bounds::between_corners(
            far(self.left(), other.left()),
            far(self.top(), other.top()),
            near(self.right(), other.right()),
            near(self.bottom(), other.bottom()),
        )
    }

    /// The rectangle with `amount` added on every side.
    pub open spec fn grown(self, amount: Single) -> Self {
        Bounds {
            origin: Point {
                x: ScaledPixels(Single::difference(self.origin.x.0, amount)),
                y: ScaledPixels(Single::difference(self.origin.y.0, amount)),
            },
            size: Size {
                width: ScaledPixels(Single::sum(self.size.width.0, Single::sum(amount, amount))),
                height: ScaledPixels(Single::sum(self.size.height.0, Single::sum(amount, amount))),
            },
        }
    }

    /// The number of square pixels.
    pub open spec fn area_of(self) -> Single {
        Single::product(self.size.width.0, self.size.height.0)
    }

    /// Whether there is nothing inside.
    pub open spec fn empty(self) -> bool {
        let zero = Single { bits: 0 };
        Single::at_most(self.size.width.0, zero) || Single::at_most(self.size.height.0, zero)
    }

    /// Whether the two have an inner point in common.
    pub open spec fn overlaps(self, other: Self) -> bool {
        &&& Single::below(self.left(), other.right())
        &&& Single::below(other.left(), self.right())
        &&& Single::below(self.top(), other.bottom())
        &&& Single::below(other.top(), self.bottom())
    }

    /// Whether there is nothing inside.
    pub fn is_empty(&self) -> (empty: bool)
        ensures
            empty == self.empty(),
    {
        let zero = Single { bits: 0 };
        self.size.width.0.le(zero) || self.size.height.0.le(zero)
    }

    /// Whether the two have an inner point in common.
    pub fn intersects(&self, other: &Self) -> (overlap: bool)
        ensures
            overlap == self.overlaps(*other),
    {
        let a = self.bottom_right();
        let b = other.bottom_right();
        self.origin.x.0.lt(b.x.0) && other.origin.x.0.lt(a.x.0) && self.origin.y.0.lt(b.y.0)
            && other.origin.y.0.lt(a.y.0)
    }

    /// The rectangle between two corners.
    pub(crate) fn from_corners(
        left: Single,
        top: Single,
        right: Single,
        bottom: Single,
    ) -> (bounds: Self)
        ensures
            bounds == Self::between_corners(left, top, right, bottom),
    {
        Bounds {
            origin: Point { x: ScaledPixels(left), y: ScaledPixels(top) },
            size: Size {
                width: ScaledPixels(right.minus(left)),
                height: ScaledPixels(bottom.minus(top)),
            },
        }
    }

    /// The corner opposite to the origin.
    pub fn bottom_right(&self) -> (corner: Point<ScaledPixels>)
        ensures
            corner.x.0 == self.right(),
            corner.y.0 == self.bottom(),
    {
        Point {
            x: ScaledPixels(self.origin.x.0.plus(self.size.width.0)),
            y: ScaledPixels(self.origin.y.0.plus(self.size.height.0)),
        }
    }

    /// The least rectangle around both.
    pub fn union(&self, other: &Self) -> (bounds: Self)
        ensures
            bounds == self.joined(*other),
    {
        let a = self.bottom_right();
        let b = other.bottom_right();
        Self::from_corners(
            nearer(self.origin.x.0, other.origin.x.0),
            nearer(self.origin.y.0, other.origin.y.0),
            farther(a.x.0, b.x.0),
            farther(a.y.0, b.y.0),
        )
    }

    /// What the two rectangles have in common.
    pub fn intersect(&self, other: &Self) -> (bounds: Self)
        ensures
            bounds == self.clipped(*other),
    {
        let a = self.bottom_right();
        let b = other.bottom_right();
        Self::from_corners(
            farther(self.origin.x.0, other.origin.x.0),
            farther(self.origin.y.0, other.origin.y.0),
            nearer(a.x.0, b.x.0),
            nearer(a.y.0, b.y.0),
        )
    }

    /// The rectangle with `amount` added on every side.
    pub fn dilate(&self, amount: ScaledPixels) -> (bounds: Self)
        ensures
            bounds == self.grown(amount.0),
    {
        let double = amount.0.plus(amount.0);
        Bounds {
            origin: Point {
                x: ScaledPixels(self.origin.x.0.minus(amount.0)),
                y: ScaledPixels(self.origin.y.0.minus(amount.0)),
            },
            size: Size {
                width: ScaledPixels(self.size.width.0.plus(double)),
                height: ScaledPixels(self.size.height.0.plus(double)),
            },
        }
    }

    /// The number of square pixels.
    pub fn area(&self) -> (area: Single)
        ensures
            area == self.area_of(),
    {
        self.size.width.0.times(self.size.height.0)
    }
}

/// The first of two places along an axis.
pub open spec fn near(a: Single, b: Single) -> Single {
    if Single::at_most(a, b) {
        a
    } else {
        b
    }
}

/// The last of two places along an axis.
pub open spec fn far(a: Single, b: Single) -> Single {
    if Single::below(b, a) {
        a
    } else {
        b
    }
}

fn nearer(a: Single, b: Single) -> (place: Single)
    ensures
        place == near(a, b),
{
    if a.le(b) {
        a
    } else {
        b
    }
}

fn farther(a: Single, b: Single) -> (place: Single)
    ensures
        place == far(a, b),
{
    if b.lt(a) {
        a
    } else {
        b
    }
}

/// Whether `outer` fully contains `inner`.
pub fn covers(outer: &Bounds<ScaledPixels>, inner: &Bounds<ScaledPixels>) -> (contained: bool)
    ensures
        contained == outer.encloses(*inner),
{
    let a = outer.bottom_right();
    let b = inner.bottom_right();
    outer.origin.x.0.le(inner.origin.x.0) && outer.origin.y.0.le(inner.origin.y.0)
        && b.x.0.le(a.x.0) && b.y.0.le(a.y.0)
}

/// Whether a far side is still reached once it is stored as a distance from the near one.
pub open spec fn survives(near_side: Single, far_side: Single) -> bool {
    Single::at_most(
        far_side,
        Single::sum(near_side, Single::difference(far_side, near_side)),
    )
}

/// Whether a far side is the same number once it is stored as a distance from the near
/// one.
#[verifier::opaque]
pub open spec fn rejoins(near_side: Single, far_side: Single) -> bool {
    same_number(Single::sum(near_side, Single::difference(far_side, near_side)), far_side)
}

/// Whether a place is a multiple of `2^k` times the least positive number, no more
/// than `2^23` of them from the origin.
pub open spec fn on_grid(place: Single, k: nat) -> bool {
    let step = pow2(k) as int;
    &&& place.finite()
    &&& place.value() % step == 0
    &&& -(BINADE * step) <= place.value() <= BINADE * step
}

impl Bounds<ScaledPixels> {
    /// Whether every side is a number.
    pub open spec fn regular(self) -> bool {
        !self.left().nan() && !self.top().nan() && !self.right().nan() && !self.bottom().nan()
    }

    /// Whether a position lies inside; the far sides are not part of the inside.
    pub open spec fn holds(self, at: Point<ScaledPixels>) -> bool {
        &&& Single::at_most(self.left(), at.x.0)
        &&& Single::below(at.x.0, self.right())
        &&& Single::at_most(self.top(), at.y.0)
        &&& Single::below(at.y.0, self.bottom())
    }

    /// Whether rounding leaves the far sides of the union of the two in place.
    pub open spec fn joins_soundly(self, other: Self) -> bool {
        &&& self.regular()
        &&& other.regular()
        &&& survives(near(self.left(), other.left()), far(self.right(), other.right()))
        &&& survives(near(self.top(), other.top()), far(self.bottom(), other.bottom()))
    }

    /// Whether the far sides of the union of the two are the same numbers once stored.
    pub open spec fn joins_exactly(self, other: Self) -> bool {
        &&& self.regular()
        &&& other.regular()
        &&& rejoins(near(self.left(), other.left()), far(self.right(), other.right()))
        &&& rejoins(near(self.top(), other.top()), far(self.bottom(), other.bottom()))
    }

    /// Whether the far sides of what the two have in common are the same numbers once
    /// stored.
    pub open spec fn clips_exactly(self, other: Self) -> bool {
        &&& self.regular()
        &&& other.regular()
        &&& rejoins(far(self.left(), other.left()), near(self.right(), other.right()))
        &&& rejoins(far(self.top(), other.top()), near(self.bottom(), other.bottom()))
    }

    /// Whether origin and size are the same numbers.
    pub open spec fn same_numbers(self, other: Self) -> bool {
        &&& same_number(self.origin.x.0, other.origin.x.0)
        &&& same_number(self.origin.y.0, other.origin.y.0)
        &&& same_number(self.size.width.0, other.size.width.0)
        &&& same_number(self.size.height.0, other.size.height.0)
    }

    /// Whether every number is finite and the far sides are the exact sums.
    pub open spec fn exact(self) -> bool {
        &&& self.left().finite() && self.size.width.0.finite() && self.right().finite()
        &&& self.top().finite() && self.size.height.0.finite() && self.bottom().finite()
        &&& self.right().value() == self.left().value() + self.size.width.0.value()
        &&& self.bottom().value() == self.top().value() + self.size.height.0.value()
    }

    /// Whether every side is on the grid of step `2^k`.
    pub open spec fn aligned(self, k: nat) -> bool {
        &&& on_grid(self.left(), k)
        &&& on_grid(self.top(), k)
        &&& on_grid(self.right(), k)
        &&& on_grid(self.bottom(), k)
    }
}

/// Containment carries over.
pub proof fn law_encloses_is_transitive(
    a: Bounds<ScaledPixels>,
    b: Bounds<ScaledPixels>,
    c: Bounds<ScaledPixels>,
)
    requires
        a.encloses(b),
        b.encloses(c),
    ensures
        a.encloses(c),
{
}

/// What lies inside a rectangle lies inside those that contain it.
pub proof fn law_encloses_keeps_inside(
    a: Bounds<ScaledPixels>,
    b: Bounds<ScaledPixels>,
    at: Point<ScaledPixels>,
)
    requires
        a.encloses(b),
        b.holds(at),
    ensures
        a.holds(at),
{
}

/// The union of two rectangles contains both exactly where every side is a number and
/// the far sides of the union survive rounding.
pub proof fn law_union_contains_both(a: Bounds<ScaledPixels>, b: Bounds<ScaledPixels>)
    ensures
        a.joined(b).encloses(a) && a.joined(b).encloses(b) <==> a.joins_soundly(b),
{
}

/// A rectangle contains itself exactly where every side is a number.
pub proof fn law_encloses_is_reflexive(a: Bounds<ScaledPixels>)
    ensures
        a.encloses(a) <==> a.regular(),
{
}

/// Rectangles that contain each other have the same sides and the same inside.
pub proof fn law_encloses_is_antisymmetric(
    a: Bounds<ScaledPixels>,
    b: Bounds<ScaledPixels>,
    at: Point<ScaledPixels>,
)
    requires
        a.encloses(b),
        b.encloses(a),
    ensures
        same_number(a.left(), b.left()),
        same_number(a.top(), b.top()),
        same_number(a.right(), b.right()),
        same_number(a.bottom(), b.bottom()),
        a.holds(at) <==> b.holds(at),
{
}

/// A rectangle contains another that has an inside exactly where every position inside
/// that one is inside it too.
pub proof fn law_covering_is_holding_all(a: Bounds<ScaledPixels>, b: Bounds<ScaledPixels>)
    requires
        Single::below(b.origin.x.0, Single::sum(b.origin.x.0, b.size.width.0)),
        Single::below(b.origin.y.0, Single::sum(b.origin.y.0, b.size.height.0)),
    ensures
        a.encloses(b) <==> forall|at: Point<ScaledPixels>| #[trigger] b.holds(at) ==> a.holds(at),
{
    if forall|at: Point<ScaledPixels>| #[trigger] b.holds(at) ==> a.holds(at) {
        let first = Point { x: ScaledPixels(b.left()), y: ScaledPixels(b.top()) };
        let last = Point {
            x: ScaledPixels(just_below(b.right())),
            y: ScaledPixels(just_below(b.bottom())),
        };
        lemma_just_below(b.left(), b.right());
        lemma_just_below(b.top(), b.bottom());
        assert(b.holds(first));
        assert(b.holds(last));
    }
}

/// The number just below another.
spec fn just_below(a: Single) -> Single {
    let rank: int = a.rank() - 1;
    if rank < 0 {
        Single::signed(true, (-rank) as nat)
    } else {
        Single::signed(false, rank as nat)
    }
}

proof fn lemma_just_below(a: Single, b: Single)
    requires
        Single::below(a, b),
    ensures
        Single::at_most(a, just_below(b)),
        Single::below(just_below(b), b),
        forall|c: Single| Single::below(just_below(b), c) ==> Single::at_most(b, c),
{
}

/// Rectangles that have an inside overlap exactly where a position is inside both.
pub proof fn law_overlap_is_sharing(a: Bounds<ScaledPixels>, b: Bounds<ScaledPixels>)
    requires
        Single::below(a.origin.x.0, Single::sum(a.origin.x.0, a.size.width.0)),
        Single::below(a.origin.y.0, Single::sum(a.origin.y.0, a.size.height.0)),
        Single::below(b.origin.x.0, Single::sum(b.origin.x.0, b.size.width.0)),
        Single::below(b.origin.y.0, Single::sum(b.origin.y.0, b.size.height.0)),
    ensures
        a.overlaps(b) <==> exists|at: Point<ScaledPixels>| #[trigger] a.holds(at) && b.holds(at),
        a.overlaps(b) <==> b.overlaps(a),
{
    if a.overlaps(b) {
        let corner = Point {
            x: ScaledPixels(far(a.left(), b.left())),
            y: ScaledPixels(far(a.top(), b.top())),
        };
        assert(a.holds(corner) && b.holds(corner));
    }
}

/// Whether rectangles contain or overlap each other is told by their sides as numbers,
/// for those that have no inside too.
pub proof fn law_sides_are_compared_as_numbers(a: Bounds<ScaledPixels>, b: Bounds<ScaledPixels>)
    requires
        a.left().finite() && a.right().finite() && a.top().finite() && a.bottom().finite(),
        b.left().finite() && b.right().finite() && b.top().finite() && b.bottom().finite(),
    ensures
        ({
            let (ax, ay) = (a.origin.x.0, a.origin.y.0);
            let (bx, by) = (b.origin.x.0, b.origin.y.0);
            let (ar, ab) = (
                Single::sum(ax, a.size.width.0),
                Single::sum(ay, a.size.height.0),
            );
            let (br, bb) = (
                Single::sum(bx, b.size.width.0),
                Single::sum(by, b.size.height.0),
            );
            &&& a.encloses(b) <==> (ax.value() <= bx.value() && ay.value() <= by.value()
                && br.value() <= ar.value() && bb.value() <= ab.value())
            &&& a.overlaps(b) <==> (ax.value() < br.value() && bx.value() < ar.value()
                && ay.value() < bb.value() && by.value() < ab.value())
        }),
{
    law_order_is_numeric(a.left(), b.left());
    law_order_is_numeric(a.top(), b.top());
    law_order_is_numeric(b.right(), a.right());
    law_order_is_numeric(b.bottom(), a.bottom());
    law_order_is_numeric(a.left(), b.right());
    law_order_is_numeric(b.left(), a.right());
    law_order_is_numeric(a.top(), b.bottom());
    law_order_is_numeric(b.top(), a.bottom());
}

/// A rectangle is empty exactly where one of its extents is zero or less.
pub proof fn law_empty_has_no_extent(bounds: Bounds<ScaledPixels>)
    requires
        bounds.size.width.0.finite(),
        bounds.size.height.0.finite(),
    ensures
        bounds.empty() <==> bounds.size.width.0.value() <= 0 || bounds.size.height.0.value() <= 0,
{
    let zero = Single { bits: 0 };
    law_order_is_numeric(bounds.size.width.0, zero);
    law_order_is_numeric(bounds.size.height.0, zero);
    law_order_is_numeric(zero, zero.negation());
    law_order_is_numeric(zero.negation(), zero);
}

/// The union of two rectangles begins where the nearer of them does, and is as long as
/// single precision holds the way from there to the farther end.
pub proof fn law_union_runs_from_end_to_end(a: Bounds<ScaledPixels>, b: Bounds<ScaledPixels>)
    requires
        a.regular(),
        b.regular(),
    ensures
        ({
            let u = a.joined(b);
            let (x, y) = (u.origin.x.0, u.origin.y.0);
            let (w, h) = (u.size.width.0, u.size.height.0);
            &&& x == a.origin.x.0 || x == b.origin.x.0
            &&& Single::at_most(x, a.origin.x.0) && Single::at_most(x, b.origin.x.0)
            &&& y == a.origin.y.0 || y == b.origin.y.0
            &&& Single::at_most(y, a.origin.y.0) && Single::at_most(y, b.origin.y.0)
            &&& w == Single::difference(a.right(), x) && Single::at_most(b.right(), a.right())
                || w == Single::difference(b.right(), x) && Single::at_most(a.right(), b.right())
            &&& h == Single::difference(a.bottom(), y) && Single::at_most(b.bottom(), a.bottom())
                || h == Single::difference(b.bottom(), y) && Single::at_most(
                a.bottom(),
                b.bottom(),
            )
        }),
{
}

/// What two rectangles have in common begins where the farther of them does, and is as
/// long as single precision holds the way from there to the nearer end.
pub proof fn law_intersection_runs_from_end_to_end(
    a: Bounds<ScaledPixels>,
    b: Bounds<ScaledPixels>,
)
    requires
        a.regular(),
        b.regular(),
    ensures
        ({
            let c = a.clipped(b);
            let (x, y) = (c.origin.x.0, c.origin.y.0);
            let (w, h) = (c.size.width.0, c.size.height.0);
            &&& x == a.origin.x.0 || x == b.origin.x.0
            &&& Single::at_most(a.origin.x.0, x) && Single::at_most(b.origin.x.0, x)
            &&& y == a.origin.y.0 || y == b.origin.y.0
            &&& Single::at_most(a.origin.y.0, y) && Single::at_most(b.origin.y.0, y)
            &&& w == Single::difference(a.right(), x) && Single::at_most(a.right(), b.right())
                || w == Single::difference(b.right(), x) && Single::at_most(b.right(), a.right())
            &&& h == Single::difference(a.bottom(), y) && Single::at_most(a.bottom(), b.bottom())
                || h == Single::difference(b.bottom(), y) && Single::at_most(
                b.bottom(),
                a.bottom(),
            )
        }),
{
}

/// Where its far sides are stored exactly, a position is inside what two rectangles have
/// in common exactly where it is inside both.
pub proof fn law_intersection_holds_what_both_hold(
    a: Bounds<ScaledPixels>,
    b: Bounds<ScaledPixels>,
    at: Point<ScaledPixels>,
)
    requires
        a.clips_exactly(b),
    ensures
        a.clipped(b).holds(at) <==> a.holds(at) && b.holds(at),
{
    reveal(rejoins);
}

/// On a grid that the significand can hold what two rectangles have in common is stored
/// exactly.
pub proof fn law_grid_clips_exactly(a: Bounds<ScaledPixels>, b: Bounds<ScaledPixels>, k: nat)
    requires
        k <= 252,
        a.aligned(k),
        b.aligned(k),
    ensures
        a.clips_exactly(b),
        a.clipped(b).aligned(k),
{
    law_grid_side_survives(far(a.left(), b.left()), near(a.right(), b.right()), k);
    law_grid_side_survives(far(a.top(), b.top()), near(a.bottom(), b.bottom()), k);
}

/// A rectangle that grows by an amount has it added on every side, wherever single
/// precision can hold the numbers: `double` is twice the amount, `to` what comes out.
pub proof fn law_growth_is_exact(
    from: Bounds<ScaledPixels>,
    amount: Single,
    double: Single,
    to: Bounds<ScaledPixels>,
)
    requires
        amount.finite() && double.finite(),
        from.origin.x.0.finite() && from.origin.y.0.finite(),
        from.size.width.0.finite() && from.size.height.0.finite(),
        to.origin.x.0.finite() && to.origin.y.0.finite(),
        to.size.width.0.finite() && to.size.height.0.finite(),
        double.value() == 2 * amount.value(),
        to.origin.x.0.value() == from.origin.x.0.value() - amount.value(),
        to.origin.y.0.value() == from.origin.y.0.value() - amount.value(),
        to.size.width.0.value() == from.size.width.0.value() + 2 * amount.value(),
        to.size.height.0.value() == from.size.height.0.value() + 2 * amount.value(),
    ensures
        from.grown(amount).same_numbers(to),
{
    let back = amount.negation();
    assert(back.finite() && back.value() == -amount.value());
    law_held_sum_is_exact(amount, amount, double);
    let twice = Single::sum(amount, amount);
    lemma_held(from.origin.x.0, back, to.origin.x.0);
    lemma_held(from.origin.y.0, back, to.origin.y.0);
    lemma_held(from.size.width.0, twice, to.size.width.0);
    lemma_held(from.size.height.0, twice, to.size.height.0);
}

proof fn lemma_held(a: Single, b: Single, c: Single)
    requires
        a.finite() && b.finite() && c.finite(),
        c.value() == a.value() + b.value(),
    ensures
        same_number(Single::sum(a, b), c),
{
    law_held_sum_is_exact(a, b, c);
    law_order_is_numeric(Single::sum(a, b), c);
    law_order_is_numeric(c, Single::sum(a, b));
}

/// Where its far sides are stored exactly, the union of two rectangles is the least one
/// that contains both.
pub proof fn law_union_is_least(
    outer: Bounds<ScaledPixels>,
    a: Bounds<ScaledPixels>,
    b: Bounds<ScaledPixels>,
)
    requires
        a.joins_exactly(b),
    ensures
        a.joined(b).encloses(a),
        a.joined(b).encloses(b),
        outer.encloses(a) && outer.encloses(b) <==> outer.encloses(a.joined(b)),
{
    reveal(rejoins);
}

/// On a grid that the significand can hold nothing is rounded: the union of two
/// rectangles has their sides, and is on the grid again.
pub proof fn law_grid_joins_exactly(a: Bounds<ScaledPixels>, b: Bounds<ScaledPixels>, k: nat)
    requires
        k <= 252,
        a.aligned(k),
        b.aligned(k),
    ensures
        a.joins_exactly(b),
        a.joined(b).aligned(k),
{
    law_grid_side_survives(near(a.left(), b.left()), far(a.right(), b.right()), k);
    law_grid_side_survives(near(a.top(), b.top()), far(a.bottom(), b.bottom()), k);
}

/// A far side whose distance from the near one is exact makes an exact span.
pub proof fn law_exact_distance_rejoins(near_side: Single, far_side: Single)
    requires
        near_side.finite(),
        far_side.finite(),
        Single::difference(far_side, near_side).finite(),
        Single::difference(far_side, near_side).value() == far_side.value() - near_side.value(),
    ensures
        rejoins(near_side, far_side),
{
    reveal(rejoins);
    let extent = Single::difference(far_side, near_side);
    let reached = Single::sum(near_side, extent);
    law_held_sum_is_exact(near_side, extent, far_side);
    law_order_is_numeric(reached, far_side);
    law_order_is_numeric(far_side, reached);
}

/// On a grid that the significand can hold every far side survives.
pub proof fn law_grid_side_survives(near_side: Single, far_side: Single, k: nat)
    requires
        k <= 252,
        on_grid(near_side, k),
        on_grid(far_side, k),
    ensures
        survives(near_side, far_side),
        rejoins(near_side, far_side),
        on_grid(Single::sum(near_side, Single::difference(far_side, near_side)), k),
{
    reveal(rejoins);
    let step: int = pow2(k) as int;
    let back = near_side.negation();
    lemma_pow2_pos(k);
    assert(back.finite() && back.value() == -near_side.value());
    lemma_multiples(far_side.value(), near_side.value(), step);
    assert(2 * BINADE * step == 2 * (BINADE * step) && BINADE * step >= 0) by (nonlinear_arith)
        requires
            step > 0,
    ;
    law_sum_on_grid_is_exact(far_side, back, k);
    let extent = Single::difference(far_side, near_side);
    law_sum_on_grid_is_exact(near_side, extent, k);
    let reached = Single::sum(near_side, extent);
    law_order_is_numeric(far_side, reached);
    law_order_is_numeric(reached, far_side);
}

proof fn lemma_multiples(a: int, b: int, step: int)
    requires
        step > 0,
        a % step == 0,
        b % step == 0,
    ensures
        (-b) % step == 0,
        (a - b) % step == 0,
{
    lemma_fundamental_div_mod(a, step);
    lemma_fundamental_div_mod(b, step);
    let p: int = a / step;
    let q: int = b / step;
    assert(-b == (-q) * step && a - b == (p - q) * step) by (nonlinear_arith)
        requires
            a == step * p,
            b == step * q,
    ;
    lemma_mod_multiples_basic(-q, step);
    lemma_mod_multiples_basic(p - q, step);
}

/// The rectangle at a whole position and of a whole extent.
pub open spec fn pixels(x: int, y: int, width: int, height: int) -> Bounds<ScaledPixels> {
    Bounds {
        origin: Point { x: ScaledPixels(Single::whole(x)), y: ScaledPixels(Single::whole(y)) },
        size: Size {
            width: ScaledPixels(Single::whole(width)),
            height: ScaledPixels(Single::whole(height)),
        },
    }
}

/// The smaller of two places.
pub open spec fn first_of(a: int, b: int) -> int {
    if a <= b {
        a
    } else {
        b
    }
}

/// The larger of two places.
pub open spec fn last_of(a: int, b: int) -> int {
    if a <= b {
        b
    } else {
        a
    }
}

/// Whether a span of whole pixels stays within `2^23` of the origin.
pub open spec fn near_origin(at: int, extent: int) -> bool {
    &&& -(BINADE as int) <= at <= BINADE
    &&& -(BINADE as int) <= at + extent <= BINADE
}

/// Rectangles of whole pixels are those of the plane: containment, union and
/// intersection are what they are for whole numbers.
pub proof fn law_pixels_are_exact(
    ax: int,
    ay: int,
    aw: int,
    ah: int,
    bx: int,
    by: int,
    bw: int,
    bh: int,
)
    requires
        near_origin(ax, aw),
        near_origin(ay, ah),
        near_origin(bx, bw),
        near_origin(by, bh),
    ensures
        pixels(ax, ay, aw, ah).encloses(pixels(bx, by, bw, bh)) <==> (ax <= bx && ay <= by
            && bx + bw <= ax + aw && by + bh <= ay + ah),
        pixels(ax, ay, aw, ah).joined(pixels(bx, by, bw, bh)) == pixels(
            first_of(ax, bx),
            first_of(ay, by),
            last_of(ax + aw, bx + bw) - first_of(ax, bx),
            last_of(ay + ah, by + bh) - first_of(ay, by),
        ),
        pixels(ax, ay, aw, ah).clipped(pixels(bx, by, bw, bh)) == pixels(
            last_of(ax, bx),
            last_of(ay, by),
            first_of(ax + aw, bx + bw) - last_of(ax, bx),
            first_of(ay + ah, by + bh) - last_of(ay, by),
        ),
{
    lemma_pixel_spans(ax, aw, bx, bw);
    lemma_pixel_spans(ay, ah, by, bh);
}

/// Rectangles of whole pixels are measured as those of the plane.
pub proof fn law_pixels_are_measured(
    ax: int,
    ay: int,
    aw: int,
    ah: int,
    bx: int,
    by: int,
    bw: int,
    bh: int,
)
    requires
        near_origin(ax, aw),
        near_origin(ay, ah),
        near_origin(bx, bw),
        near_origin(by, bh),
    ensures
        pixels(ax, ay, aw, ah).empty() <==> aw <= 0 || ah <= 0,
        pixels(ax, ay, aw, ah).overlaps(pixels(bx, by, bw, bh)) <==> (ax < bx + bw && bx < ax + aw
            && ay < by + bh && by < ay + ah),
        0 <= aw && 0 <= ah && aw * ah <= 2 * BINADE ==> pixels(ax, ay, aw, ah).area_of()
            == Single::whole(aw * ah),
{
    lemma_pixel_spans(ax, aw, bx, bw);
    lemma_pixel_spans(ay, ah, by, bh);
    law_whole_order(ax, bx + bw);
    law_whole_order(bx, ax + aw);
    law_whole_order(ay, by + bh);
    law_whole_order(by, ay + ah);
    law_whole_order(aw, 0);
    law_whole_order(ah, 0);
    lemma_whole_zero();
    if 0 <= aw && 0 <= ah && aw * ah <= 2 * BINADE {
        law_whole_product(aw, ah);
    }
}

/// A rectangle of whole pixels that grows by whole pixels grows as in the plane, and
/// contains what it was.
pub proof fn law_pixels_grow_exactly(x: int, y: int, w: int, h: int, amount: int)
    requires
        0 <= amount <= BINADE,
        near_origin(x, w),
        near_origin(y, h),
        near_origin(x - amount, w + 2 * amount),
        near_origin(y - amount, h + 2 * amount),
    ensures
        pixels(x, y, w, h).grown(Single::whole(amount)) == pixels(
            x - amount,
            y - amount,
            w + 2 * amount,
            h + 2 * amount,
        ),
        pixels(x, y, w, h).grown(Single::whole(amount)).encloses(pixels(x, y, w, h)),
{
    law_whole_sums(amount, amount);
    law_whole_sums(x, amount);
    law_whole_sums(y, amount);
    law_whole_sums(w, 2 * amount);
    law_whole_sums(h, 2 * amount);
    law_pixels_are_exact(
        x - amount,
        y - amount,
        w + 2 * amount,
        h + 2 * amount,
        x,
        y,
        w,
        h,
    );
}

proof fn lemma_pixel_spans(a: int, aw: int, b: int, bw: int)
    requires
        near_origin(a, aw),
        near_origin(b, bw),
    ensures
        Single::sum(Single::whole(a), Single::whole(aw)) == Single::whole(a + aw),
        Single::sum(Single::whole(b), Single::whole(bw)) == Single::whole(b + bw),
        near(Single::whole(a), Single::whole(b)) == Single::whole(first_of(a, b)),
        far(Single::whole(a), Single::whole(b)) == Single::whole(last_of(a, b)),
        near(Single::whole(a + aw), Single::whole(b + bw)) == Single::whole(
            first_of(a + aw, b + bw),
        ),
        far(Single::whole(a + aw), Single::whole(b + bw)) == Single::whole(last_of(a + aw, b + bw)),
        Single::at_most(Single::whole(a), Single::whole(b)) <==> a <= b,
        Single::at_most(Single::whole(b + bw), Single::whole(a + aw)) <==> b + bw <= a + aw,
        Single::difference(
            Single::whole(last_of(a + aw, b + bw)),
            Single::whole(first_of(a, b)),
        ) == Single::whole(last_of(a + aw, b + bw) - first_of(a, b)),
        Single::difference(
            Single::whole(first_of(a + aw, b + bw)),
            Single::whole(last_of(a, b)),
        ) == Single::whole(first_of(a + aw, b + bw) - last_of(a, b)),
{
    law_whole_sums(a, aw);
    law_whole_sums(b, bw);
    law_whole_order(a, b);
    law_whole_order(b, a);
    law_whole_order(a + aw, b + bw);
    law_whole_order(b + bw, a + aw);
    law_whole_sums(last_of(a + aw, b + bw), first_of(a, b));
    law_whole_sums(first_of(a + aw, b + bw), last_of(a, b));
}

} // verus!
