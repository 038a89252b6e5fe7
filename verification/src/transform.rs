//! Transformations of the plane, and the rectangles around what they move.

use crate::geometry::{
    first_of, last_of, near_origin, pixels, survives, Bounds, Point, ScaledPixels,
};
use crate::rounding::{
    law_magnitude_is_not_rounded, lemma_nearest_exact, lemma_nearest_scale, worth, BINADE,
};
use crate::single::{
    law_held_product_is_exact, law_held_sum_is_exact, law_order_is_numeric,
    law_product_is_monotone, law_sum_is_monotone,
    law_sum_on_grid_is_exact, law_whole_is_exact, law_whole_order, law_whole_sums,
    lemma_product_zero, same_number, Single,
};
use vstd::arithmetic::div_mod::*;
use vstd::arithmetic::power2::*;
use vstd::prelude::*;

verus! {

/// The linear part of a transformation, entry by row and column.
#[derive(Clone, Copy, Debug, Default, PartialEq, Eq, Structural)]
pub struct RotationScale {
    pub m00: Single,
    pub m01: Single,
    pub m10: Single,
    pub m11: Single,
}

/// A transformation of the plane: rotation and scale, then translation.
#[derive(Clone, Copy, Debug, Default, PartialEq, Eq, Structural)]
pub struct TransformationMatrix {
    pub rotation_scale: RotationScale,
    pub translation: Point<Single>,
}

/// Where a position is moved to along one axis: `m * x + n * y + shift`.
pub open spec fn moved(m: Single, n: Single, shift: Single, x: Single, y: Single) -> Single {
    Single::sum(Single::sum(Single::product(m, x), Single::product(n, y)), shift)
}

impl TransformationMatrix {
    /// The horizontal place that a position is moved to.
    pub open spec fn x_of(self, x: Single, y: Single) -> Single {
        moved(self.rotation_scale.m00, self.rotation_scale.m10, self.translation.x, x, y)
    }

    /// The vertical place that a position is moved to.
    pub open spec fn y_of(self, x: Single, y: Single) -> Single {
        moved(self.rotation_scale.m01, self.rotation_scale.m11, self.translation.y, x, y)
    }

    /// The transformation that moves nothing.
    pub open spec fn identity() -> TransformationMatrix {
        let zero = Single { bits: 0 };
        let one = Single { bits: 0x3f80_0000 };
        TransformationMatrix {
            rotation_scale: RotationScale { m00: one, m01: zero, m10: zero, m11: one },
            translation: Point { x: zero, y: zero },
        }
    }

    /// Moves a position: the transpose of `rotation_scale` times it, plus `translation`.
    fn apply(&self, x: Single, y: Single) -> (moved: (Single, Single))
        ensures
            moved.0 == self.x_of(x, y),
            moved.1 == self.y_of(x, y),
    {
        let rs = self.rotation_scale;
        let t = self.translation;
        (
            rs.m00.times(x).plus(rs.m10.times(y)).plus(t.x),
            rs.m01.times(x).plus(rs.m11.times(y)).plus(t.y),
        )
    }
}

/// The bit pattern of the largest finite number.
pub const LARGEST: u32 = 0x7f7f_ffff;

/// The bit pattern of the smallest finite number.
pub const SMALLEST: u32 = 0xff7f_ffff;

/// The smallest of four numbers, those that are not numbers left out.
pub open spec fn least_of(a: Single, b: Single, c: Single, d: Single) -> Single {
    let largest = Single { bits: LARGEST };
    Single::least(Single::least(Single::least(Single::least(largest, a), b), c), d)
}

/// The largest of four numbers, those that are not numbers left out.
pub open spec fn greatest_of(a: Single, b: Single, c: Single, d: Single) -> Single {
    let smallest = Single { bits: SMALLEST };
    Single::greatest(Single::greatest(Single::greatest(Single::greatest(smallest, a), b), c), d)
}

impl Bounds<ScaledPixels> {
    /// The lowest place along one axis that a corner is moved to.
    pub open spec fn lowest(self, m: Single, n: Single, shift: Single) -> Single {
        least_of(
            moved(m, n, shift, self.left(), self.top()),
            moved(m, n, shift, self.right(), self.top()),
            moved(m, n, shift, self.left(), self.bottom()),
            moved(m, n, shift, self.right(), self.bottom()),
        )
    }

    /// The highest place along one axis that a corner is moved to.
    pub open spec fn highest(self, m: Single, n: Single, shift: Single) -> Single {
        greatest_of(
            moved(m, n, shift, self.left(), self.top()),
            moved(m, n, shift, self.right(), self.top()),
            moved(m, n, shift, self.left(), self.bottom()),
            moved(m, n, shift, self.right(), self.bottom()),
        )
    }

    /// The upright rectangle around the four corners, once each is transformed.
    pub open spec fn transformed(self, t: TransformationMatrix) -> Self {
        let rs = t.rotation_scale;
        Bounds::between_corners(
            self.lowest(rs.m00, rs.m10, t.translation.x),
            self.lowest(rs.m01, rs.m11, t.translation.y),
            self.highest(rs.m00, rs.m10, t.translation.x),
            self.highest(rs.m01, rs.m11, t.translation.y),
        )
    }

    /// Whether rounding leaves the far sides of the transformed bounds in place.
    pub open spec fn transforms_soundly(self, t: TransformationMatrix) -> bool {
        let rs = t.rotation_scale;
        &&& survives(
            self.lowest(rs.m00, rs.m10, t.translation.x),
            self.highest(rs.m00, rs.m10, t.translation.x),
        )
        &&& survives(
            self.lowest(rs.m01, rs.m11, t.translation.y),
            self.highest(rs.m01, rs.m11, t.translation.y),
        )
    }

    /// Whether every corner is moved to a place that is a number along one axis.
    pub open spec fn moves_to_numbers(self, m: Single, n: Single, shift: Single) -> bool {
        &&& !moved(m, n, shift, self.left(), self.top()).nan()
        &&& !moved(m, n, shift, self.right(), self.top()).nan()
        &&& !moved(m, n, shift, self.left(), self.bottom()).nan()
        &&& !moved(m, n, shift, self.right(), self.bottom()).nan()
    }

    /// Whether every corner is moved without rounding along one axis.
    pub open spec fn moves_exactly(self, m: Single, n: Single, shift: Single) -> bool {
        &&& exactly_moved(m, n, shift, self.left(), self.top())
        &&& exactly_moved(m, n, shift, self.right(), self.top())
        &&& exactly_moved(m, n, shift, self.left(), self.bottom())
        &&& exactly_moved(m, n, shift, self.right(), self.bottom())
    }

    /// Whether every corner is transformed without rounding.
    pub open spec fn transforms_exactly(self, t: TransformationMatrix) -> bool {
        let rs = t.rotation_scale;
        &&& self.moves_exactly(rs.m00, rs.m10, t.translation.x)
        &&& self.moves_exactly(rs.m01, rs.m11, t.translation.y)
    }
}

/// Whether a position is moved without rounding along one axis.
pub open spec fn exactly_moved(m: Single, n: Single, shift: Single, x: Single, y: Single) -> bool {
    &&& m.finite() && n.finite() && shift.finite() && x.finite() && y.finite()
    &&& moved(m, n, shift, x, y).finite()
    &&& moved(m, n, shift, x, y).value() * pow2(149) == m.value() * x.value() + n.value()
        * y.value() + shift.value() * pow2(149)
}

/// The upright rectangle around a sprite after its transformation, so that a rotated
/// sprite damages its full painted extent.
pub fn transformed_bounds(
    bounds: Bounds<ScaledPixels>,
    transform: &TransformationMatrix,
) -> (around: Bounds<ScaledPixels>)
    ensures
        around == bounds.transformed(*transform),
{
    let l = bounds.origin.x.0;
    let t = bounds.origin.y.0;
    let corner = bounds.bottom_right();
    let r = corner.x.0;
    let b = corner.y.0;
    let (x0, y0) = transform.apply(l, t);
    let (x1, y1) = transform.apply(r, t);
    let (x2, y2) = transform.apply(l, b);
    let (x3, y3) = transform.apply(r, b);
    let largest = Single { bits: LARGEST };
    let smallest = Single { bits: SMALLEST };
    Bounds::from_corners(
        largest.min(x0).min(x1).min(x2).min(x3),
        largest.min(y0).min(y1).min(y2).min(y3),
        smallest.max(x0).max(x1).max(x2).max(x3),
        smallest.max(y0).max(y1).max(y2).max(y3),
    )
}

/// The bounds of a transformed sprite reach every corner that it is moved to, as far as
/// that corner is a number and rounding leaves the far sides in place.
pub proof fn law_transformed_reaches_corners(
    bounds: Bounds<ScaledPixels>,
    t: TransformationMatrix,
    x: Single,
    y: Single,
)
    requires
        x == bounds.left() || x == bounds.right(),
        y == bounds.top() || y == bounds.bottom(),
        !t.x_of(x, y).nan(),
        !t.y_of(x, y).nan(),
        bounds.transforms_soundly(t),
    ensures
        Single::at_most(bounds.transformed(t).left(), t.x_of(x, y)),
        Single::at_most(t.x_of(x, y), bounds.transformed(t).right()),
        Single::at_most(bounds.transformed(t).top(), t.y_of(x, y)),
        Single::at_most(t.y_of(x, y), bounds.transformed(t).bottom()),
{
    let (l, u, r, b) = (bounds.left(), bounds.top(), bounds.right(), bounds.bottom());
    lemma_extremes(t.x_of(l, u), t.x_of(r, u), t.x_of(l, b), t.x_of(r, b), t.x_of(x, y));
    lemma_extremes(t.y_of(l, u), t.y_of(r, u), t.y_of(l, b), t.y_of(r, b), t.y_of(x, y));
}

/// The four places that the corners of a rectangle are moved to along one axis: the entry
/// `m` weighs the horizontal place, `n` the vertical one.
pub open spec fn corner_images(
    bounds: Bounds<ScaledPixels>,
    m: Single,
    n: Single,
    shift: Single,
) -> Seq<Single> {
    let (l, t) = (bounds.origin.x.0, bounds.origin.y.0);
    let r = Single::sum(l, bounds.size.width.0);
    let b = Single::sum(t, bounds.size.height.0);
    seq![
        moved(m, n, shift, l, t),
        moved(m, n, shift, r, t),
        moved(m, n, shift, l, b),
        moved(m, n, shift, r, b),
    ]
}

/// Whether a span begins at the lowest of some places, and is as long as single precision
/// holds the way from there to the highest.
pub open spec fn spans_places(start: Single, extent: Single, places: Seq<Single>) -> bool {
    &&& places.contains(start)
    &&& forall|i: int| 0 <= i < places.len() ==> Single::at_most(start, #[trigger] places[i])
    &&& exists|top: Single| #[trigger]
        places.contains(top) && extent == Single::difference(top, start) && forall|i: int|
            0 <= i < places.len() ==> Single::at_most(#[trigger] places[i], top)
}

/// The transformed bounds run from the first to the last of the places that the corners
/// are moved to, on both axes. The first row of the matrix weighs the horizontal place of
/// a corner, the second row its vertical place.
pub proof fn law_transformed_spans_the_corners(
    bounds: Bounds<ScaledPixels>,
    t: TransformationMatrix,
)
    requires
        forall|i: int|
            0 <= i < 4 ==> (#[trigger] corner_images(
                bounds,
                t.rotation_scale.m00,
                t.rotation_scale.m10,
                t.translation.x,
            )[i]).finite(),
        forall|i: int|
            0 <= i < 4 ==> (#[trigger] corner_images(
                bounds,
                t.rotation_scale.m01,
                t.rotation_scale.m11,
                t.translation.y,
            )[i]).finite(),
    ensures
        spans_places(
            bounds.transformed(t).origin.x.0,
            bounds.transformed(t).size.width.0,
            corner_images(bounds, t.rotation_scale.m00, t.rotation_scale.m10, t.translation.x),
        ),
        spans_places(
            bounds.transformed(t).origin.y.0,
            bounds.transformed(t).size.height.0,
            corner_images(bounds, t.rotation_scale.m01, t.rotation_scale.m11, t.translation.y),
        ),
{
    let rs = t.rotation_scale;
    lemma_spans_corners(bounds, rs.m00, rs.m10, t.translation.x);
    lemma_spans_corners(bounds, rs.m01, rs.m11, t.translation.y);
}

proof fn lemma_spans_corners(bounds: Bounds<ScaledPixels>, m: Single, n: Single, shift: Single)
    requires
        forall|i: int|
            0 <= i < 4 ==> (#[trigger] corner_images(bounds, m, n, shift)[i]).finite(),
    ensures
        spans_places(
            bounds.lowest(m, n, shift),
            Single::difference(bounds.highest(m, n, shift), bounds.lowest(m, n, shift)),
            corner_images(bounds, m, n, shift),
        ),
{
    let places = corner_images(bounds, m, n, shift);
    assert(places[0].finite() && places[1].finite() && places[2].finite() && places[3].finite());
    lemma_spans_four(places[0], places[1], places[2], places[3]);
}

proof fn lemma_spans_four(p: Single, q: Single, v: Single, w: Single)
    requires
        p.finite() && q.finite() && v.finite() && w.finite(),
    ensures
        spans_places(
            least_of(p, q, v, w),
            Single::difference(greatest_of(p, q, v, w), least_of(p, q, v, w)),
            seq![p, q, v, w],
        ),
{
    let places = seq![p, q, v, w];
    let low = least_of(p, q, v, w);
    let high = greatest_of(p, q, v, w);
    assert(places[0] == p && places[1] == q && places[2] == v && places[3] == w);
    lemma_among_four(p, q, v, w);
    assert(places.contains(low) && places.contains(high));
    assert forall|i: int| 0 <= i < places.len() implies Single::at_most(low, #[trigger] places[i])
        && Single::at_most(places[i], high) by {
        lemma_extremes(p, q, v, w, places[i]);
    }
}

proof fn lemma_among_four(p: Single, q: Single, v: Single, w: Single)
    requires
        p.finite() && q.finite() && v.finite() && w.finite(),
    ensures
        least_of(p, q, v, w) == p || least_of(p, q, v, w) == q || least_of(p, q, v, w) == v
            || least_of(p, q, v, w) == w,
        greatest_of(p, q, v, w) == p || greatest_of(p, q, v, w) == q || greatest_of(p, q, v, w)
            == v || greatest_of(p, q, v, w) == w,
{
    lemma_extreme_values(p, q, v, w);
}

/// A rotated sprite damages its full painted extent: every position inside its bounds is
/// moved to a place inside the transformed bounds. Rounding on the way there does no
/// harm, since it keeps the order; it must leave the far sides in place.
pub proof fn law_transformed_reaches_every_point(
    bounds: Bounds<ScaledPixels>,
    t: TransformationMatrix,
    x: Single,
    y: Single,
)
    requires
        Single::at_most(bounds.left(), x),
        Single::at_most(x, bounds.right()),
        Single::at_most(bounds.top(), y),
        Single::at_most(y, bounds.bottom()),
        bounds.moves_to_numbers(t.rotation_scale.m00, t.rotation_scale.m10, t.translation.x),
        bounds.moves_to_numbers(t.rotation_scale.m01, t.rotation_scale.m11, t.translation.y),
        !t.x_of(x, y).nan(),
        !t.y_of(x, y).nan(),
        bounds.transforms_soundly(t),
    ensures
        Single::at_most(bounds.transformed(t).left(), t.x_of(x, y)),
        Single::at_most(t.x_of(x, y), bounds.transformed(t).right()),
        Single::at_most(bounds.transformed(t).top(), t.y_of(x, y)),
        Single::at_most(t.y_of(x, y), bounds.transformed(t).bottom()),
{
    let rs = t.rotation_scale;
    lemma_between_corners(bounds, rs.m00, rs.m10, t.translation.x, x, y);
    lemma_between_corners(bounds, rs.m01, rs.m11, t.translation.y, x, y);
}

/// Where the corners are transformed without rounding, the exact image of every point of
/// the plane inside the bounds lies inside the transformed bounds, be the point
/// `(x / d, y / d)` one that single precision can hold or not. Values count multiples of
/// the least positive number, `2^-149`, so the products of two are held against the sides
/// times `2^149`.
pub proof fn law_transformed_holds_exact_images(
    bounds: Bounds<ScaledPixels>,
    t: TransformationMatrix,
    x: int,
    y: int,
    d: int,
)
    requires
        d > 0,
        bounds.left().value() * d <= x <= bounds.right().value() * d,
        bounds.top().value() * d <= y <= bounds.bottom().value() * d,
        bounds.transforms_exactly(t),
        bounds.transforms_soundly(t),
        bounds.transformed(t).right().finite(),
        bounds.transformed(t).bottom().finite(),
    ensures
        ({
            let rs = t.rotation_scale;
            let image_x: int = rs.m00.value() * x + rs.m10.value() * y
                + t.translation.x.value() * pow2(149) * d;
            let image_y: int = rs.m01.value() * x + rs.m11.value() * y
                + t.translation.y.value() * pow2(149) * d;
            let around = bounds.transformed(t);
            &&& around.left().value() * pow2(149) * d <= image_x
            &&& image_x <= around.right().value() * pow2(149) * d
            &&& around.top().value() * pow2(149) * d <= image_y
            &&& image_y <= around.bottom().value() * pow2(149) * d
        }),
{
    let rs = t.rotation_scale;
    let around = bounds.transformed(t);
    lemma_exact_between_corners(bounds, rs.m00, rs.m10, t.translation.x, x, y, d);
    lemma_exact_between_corners(bounds, rs.m01, rs.m11, t.translation.y, x, y, d);
    lemma_survivor_reaches(
        bounds.highest(rs.m00, rs.m10, t.translation.x),
        around.right(),
        d,
    );
    lemma_survivor_reaches(
        bounds.highest(rs.m01, rs.m11, t.translation.y),
        around.bottom(),
        d,
    );
}

/// Where the corners are transformed without rounding, moving the translation by
/// `(dx, dy)` moves the transformed bounds by it and leaves their size as it is.
pub proof fn law_translation_moves_transformed(
    bounds: Bounds<ScaledPixels>,
    t: TransformationMatrix,
    u: TransformationMatrix,
    dx: Single,
    dy: Single,
)
    requires
        bounds.transforms_exactly(t),
        bounds.transforms_exactly(u),
        u.rotation_scale == t.rotation_scale,
        dx.finite(),
        dy.finite(),
        u.translation.x.value() == t.translation.x.value() + dx.value(),
        u.translation.y.value() == t.translation.y.value() + dy.value(),
    ensures
        bounds.transformed(u).left().value() == bounds.transformed(t).left().value() + dx.value(),
        bounds.transformed(u).top().value() == bounds.transformed(t).top().value() + dy.value(),
        same_number(
            bounds.transformed(u).left(),
            Single::sum(bounds.transformed(t).left(), dx),
        ),
        same_number(bounds.transformed(u).top(), Single::sum(bounds.transformed(t).top(), dy)),
        bounds.transformed(u).size == bounds.transformed(t).size,
{
    let rs = t.rotation_scale;
    lemma_axis_shifts(bounds, rs.m00, rs.m10, t.translation.x, u.translation.x, dx);
    lemma_axis_shifts(bounds, rs.m01, rs.m11, t.translation.y, u.translation.y, dy);
}

/// Whether a number is the negative zero.
pub open spec fn negative_zero(a: Single) -> bool {
    a.negative() && a.magnitude() == 0
}

/// The identity gives the bounds back where their far sides are exact and their extent is
/// not negative: number for number, and bit for bit where there is no negative zero.
pub proof fn law_identity_gives_bounds_back(bounds: Bounds<ScaledPixels>)
    requires
        bounds.left().finite() && bounds.top().finite(),
        bounds.size.width.0.finite() && bounds.size.height.0.finite(),
        bounds.size.width.0.value() >= 0,
        bounds.size.height.0.value() >= 0,
        bounds.right().finite() && bounds.bottom().finite(),
        bounds.right().value() == bounds.left().value() + bounds.size.width.0.value(),
        bounds.bottom().value() == bounds.top().value() + bounds.size.height.0.value(),
    ensures
        ({
            let back = bounds.transformed(TransformationMatrix::identity());
            &&& same_number(back.origin.x.0, bounds.origin.x.0)
            &&& same_number(back.origin.y.0, bounds.origin.y.0)
            &&& same_number(back.size.width.0, bounds.size.width.0)
            &&& same_number(back.size.height.0, bounds.size.height.0)
            &&& !negative_zero(bounds.origin.x.0) && !negative_zero(bounds.origin.y.0)
                && !negative_zero(bounds.size.width.0) && !negative_zero(bounds.size.height.0)
                ==> back == bounds
        }),
{
    let (l, u, r, b) = (bounds.left(), bounds.top(), bounds.right(), bounds.bottom());
    let t = TransformationMatrix::identity();
    lemma_unit_moves(l, u);
    lemma_unit_moves(r, u);
    lemma_unit_moves(l, b);
    lemma_unit_moves(r, b);
    lemma_span_back(
        l,
        bounds.size.width.0,
        r,
        t.x_of(l, u),
        t.x_of(r, u),
        t.x_of(l, b),
        t.x_of(r, b),
    );
    lemma_span_back(
        u,
        bounds.size.height.0,
        b,
        t.y_of(l, u),
        t.y_of(l, b),
        t.y_of(r, u),
        t.y_of(r, b),
    );
    lemma_extremes_swap(t.y_of(l, u), t.y_of(r, u), t.y_of(l, b), t.y_of(r, b));
}

/// A position is moved to `m * x + n * y + shift` without rounding, wherever single
/// precision can hold the steps on the way: `p` the first product, `q` the second, `r`
/// their sum, and `w` what comes out.
pub proof fn law_held_steps_move_exactly(
    m: Single,
    n: Single,
    shift: Single,
    x: Single,
    y: Single,
    p: Single,
    q: Single,
    r: Single,
    w: Single,
)
    requires
        m.finite() && n.finite() && shift.finite() && x.finite() && y.finite(),
        p.finite() && q.finite() && r.finite() && w.finite(),
        p.value() * pow2(149) == m.value() * x.value(),
        q.value() * pow2(149) == n.value() * y.value(),
        r.value() == p.value() + q.value(),
        w.value() == r.value() + shift.value(),
    ensures
        exactly_moved(m, n, shift, x, y),
        moved(m, n, shift, x, y).value() == w.value(),
        w.value() * pow2(149) == m.value() * x.value() + n.value() * y.value() + shift.value()
            * pow2(149),
{
    let step: int = pow2(149) as int;
    law_held_product_is_exact(m, x, p);
    law_held_product_is_exact(n, y, q);
    law_held_sum_is_exact(Single::product(m, x), Single::product(n, y), r);
    law_held_sum_is_exact(
        Single::sum(Single::product(m, x), Single::product(n, y)),
        shift,
        w,
    );
    let (a, b, c): (int, int, int) = (p.value(), q.value(), shift.value());
    assert((a + b + c) * step == a * step + b * step + c * step) by (nonlinear_arith);
}

/// Where whole numbers are moved to along one axis.
pub open spec fn image(m: int, n: int, shift: int, x: int, y: int) -> int {
    m * x + n * y + shift
}

/// Whether whole numbers stay within `2^24` on the way to where they are moved, and within
/// `2^23` there.
pub open spec fn moves_nearby(m: int, n: int, shift: int, x: int, y: int) -> bool {
    &&& -(2 * BINADE) <= m <= 2 * BINADE
    &&& -(2 * BINADE) <= n <= 2 * BINADE
    &&& -(2 * BINADE) <= shift <= 2 * BINADE
    &&& -(2 * BINADE) <= x <= 2 * BINADE
    &&& -(2 * BINADE) <= y <= 2 * BINADE
    &&& -(2 * BINADE) <= m * x <= 2 * BINADE
    &&& -(2 * BINADE) <= n * y <= 2 * BINADE
    &&& -(2 * BINADE) <= m * x + n * y <= 2 * BINADE
    &&& -(BINADE as int) <= image(m, n, shift, x, y) <= BINADE
}

/// Whole numbers are moved without rounding, to where they are moved in the plane.
pub proof fn law_whole_moves_exactly(m: int, n: int, shift: int, x: int, y: int)
    requires
        moves_nearby(m, n, shift, x, y),
    ensures
        exactly_moved(
            Single::whole(m),
            Single::whole(n),
            Single::whole(shift),
            Single::whole(x),
            Single::whole(y),
        ),
        moved(
            Single::whole(m),
            Single::whole(n),
            Single::whole(shift),
            Single::whole(x),
            Single::whole(y),
        ) == Single::whole(image(m, n, shift, x, y)),
{
    let step: int = pow2(149) as int;
    lemma_pow2_pos(149);
    law_whole_is_exact(m);
    law_whole_is_exact(n);
    law_whole_is_exact(shift);
    law_whole_is_exact(x);
    law_whole_is_exact(y);
    lemma_whole_product_value(m, x);
    lemma_whole_product_value(n, y);
    let (mx, ny): (int, int) = (m * x, n * y);
    let a = Single::product(Single::whole(m), Single::whole(x));
    let b = Single::product(Single::whole(n), Single::whole(y));
    lemma_steps_add(a, mx, b, ny);
    let c = Single::sum(a, b);
    lemma_steps_add(c, mx + ny, Single::whole(shift), shift);
    lemma_steps_multiply(m, x, step);
    lemma_steps_multiply(n, y, step);
    assert((mx + ny + shift) * step * step == mx * step * step + ny * step * step + shift * step
        * step) by (nonlinear_arith);
    lemma_ends_whole(c, mx + ny, shift);
}

/// The place that a whole rectangle's corners are moved to that is lowest along one axis.
pub open spec fn lowest_image(m: int, n: int, shift: int, l: int, u: int, r: int, b: int) -> int {
    first_of(
        first_of(image(m, n, shift, l, u), image(m, n, shift, r, u)),
        first_of(image(m, n, shift, l, b), image(m, n, shift, r, b)),
    )
}

/// The place that a whole rectangle's corners are moved to that is highest along one axis.
pub open spec fn highest_image(m: int, n: int, shift: int, l: int, u: int, r: int, b: int) -> int {
    last_of(
        last_of(image(m, n, shift, l, u), image(m, n, shift, r, u)),
        last_of(image(m, n, shift, l, b), image(m, n, shift, r, b)),
    )
}

/// Whether the corners of a whole rectangle all stay near enough along one axis.
pub open spec fn corners_nearby(
    m: int,
    n: int,
    shift: int,
    l: int,
    u: int,
    r: int,
    b: int,
) -> bool {
    &&& moves_nearby(m, n, shift, l, u)
    &&& moves_nearby(m, n, shift, r, u)
    &&& moves_nearby(m, n, shift, l, b)
    &&& moves_nearby(m, n, shift, r, b)
}

/// The transformation with whole entries.
pub open spec fn whole_matrix(
    m00: int,
    m01: int,
    m10: int,
    m11: int,
    dx: int,
    dy: int,
) -> TransformationMatrix {
    TransformationMatrix {
        rotation_scale: RotationScale {
            m00: Single::whole(m00),
            m01: Single::whole(m01),
            m10: Single::whole(m10),
            m11: Single::whole(m11),
        },
        translation: Point { x: Single::whole(dx), y: Single::whole(dy) },
    }
}

/// A rectangle of whole pixels that a matrix of whole numbers moves (a quarter turn, a
/// mirror image, a whole scale) is transformed as in the plane, and nothing is rounded.
pub proof fn law_pixels_transform_exactly(
    x: int,
    y: int,
    w: int,
    h: int,
    m00: int,
    m01: int,
    m10: int,
    m11: int,
    dx: int,
    dy: int,
)
    requires
        near_origin(x, w),
        near_origin(y, h),
        corners_nearby(m00, m10, dx, x, y, x + w, y + h),
        corners_nearby(m01, m11, dy, x, y, x + w, y + h),
    ensures
        pixels(x, y, w, h).transforms_exactly(whole_matrix(m00, m01, m10, m11, dx, dy)),
        pixels(x, y, w, h).transforms_soundly(whole_matrix(m00, m01, m10, m11, dx, dy)),
        ({
            let left: int = lowest_image(m00, m10, dx, x, y, x + w, y + h);
            let top: int = lowest_image(m01, m11, dy, x, y, x + w, y + h);
            let right: int = highest_image(m00, m10, dx, x, y, x + w, y + h);
            let bottom: int = highest_image(m01, m11, dy, x, y, x + w, y + h);
            pixels(x, y, w, h).transformed(whole_matrix(m00, m01, m10, m11, dx, dy)) == pixels(
                left,
                top,
                right - left,
                bottom - top,
            )
        }),
{
    law_whole_sums(x, w);
    law_whole_sums(y, h);
    lemma_whole_axis(pixels(x, y, w, h), m00, m10, dx, x, y, x + w, y + h);
    lemma_whole_axis(pixels(x, y, w, h), m01, m11, dy, x, y, x + w, y + h);
}

proof fn lemma_whole_axis(
    bounds: Bounds<ScaledPixels>,
    m: int,
    n: int,
    shift: int,
    l: int,
    u: int,
    r: int,
    b: int,
)
    requires
        bounds.left() == Single::whole(l),
        bounds.top() == Single::whole(u),
        bounds.right() == Single::whole(r),
        bounds.bottom() == Single::whole(b),
        corners_nearby(m, n, shift, l, u, r, b),
    ensures
        bounds.moves_exactly(Single::whole(m), Single::whole(n), Single::whole(shift)),
        ({
            let low: int = lowest_image(m, n, shift, l, u, r, b);
            let high: int = highest_image(m, n, shift, l, u, r, b);
            &&& bounds.lowest(Single::whole(m), Single::whole(n), Single::whole(shift))
                == Single::whole(low)
            &&& bounds.highest(Single::whole(m), Single::whole(n), Single::whole(shift))
                == Single::whole(high)
            &&& survives(Single::whole(low), Single::whole(high))
            &&& Single::difference(Single::whole(high), Single::whole(low)) == Single::whole(
                high - low,
            )
        }),
{
    law_whole_moves_exactly(m, n, shift, l, u);
    law_whole_moves_exactly(m, n, shift, r, u);
    law_whole_moves_exactly(m, n, shift, l, b);
    law_whole_moves_exactly(m, n, shift, r, b);
    lemma_whole_extremes(
        image(m, n, shift, l, u),
        image(m, n, shift, r, u),
        image(m, n, shift, l, b),
        image(m, n, shift, r, b),
    );
    lemma_whole_span(
        lowest_image(m, n, shift, l, u, r, b),
        highest_image(m, n, shift, l, u, r, b),
    );
}

proof fn lemma_whole_span(low: int, high: int)
    requires
        -(BINADE as int) <= low <= BINADE,
        -(BINADE as int) <= high <= BINADE,
    ensures
        survives(Single::whole(low), Single::whole(high)),
        Single::difference(Single::whole(high), Single::whole(low)) == Single::whole(high - low),
{
    law_whole_sums(high, low);
    law_whole_sums(low, high - low);
    law_whole_order(high, high);
}

/// The extremes of four whole numbers.
proof fn lemma_whole_extremes(a: int, b: int, c: int, d: int)
    requires
        -(BINADE as int) <= a <= BINADE,
        -(BINADE as int) <= b <= BINADE,
        -(BINADE as int) <= c <= BINADE,
        -(BINADE as int) <= d <= BINADE,
    ensures
        least_of(Single::whole(a), Single::whole(b), Single::whole(c), Single::whole(d))
            == Single::whole(first_of(first_of(a, b), first_of(c, d))),
        greatest_of(Single::whole(a), Single::whole(b), Single::whole(c), Single::whole(d))
            == Single::whole(last_of(last_of(a, b), last_of(c, d))),
{
    let low: int = first_of(first_of(a, b), c);
    let high: int = last_of(last_of(a, b), c);
    lemma_whole_starts(a);
    lemma_whole_pair(a, b);
    lemma_whole_pair(first_of(a, b), c);
    lemma_whole_pair(last_of(a, b), c);
    lemma_whole_pair(low, d);
    lemma_whole_pair(high, d);
}

/// A whole number lies between the extreme numbers that the search starts from.
proof fn lemma_whole_starts(a: int)
    requires
        -(BINADE as int) <= a <= BINADE,
    ensures
        Single::least(Single { bits: LARGEST }, Single::whole(a)) == Single::whole(a),
        Single::greatest(Single { bits: SMALLEST }, Single::whole(a)) == Single::whole(a),
{
    law_whole_is_exact(a);
}

/// The extremes of two whole numbers.
proof fn lemma_whole_pair(a: int, b: int)
    requires
        -(BINADE as int) <= a <= BINADE,
        -(BINADE as int) <= b <= BINADE,
    ensures
        Single::least(Single::whole(a), Single::whole(b)) == Single::whole(first_of(a, b)),
        Single::greatest(Single::whole(a), Single::whole(b)) == Single::whole(last_of(a, b)),
{
    law_whole_is_exact(a);
    law_whole_is_exact(b);
    law_whole_order(a, b);
    law_whole_order(b, a);
}

/// A sum that ends with a whole number is no negative zero.
proof fn lemma_ends_whole(a: Single, i: int, shift: int)
    requires
        a.finite(),
        a.value() == i * pow2(149),
        -(2 * BINADE) <= shift <= 2 * BINADE,
        -(2 * BINADE) <= i + shift <= 2 * BINADE,
    ensures
        Single::sum(a, Single::whole(shift)) == Single::whole(i + shift),
{
    let step: int = pow2(149) as int;
    lemma_pow2_pos(149);
    law_whole_is_exact(shift);
    law_whole_is_exact(i + shift);
    lemma_steps_add(a, i, Single::whole(shift), shift);
    assert(i + shift != 0 ==> (i + shift) * step != 0) by (nonlinear_arith)
        requires
            step > 0,
    ;
    lemma_same_bits(Single::sum(a, Single::whole(shift)), Single::whole(i + shift));
    let zero = Single { bits: 0 };
    lemma_zero_value(zero);
    if i + shift == 0 {
        assert(i * step + shift * step == (i + shift) * step) by (nonlinear_arith);
        assert(shift < 0 ==> i * step > 0) by (nonlinear_arith)
            requires
                i + shift == 0,
                step > 0,
        ;
    } else {
        if negative_zero(Single::sum(a, Single::whole(shift))) {
            lemma_zero_value(Single::sum(a, Single::whole(shift)));
        }
    }
}

proof fn lemma_steps_multiply(a: int, b: int, step: int)
    by (nonlinear_arith)
    ensures
        (a * step) * (b * step) == a * b * step * step,
{
}

proof fn lemma_extremes(a: Single, b: Single, c: Single, d: Single, one: Single)
    requires
        one == a || one == b || one == c || one == d,
        !one.nan(),
    ensures
        Single::at_most(least_of(a, b, c, d), one),
        Single::at_most(one, greatest_of(a, b, c, d)),
{
}

/// Along one axis every position is moved to a place between those of the corners.
proof fn lemma_between_corners(
    bounds: Bounds<ScaledPixels>,
    m: Single,
    n: Single,
    shift: Single,
    x: Single,
    y: Single,
)
    requires
        Single::at_most(bounds.left(), x),
        Single::at_most(x, bounds.right()),
        Single::at_most(bounds.top(), y),
        Single::at_most(y, bounds.bottom()),
        bounds.moves_to_numbers(m, n, shift),
        !moved(m, n, shift, x, y).nan(),
    ensures
        Single::at_most(bounds.lowest(m, n, shift), moved(m, n, shift, x, y)),
        Single::at_most(moved(m, n, shift, x, y), bounds.highest(m, n, shift)),
{
    let (l, u, r, b) = (bounds.left(), bounds.top(), bounds.right(), bounds.bottom());
    let (low_x, high_x) = if m.rank() >= 0 {
        (l, r)
    } else {
        (r, l)
    };
    let (low_y, high_y) = if n.rank() >= 0 {
        (u, b)
    } else {
        (b, u)
    };
    law_product_is_monotone(m, l, x);
    law_product_is_monotone(m, x, r);
    law_product_is_monotone(n, u, y);
    law_product_is_monotone(n, y, b);
    let px = Single::product(m, x);
    let py = Single::product(n, y);
    let low_px = Single::product(m, low_x);
    let low_py = Single::product(n, low_y);
    let high_px = Single::product(m, high_x);
    let high_py = Single::product(n, high_y);
    law_sum_is_monotone(low_px, px, low_py, py);
    law_sum_is_monotone(px, high_px, py, high_py);
    law_sum_is_monotone(Single::sum(low_px, low_py), Single::sum(px, py), shift, shift);
    law_sum_is_monotone(Single::sum(px, py), Single::sum(high_px, high_py), shift, shift);
    let (p, q, v, w) = (
        moved(m, n, shift, l, u),
        moved(m, n, shift, r, u),
        moved(m, n, shift, l, b),
        moved(m, n, shift, r, b),
    );
    lemma_extremes(p, q, v, w, moved(m, n, shift, low_x, low_y));
    lemma_extremes(p, q, v, w, moved(m, n, shift, high_x, high_y));
}

/// Along one axis the exact image of every point lies between those of the corners.
proof fn lemma_exact_between_corners(
    bounds: Bounds<ScaledPixels>,
    m: Single,
    n: Single,
    shift: Single,
    x: int,
    y: int,
    d: int,
)
    requires
        d > 0,
        bounds.left().value() * d <= x <= bounds.right().value() * d,
        bounds.top().value() * d <= y <= bounds.bottom().value() * d,
        bounds.moves_exactly(m, n, shift),
    ensures
        bounds.lowest(m, n, shift).finite(),
        bounds.highest(m, n, shift).finite(),
        bounds.lowest(m, n, shift).value() * pow2(149) * d <= m.value() * x + n.value() * y
            + shift.value() * pow2(149) * d,
        m.value() * x + n.value() * y + shift.value() * pow2(149) * d <= bounds.highest(
            m,
            n,
            shift,
        ).value() * pow2(149) * d,
{
    let (l, u, r, b) = (bounds.left(), bounds.top(), bounds.right(), bounds.bottom());
    let step: int = pow2(149) as int;
    lemma_pow2_pos(149);
    let (p, q, v, w) = (
        moved(m, n, shift, l, u),
        moved(m, n, shift, r, u),
        moved(m, n, shift, l, b),
        moved(m, n, shift, r, b),
    );
    let (low_x, high_x) = if m.value() >= 0 {
        (l, r)
    } else {
        (r, l)
    };
    let (low_y, high_y) = if n.value() >= 0 {
        (u, b)
    } else {
        (b, u)
    };
    lemma_linear_between(m.value(), low_x.value(), x, high_x.value(), d);
    lemma_linear_between(n.value(), low_y.value(), y, high_y.value(), d);
    lemma_extreme_values(p, q, v, w);
    let low: int = bounds.lowest(m, n, shift).value();
    let high: int = bounds.highest(m, n, shift).value();
    let at_low: int = moved(m, n, shift, low_x, low_y).value();
    let at_high: int = moved(m, n, shift, high_x, high_y).value();
    let s: int = shift.value();
    assert(low * step * d <= at_low * step * d) by (nonlinear_arith)
        requires
            low <= at_low,
            step > 0,
            d > 0,
    ;
    assert(at_high * step * d <= high * step * d) by (nonlinear_arith)
        requires
            at_high <= high,
            step > 0,
            d > 0,
    ;
    assert(at_low * step * d == m.value() * low_x.value() * d + n.value() * low_y.value() * d + s
        * step * d) by (nonlinear_arith)
        requires
            at_low * step == m.value() * low_x.value() + n.value() * low_y.value() + s * step,
    ;
    assert(at_high * step * d == m.value() * high_x.value() * d + n.value() * high_y.value() * d + s
        * step * d) by (nonlinear_arith)
        requires
            at_high * step == m.value() * high_x.value() + n.value() * high_y.value() + s * step,
    ;
}

/// A multiple lies between the multiples of what the number lies between.
proof fn lemma_linear_between(m: int, low: int, x: int, high: int, d: int)
    requires
        m >= 0 ==> low * d <= x <= high * d,
        m < 0 ==> high * d <= x <= low * d,
    ensures
        m * low * d <= m * x <= m * high * d,
{
    assert(m * low * d == m * (low * d) && m * high * d == m * (high * d)) by (nonlinear_arith);
    if m >= 0 {
        assert(m * (low * d) <= m * x <= m * (high * d)) by (nonlinear_arith)
            requires
                m >= 0,
                low * d <= x <= high * d,
        ;
    } else {
        assert(m * (low * d) <= m * x <= m * (high * d)) by (nonlinear_arith)
            requires
                m < 0,
                high * d <= x <= low * d,
        ;
    }
}

/// A far side that survives is not nearer than it was.
proof fn lemma_survivor_reaches(side: Single, reached: Single, d: int)
    requires
        d > 0,
        side.finite(),
        reached.finite(),
        Single::at_most(side, reached),
    ensures
        side.value() * pow2(149) * d <= reached.value() * pow2(149) * d,
{
    let step: int = pow2(149) as int;
    lemma_pow2_pos(149);
    law_order_is_numeric(side, reached);
    assert(side.value() * step * d <= reached.value() * step * d) by (nonlinear_arith)
        requires
            side.value() <= reached.value(),
            step > 0,
            d > 0,
    ;
}

/// The extremes of four finite numbers are among them, and are the first of them where
/// all are worth the same.
proof fn lemma_extreme_values(a: Single, b: Single, c: Single, d: Single)
    requires
        a.finite(),
        b.finite(),
        c.finite(),
        d.finite(),
    ensures
        ({
            let low = least_of(a, b, c, d);
            let high = greatest_of(a, b, c, d);
            &&& low == a || low == b || low == c || low == d
            &&& high == a || high == b || high == c || high == d
            &&& low.value() <= a.value() <= high.value()
            &&& low.value() <= b.value() <= high.value()
            &&& low.value() <= c.value() <= high.value()
            &&& low.value() <= d.value() <= high.value()
            &&& low.value() == high.value() ==> low == a && high == a
        }),
{
    let low = least_of(a, b, c, d);
    let high = greatest_of(a, b, c, d);
    law_order_is_numeric(low, a);
    law_order_is_numeric(low, b);
    law_order_is_numeric(low, c);
    law_order_is_numeric(low, d);
    law_order_is_numeric(a, high);
    law_order_is_numeric(b, high);
    law_order_is_numeric(c, high);
    law_order_is_numeric(d, high);
    law_order_is_numeric(a, low);
    law_order_is_numeric(b, low);
    law_order_is_numeric(c, low);
    law_order_is_numeric(d, low);
}

/// Along one axis a change of the shift moves both extremes by it.
proof fn lemma_axis_shifts(
    bounds: Bounds<ScaledPixels>,
    m: Single,
    n: Single,
    s: Single,
    t: Single,
    change: Single,
)
    requires
        bounds.moves_exactly(m, n, s),
        bounds.moves_exactly(m, n, t),
        change.finite(),
        t.value() == s.value() + change.value(),
    ensures
        bounds.lowest(m, n, t).value() == bounds.lowest(m, n, s).value() + change.value(),
        same_number(bounds.lowest(m, n, t), Single::sum(bounds.lowest(m, n, s), change)),
        Single::difference(bounds.highest(m, n, t), bounds.lowest(m, n, t)) == Single::difference(
            bounds.highest(m, n, s),
            bounds.lowest(m, n, s),
        ),
{
    let (l, u, r, b) = (bounds.left(), bounds.top(), bounds.right(), bounds.bottom());
    lemma_corner_shifts(m, n, s, t, change, l, u);
    lemma_corner_shifts(m, n, s, t, change, r, u);
    lemma_corner_shifts(m, n, s, t, change, l, b);
    lemma_corner_shifts(m, n, s, t, change, r, b);
    lemma_extremes_shift(
        moved(m, n, s, l, u),
        moved(m, n, s, r, u),
        moved(m, n, s, l, b),
        moved(m, n, s, r, b),
        moved(m, n, t, l, u),
        moved(m, n, t, r, u),
        moved(m, n, t, l, b),
        moved(m, n, t, r, b),
        change.value(),
    );
    lemma_same_difference(
        bounds.highest(m, n, s),
        bounds.lowest(m, n, s),
        bounds.highest(m, n, t),
        bounds.lowest(m, n, t),
    );
    lemma_sum_holds(bounds.lowest(m, n, s), change, bounds.lowest(m, n, t));
}

/// The extremes of four numbers move with them.
proof fn lemma_extremes_shift(
    a: Single,
    b: Single,
    c: Single,
    d: Single,
    p: Single,
    q: Single,
    v: Single,
    w: Single,
    change: int,
)
    requires
        a.finite() && b.finite() && c.finite() && d.finite(),
        p.finite() && q.finite() && v.finite() && w.finite(),
        p.value() == a.value() + change,
        q.value() == b.value() + change,
        v.value() == c.value() + change,
        w.value() == d.value() + change,
    ensures
        ({
            let low = least_of(a, b, c, d);
            let high = greatest_of(a, b, c, d);
            let shifted_low = least_of(p, q, v, w);
            let shifted_high = greatest_of(p, q, v, w);
            &&& low.finite() && high.finite() && shifted_low.finite() && shifted_high.finite()
            &&& shifted_low.value() == low.value() + change
            &&& shifted_high.value() == high.value() + change
            &&& low.value() == high.value() ==> low == high && shifted_low == shifted_high
        }),
{
    lemma_extreme_values(a, b, c, d);
    lemma_extreme_values(p, q, v, w);
}

/// A difference is told by what its exact value is, if it is not that of two zeros.
proof fn lemma_same_difference(a: Single, b: Single, c: Single, d: Single)
    requires
        a.finite() && b.finite() && c.finite() && d.finite(),
        c.value() - d.value() == a.value() - b.value(),
        a.value() == b.value() ==> a == b && c == d,
    ensures
        Single::difference(c, d) == Single::difference(a, b),
{
    lemma_negation_value(b);
    lemma_negation_value(d);
}

proof fn lemma_negation_value(a: Single)
    requires
        a.finite(),
    ensures
        a.negation().finite(),
        a.negation().value() == -a.value(),
{
}

proof fn lemma_sum_holds(a: Single, b: Single, c: Single)
    requires
        a.finite() && b.finite() && c.finite(),
        c.value() == a.value() + b.value(),
    ensures
        same_number(c, Single::sum(a, b)),
{
    law_held_sum_is_exact(a, b, c);
    law_order_is_numeric(c, Single::sum(a, b));
    law_order_is_numeric(Single::sum(a, b), c);
}

proof fn lemma_corner_shifts(
    m: Single,
    n: Single,
    s: Single,
    t: Single,
    change: Single,
    x: Single,
    y: Single,
)
    requires
        exactly_moved(m, n, s, x, y),
        exactly_moved(m, n, t, x, y),
        t.value() == s.value() + change.value(),
    ensures
        moved(m, n, t, x, y).value() == moved(m, n, s, x, y).value() + change.value(),
{
    let step: int = pow2(149) as int;
    lemma_pow2_pos(149);
    let before: int = moved(m, n, s, x, y).value();
    let after: int = moved(m, n, t, x, y).value();
    let rest: int = m.value() * x.value() + n.value() * y.value();
    assert(after == before + change.value()) by (nonlinear_arith)
        requires
            before * step == rest + s.value() * step,
            after * step == rest + t.value() * step,
            t.value() == s.value() + change.value(),
            step > 0,
    ;
}

/// A number times one, plus zeros, is worth what it was, and no negative zero.
proof fn lemma_unit_moves(x: Single, y: Single)
    requires
        x.finite(),
        y.finite(),
    ensures
        ({
            let t = TransformationMatrix::identity();
            &&& t.x_of(x, y).finite() && t.x_of(x, y).value() == x.value()
            &&& t.y_of(x, y).finite() && t.y_of(x, y).value() == y.value()
            &&& !negative_zero(t.x_of(x, y)) && !negative_zero(t.y_of(x, y))
        }),
{
    let zero = Single { bits: 0 };
    let one = Single { bits: 0x3f80_0000 };
    lemma_times_one(x);
    lemma_times_one(y);
    lemma_times_zero(x);
    lemma_times_zero(y);
    let a = Single::product(one, x);
    let b = Single::product(one, y);
    let c = Single::product(zero, x);
    let d = Single::product(zero, y);
    lemma_zero_value(zero);
    law_held_sum_is_exact(a, d, x);
    law_held_sum_is_exact(c, b, y);
    law_held_sum_is_exact(Single::sum(a, d), zero, x);
    law_held_sum_is_exact(Single::sum(c, b), zero, y);
    lemma_no_negative_zero(Single::sum(a, d));
    lemma_no_negative_zero(Single::sum(c, b));
}

/// With a positive zero added there is no negative zero.
proof fn lemma_no_negative_zero(a: Single)
    requires
        a.finite(),
    ensures
        !negative_zero(Single::sum(a, Single { bits: 0 })),
{
    let zero = Single { bits: 0 };
    lemma_zero_value(zero);
    law_magnitude_is_not_rounded(a.magnitude());
    if a.magnitude() > 0 {
        law_order_is_numeric(a, zero);
        law_order_is_numeric(zero, a);
    } else {
        lemma_zero_value(a);
    }
}

proof fn lemma_zero_value(zero: Single)
    requires
        zero.magnitude() == 0,
    ensures
        zero.value() == 0,
{
    let other = zero.negation();
    law_order_is_numeric(zero, other);
    law_order_is_numeric(other, zero);
}

proof fn lemma_times_one(x: Single)
    requires
        x.finite(),
    ensures
        Single::product(Single { bits: 0x3f80_0000 }, x) == x,
{
    let one: nat = 0x3f80_0000;
    lemma_pow2_pos(149);
    lemma_pow2_adds(23, 126);
    lemma2_to64();
    lemma_fundamental_div_mod_converse(one as int, BINADE as int, 127, 0);
    assert(worth(one) == pow2(149));
    assert(worth(one) * worth(x.magnitude()) == worth(x.magnitude()) * pow2(149)) by (nonlinear_arith)
        requires
            worth(one) == pow2(149),
    ;
    lemma_nearest_scale(worth(x.magnitude()), 1, pow2(149));
    law_magnitude_is_not_rounded(x.magnitude());
}

proof fn lemma_times_zero(x: Single)
    requires
        x.finite(),
    ensures
        Single::product(Single { bits: 0 }, x).magnitude() == 0,
        Single::product(Single { bits: 0 }, x).value() == 0,
{
    let zero = Single { bits: 0 };
    lemma_product_zero(zero, x);
    lemma_zero_value(Single::product(zero, x));
}

/// The span between the extremes of a near and a far side is the extent between them.
proof fn lemma_span_back(
    near_side: Single,
    extent: Single,
    far_side: Single,
    a: Single,
    b: Single,
    c: Single,
    d: Single,
)
    requires
        near_side.finite(),
        extent.finite(),
        far_side.finite(),
        extent.value() >= 0,
        far_side.value() == near_side.value() + extent.value(),
        a.finite() && b.finite() && c.finite() && d.finite(),
        a.value() == near_side.value() && c.value() == near_side.value(),
        b.value() == far_side.value() && d.value() == far_side.value(),
        !negative_zero(a) && !negative_zero(b) && !negative_zero(c) && !negative_zero(d),
    ensures
        ({
            let low = least_of(a, b, c, d);
            let span = Single::difference(greatest_of(a, b, c, d), low);
            &&& same_number(low, near_side)
            &&& same_number(span, extent)
            &&& !negative_zero(near_side) ==> low == near_side
            &&& !negative_zero(extent) ==> span == extent
        }),
{
    let low = least_of(a, b, c, d);
    let high = greatest_of(a, b, c, d);
    let back = low.negation();
    let span = Single::difference(high, low);
    lemma_extreme_values(a, b, c, d);
    lemma_negation_value(low);
    law_held_sum_is_exact(high, back, extent);
    law_order_is_numeric(low, near_side);
    law_order_is_numeric(near_side, low);
    law_order_is_numeric(span, extent);
    law_order_is_numeric(extent, span);
    lemma_same_bits(low, near_side);
    lemma_same_bits(span, extent);
}

/// Finite numbers that are worth the same are the same but for a negative zero.
proof fn lemma_same_bits(a: Single, b: Single)
    requires
        a.finite(),
        b.finite(),
        a.value() == b.value(),
    ensures
        !negative_zero(a) && !negative_zero(b) ==> a == b,
{
    law_order_is_numeric(a, b);
    law_order_is_numeric(b, a);
}

/// The two middle ones of four numbers may change places where the extremes hold no
/// negative zero.
proof fn lemma_extremes_swap(a: Single, b: Single, c: Single, d: Single)
    requires
        a.finite() && b.finite() && c.finite() && d.finite(),
        !negative_zero(a) && !negative_zero(b) && !negative_zero(c) && !negative_zero(d),
    ensures
        least_of(a, b, c, d) == least_of(a, c, b, d),
        greatest_of(a, b, c, d) == greatest_of(a, c, b, d),
{
}

proof fn lemma_whole_product_value(a: int, b: int)
    requires
        -(2 * BINADE) <= a <= 2 * BINADE,
        -(2 * BINADE) <= b <= 2 * BINADE,
        -(2 * BINADE) <= a * b <= 2 * BINADE,
    ensures
        Single::product(Single::whole(a), Single::whole(b)).finite(),
        Single::product(Single::whole(a), Single::whole(b)).value() == a * b * pow2(149),
{
    let step: nat = pow2(149);
    lemma_pow2_pos(149);
    law_whole_is_exact(a);
    law_whole_is_exact(b);
    let x: nat = if a < 0 {
        (-a) as nat
    } else {
        a as nat
    };
    let y: nat = if b < 0 {
        (-b) as nat
    } else {
        b as nat
    };
    let n: nat = x * y;
    assert(n == a * b || n == -(a * b)) by (nonlinear_arith)
        requires
            n == x * y,
            x == a || x == -a,
            y == b || y == -b,
    ;
    assert((a < 0) != (b < 0) ==> n == -(a * b)) by (nonlinear_arith)
        requires
            n == x * y,
            x == if a < 0 { -a } else { a },
            y == if b < 0 { -b } else { b },
    ;
    assert((a < 0) == (b < 0) ==> n == a * b) by (nonlinear_arith)
        requires
            n == x * y,
            x == if a < 0 { -a } else { a },
            y == if b < 0 { -b } else { b },
    ;
    assert((-a) * step == -(a * step) && (-b) * step == -(b * step)) by (nonlinear_arith);
    assert((x * step) * (y * step) == (n * step) * step) by (nonlinear_arith)
        requires
            n == x * y,
    ;
    lemma_nearest_scale(n * step, 1, step);
    assert(n * step <= 2 * BINADE * step) by (nonlinear_arith)
        requires
            n <= 2 * BINADE,
    ;
    lemma_nearest_exact(n, 149, n * step);
    assert((-(a * b)) * step == -(a * b * step)) by (nonlinear_arith);
}

proof fn lemma_steps_add(a: Single, i: int, b: Single, j: int)
    requires
        a.finite(),
        b.finite(),
        a.value() == i * pow2(149),
        b.value() == j * pow2(149),
        -(2 * BINADE) <= i + j <= 2 * BINADE,
    ensures
        Single::sum(a, b).finite(),
        Single::sum(a, b).value() == (i + j) * pow2(149),
{
    let step: int = pow2(149) as int;
    lemma_pow2_pos(149);
    lemma_mod_multiples_basic(i, step);
    lemma_mod_multiples_basic(j, step);
    assert(i * step + j * step == (i + j) * step) by (nonlinear_arith);
    assert(-(2 * BINADE * step) <= (i + j) * step <= 2 * BINADE * step) by (nonlinear_arith)
        requires
            -(2 * BINADE) <= i + j <= 2 * BINADE,
            step > 0,
    ;
    law_sum_on_grid_is_exact(a, b, 149);
}

} // verus!
