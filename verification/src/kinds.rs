//! What damage and culling do to each kind of primitive, told by the fields of the
//! primitive: its place in the order, its bounds, its content mask, the blur of a shadow and
//! the transformation of a sprite.

use crate::damage::{
    changed, changed_regions, gathered, gathers_soundly, law_damage_reaches_changes,
    law_insertion_is_isolated, law_unchanged_means_alike, lemma_changed_empty, SceneDamage,
};
use crate::depth::rising;
use crate::geometry::{
    law_covering_is_holding_all, law_growth_is_exact, law_intersection_holds_what_both_hold,
    law_pixels_are_exact, law_pixels_grow_exactly, near_origin, pixels, Bounds, Point,
    ScaledPixels,
};
use crate::occlusion::{
    candidates, covered, hidden, law_candidates_are_large_and_opaque,
    law_cull_removes_only_hidden, law_occluders_are_capped, law_removed_is_painted_over, occluder,
    occluders_of, uncovered, unhidden,
};
use crate::scene::{
    in_order, inserted, law_in_order_sorts, law_topmost_is_above, order_above, topmost, visible,
    DrawOrder, Drawn, MonochromeSprite, PaintSurface, Path, PathModel, Placed, PolychromeSprite,
    Primitive, Quad, Scene, SceneModel, Shadow, SubpixelSprite, Underline,
};
use crate::single::{
    law_held_product_is_exact, law_whole_is_exact, law_whole_product, lemma_whole_three, Single,
};
use crate::transform::{
    corners_nearby, highest_image, law_pixels_transform_exactly,
    law_transformed_reaches_every_point, lowest_image, whole_matrix, TransformationMatrix,
};
use vstd::arithmetic::power2::*;
use vstd::prelude::*;

verus! {

/// What is said of a scene is said of all that it holds: every primitive of every kind is
/// there, in its place, with all of its fields.
pub proof fn law_model_is_the_scene(scene: Scene)
    ensures
        scene@.quads == scene.quads@,
        scene@.shadows == scene.shadows@,
        scene@.underlines == scene.underlines@,
        scene@.monochrome_sprites == scene.monochrome_sprites@,
        scene@.subpixel_sprites == scene.subpixel_sprites@,
        scene@.polychrome_sprites == scene.polychrome_sprites@,
        scene@.surfaces == scene.surfaces@,
        scene@.primitive_bounds == scene.primitive_bounds@,
        scene@.paths.len() == scene.paths@.len(),
        forall|i: int|
            0 <= i < scene.paths@.len() ==> {
                let (model, path) = (#[trigger] scene@.paths[i], scene.paths@[i]);
                &&& model.order == path.order
                &&& model.bounds == path.bounds
                &&& model.content_mask == path.content_mask
                &&& model.vertices == path.vertices@
                &&& model.color == path.color
            },
{
    assert(scene@.quads =~= scene.quads@);
    assert(scene@.shadows =~= scene.shadows@);
    assert(scene@.underlines =~= scene.underlines@);
    assert(scene@.monochrome_sprites =~= scene.monochrome_sprites@);
    assert(scene@.subpixel_sprites =~= scene.subpixel_sprites@);
    assert(scene@.polychrome_sprites =~= scene.polychrome_sprites@);
    assert(scene@.surfaces =~= scene.surfaces@);
}

/// Every kind is drawn at its `order`.
pub proof fn law_kinds_are_drawn_at_their_order()
    ensures
        forall|p: Quad| #[trigger] Quad::order_of(p) == p.order,
        forall|p: Shadow| #[trigger] Shadow::order_of(p) == p.order,
        forall|p: Underline| #[trigger] Underline::order_of(p) == p.order,
        forall|p: MonochromeSprite| #[trigger] MonochromeSprite::order_of(p) == p.order,
        forall|p: SubpixelSprite| #[trigger] SubpixelSprite::order_of(p) == p.order,
        forall|p: PolychromeSprite| #[trigger] PolychromeSprite::order_of(p) == p.order,
        forall|p: PathModel| #[trigger] Path::<ScaledPixels>::order_of(p) == p.order,
        forall|p: PaintSurface| #[trigger] PaintSurface::order_of(p) == p.order,
{
}

/// Every kind is clipped to the bounds of its `content_mask`.
pub proof fn law_kinds_are_clipped_to_their_mask()
    ensures
        forall|p: Quad| #[trigger] Quad::mask_of(p) == p.content_mask.bounds,
        forall|p: Shadow| #[trigger] Shadow::mask_of(p) == p.content_mask.bounds,
        forall|p: Underline| #[trigger] Underline::mask_of(p) == p.content_mask.bounds,
        forall|p: MonochromeSprite| #[trigger] MonochromeSprite::mask_of(p) == p.content_mask.bounds,
        forall|p: SubpixelSprite| #[trigger] SubpixelSprite::mask_of(p) == p.content_mask.bounds,
        forall|p: PolychromeSprite| #[trigger] PolychromeSprite::mask_of(p) == p.content_mask.bounds,
        forall|p: PathModel| #[trigger] Path::<ScaledPixels>::mask_of(p) == p.content_mask.bounds,
        forall|p: PaintSurface| #[trigger] PaintSurface::mask_of(p) == p.content_mask.bounds,
{
}

/// Quads, underlines, polychrome sprites, paths and surfaces paint their `bounds`.
pub proof fn law_plain_kinds_paint_their_bounds()
    ensures
        forall|p: Quad| #[trigger] Quad::painted(p) == p.bounds,
        forall|p: Underline| #[trigger] Underline::painted(p) == p.bounds,
        forall|p: PolychromeSprite| #[trigger] PolychromeSprite::painted(p) == p.bounds,
        forall|p: PathModel| #[trigger] Path::<ScaledPixels>::painted(p) == p.bounds,
        forall|p: PaintSurface| #[trigger] PaintSurface::painted(p) == p.bounds,
{
}

/// A shadow on whole pixels reaches out by three times its blur radius on every side.
pub proof fn law_shadow_of_whole_pixels(shadow: Shadow, x: int, y: int, w: int, h: int, r: int)
    requires
        shadow.bounds == pixels(x, y, w, h),
        shadow.blur_radius.0 == Single::whole(r),
        0 <= 3 * r <= 0x80_0000,
        near_origin(x, w),
        near_origin(y, h),
        near_origin(x - 3 * r, w + 6 * r),
        near_origin(y - 3 * r, h + 6 * r),
    ensures
        Shadow::painted(shadow) == pixels(x - 3 * r, y - 3 * r, w + 6 * r, h + 6 * r),
        Shadow::painted(shadow).encloses(shadow.bounds),
{
    lemma_whole_three();
    law_whole_product(r, 3);
    law_pixels_grow_exactly(x, y, w, h, 3 * r);
}

/// Of two shadows of one rectangle the one with the larger blur radius contains the
/// other, and has the same extent only where the radii are the same.
pub proof fn law_shadow_grows_with_its_blur(
    a: Shadow,
    b: Shadow,
    x: int,
    y: int,
    w: int,
    h: int,
    r: int,
    s: int,
)
    requires
        a.bounds == pixels(x, y, w, h),
        b.bounds == pixels(x, y, w, h),
        a.blur_radius.0 == Single::whole(r),
        b.blur_radius.0 == Single::whole(s),
        0 <= 3 * r <= 0x80_0000,
        0 <= 3 * s <= 0x80_0000,
        near_origin(x, w),
        near_origin(y, h),
        near_origin(x - 3 * r, w + 6 * r),
        near_origin(y - 3 * r, h + 6 * r),
        near_origin(x - 3 * s, w + 6 * s),
        near_origin(y - 3 * s, h + 6 * s),
    ensures
        Shadow::painted(b).encloses(Shadow::painted(a)) <==> r <= s,
        r == 0 ==> Shadow::painted(a) == a.bounds,
{
    law_shadow_of_whole_pixels(a, x, y, w, h, r);
    law_shadow_of_whole_pixels(b, x, y, w, h, s);
    law_pixels_are_exact(
        x - 3 * s,
        y - 3 * s,
        w + 6 * s,
        h + 6 * s,
        x - 3 * r,
        y - 3 * r,
        w + 6 * r,
        h + 6 * r,
    );
}

/// A shadow reaches out by three times its blur radius on every side, wherever single
/// precision can hold the numbers: `reach` is three times the radius, `double` twice
/// that, and `to` what comes out.
pub proof fn law_shadow_reaches_three_radii(
    shadow: Shadow,
    reach: Single,
    double: Single,
    to: Bounds<ScaledPixels>,
)
    requires
        shadow.blur_radius.0.finite() && reach.finite() && double.finite(),
        shadow.bounds.origin.x.0.finite() && shadow.bounds.origin.y.0.finite(),
        shadow.bounds.size.width.0.finite() && shadow.bounds.size.height.0.finite(),
        to.origin.x.0.finite() && to.origin.y.0.finite(),
        to.size.width.0.finite() && to.size.height.0.finite(),
        reach.value() == 3 * shadow.blur_radius.0.value(),
        double.value() == 6 * shadow.blur_radius.0.value(),
        to.origin.x.0.value() == shadow.bounds.origin.x.0.value() - reach.value(),
        to.origin.y.0.value() == shadow.bounds.origin.y.0.value() - reach.value(),
        to.size.width.0.value() == shadow.bounds.size.width.0.value() + double.value(),
        to.size.height.0.value() == shadow.bounds.size.height.0.value() + double.value(),
    ensures
        Shadow::painted(shadow).same_numbers(to),
{
    let step: int = pow2(149) as int;
    let three = Single { bits: 0x4040_0000 };
    let radius: int = shadow.blur_radius.0.value();
    lemma_whole_three();
    law_whole_is_exact(3);
    assert((3 * radius) * step == radius * (3 * step)) by (nonlinear_arith);
    law_held_product_is_exact(shadow.blur_radius.0, three, reach);
    law_growth_is_exact(
        shadow.bounds,
        Single::product(shadow.blur_radius.0, three),
        double,
        to,
    );
}

/// A monochrome sprite paints every place that its transformation moves a position inside
/// its bounds to: the matrix entries `m00` and `m10` weigh the position into the
/// horizontal place, `m01` and `m11` into the vertical one.
pub proof fn law_monochrome_sprite_paints_images(sprite: MonochromeSprite, x: Single, y: Single)
    requires
        Single::at_most(sprite.bounds.left(), x),
        Single::at_most(x, sprite.bounds.right()),
        Single::at_most(sprite.bounds.top(), y),
        Single::at_most(y, sprite.bounds.bottom()),
        places_are_numbers(sprite.bounds, sprite.transformation, x, y),
        sprite.bounds.transforms_soundly(sprite.transformation),
    ensures
        covers_place(MonochromeSprite::painted(sprite), place_of(sprite.transformation, x, y)),
{
    law_transformed_reaches_every_point(sprite.bounds, sprite.transformation, x, y);
}

/// A monochrome sprite on whole pixels, moved by a matrix of whole numbers, paints the
/// least rectangle around the places that its corners are moved to in the plane.
pub proof fn law_monochrome_sprite_of_whole_pixels(
    sprite: MonochromeSprite,
    x: int,
    y: int,
    w: int,
    h: int,
    m00: int,
    m01: int,
    m10: int,
    m11: int,
    dx: int,
    dy: int,
)
    requires
        sprite.bounds == pixels(x, y, w, h),
        sprite.transformation == whole_matrix(m00, m01, m10, m11, dx, dy),
        near_origin(x, w),
        near_origin(y, h),
        corners_nearby(m00, m10, dx, x, y, x + w, y + h),
        corners_nearby(m01, m11, dy, x, y, x + w, y + h),
    ensures
        ({
            let left: int = lowest_image(m00, m10, dx, x, y, x + w, y + h);
            let top: int = lowest_image(m01, m11, dy, x, y, x + w, y + h);
            let right: int = highest_image(m00, m10, dx, x, y, x + w, y + h);
            let bottom: int = highest_image(m01, m11, dy, x, y, x + w, y + h);
            MonochromeSprite::painted(sprite) == pixels(left, top, right - left, bottom - top)
        }),
{
    law_pixels_transform_exactly(x, y, w, h, m00, m01, m10, m11, dx, dy);
}

/// A monochrome sprite that only one of two scenes has is redrawn: the damage covers
/// every place that its transformation moves a position inside its bounds to.
pub proof fn law_monochrome_sprite_is_redrawn(
    prev: SceneModel,
    next: SceneModel,
    sprite: MonochromeSprite,
    x: Single,
    y: Single,
)
    requires
        gathers_soundly(changed_regions(prev, next)),
        prev.monochrome_sprites.contains(sprite) != next.monochrome_sprites.contains(sprite),
        Single::at_most(sprite.bounds.left(), x),
        Single::at_most(x, sprite.bounds.right()),
        Single::at_most(sprite.bounds.top(), y),
        Single::at_most(y, sprite.bounds.bottom()),
        places_are_numbers(sprite.bounds, sprite.transformation, x, y),
        sprite.bounds.transforms_soundly(sprite.transformation),
    ensures
        SceneDamage::around(changed_regions(prev, next)) matches SceneDamage::Rect(bounds)
            && covers_place(bounds, place_of(sprite.transformation, x, y)),
{
    let place = place_of(sprite.transformation, x, y);
    let painted = MonochromeSprite::painted(sprite);
    law_monochrome_sprite_paints_images(sprite, x, y);
    law_damage_reaches_changes(prev, next);
    assert(painted.regular());
    let damage = SceneDamage::around(changed_regions(prev, next));
    assert(damage.reaches(painted));
    lemma_cover_carries(damage->Rect_0, painted, place);
}

/// A subpixel sprite paints every place that its transformation moves a position inside
/// its bounds to: the matrix entries `m00` and `m10` weigh the position into the
/// horizontal place, `m01` and `m11` into the vertical one.
pub proof fn law_subpixel_sprite_paints_images(sprite: SubpixelSprite, x: Single, y: Single)
    requires
        Single::at_most(sprite.bounds.left(), x),
        Single::at_most(x, sprite.bounds.right()),
        Single::at_most(sprite.bounds.top(), y),
        Single::at_most(y, sprite.bounds.bottom()),
        places_are_numbers(sprite.bounds, sprite.transformation, x, y),
        sprite.bounds.transforms_soundly(sprite.transformation),
    ensures
        covers_place(SubpixelSprite::painted(sprite), place_of(sprite.transformation, x, y)),
{
    law_transformed_reaches_every_point(sprite.bounds, sprite.transformation, x, y);
}

/// A subpixel sprite on whole pixels, moved by a matrix of whole numbers, paints the
/// least rectangle around the places that its corners are moved to in the plane.
pub proof fn law_subpixel_sprite_of_whole_pixels(
    sprite: SubpixelSprite,
    x: int,
    y: int,
    w: int,
    h: int,
    m00: int,
    m01: int,
    m10: int,
    m11: int,
    dx: int,
    dy: int,
)
    requires
        sprite.bounds == pixels(x, y, w, h),
        sprite.transformation == whole_matrix(m00, m01, m10, m11, dx, dy),
        near_origin(x, w),
        near_origin(y, h),
        corners_nearby(m00, m10, dx, x, y, x + w, y + h),
        corners_nearby(m01, m11, dy, x, y, x + w, y + h),
    ensures
        ({
            let left: int = lowest_image(m00, m10, dx, x, y, x + w, y + h);
            let top: int = lowest_image(m01, m11, dy, x, y, x + w, y + h);
            let right: int = highest_image(m00, m10, dx, x, y, x + w, y + h);
            let bottom: int = highest_image(m01, m11, dy, x, y, x + w, y + h);
            SubpixelSprite::painted(sprite) == pixels(left, top, right - left, bottom - top)
        }),
{
    law_pixels_transform_exactly(x, y, w, h, m00, m01, m10, m11, dx, dy);
}

/// A subpixel sprite that only one of two scenes has is redrawn: the damage covers every
/// place that its transformation moves a position inside its bounds to.
pub proof fn law_subpixel_sprite_is_redrawn(
    prev: SceneModel,
    next: SceneModel,
    sprite: SubpixelSprite,
    x: Single,
    y: Single,
)
    requires
        gathers_soundly(changed_regions(prev, next)),
        prev.subpixel_sprites.contains(sprite) != next.subpixel_sprites.contains(sprite),
        Single::at_most(sprite.bounds.left(), x),
        Single::at_most(x, sprite.bounds.right()),
        Single::at_most(sprite.bounds.top(), y),
        Single::at_most(y, sprite.bounds.bottom()),
        places_are_numbers(sprite.bounds, sprite.transformation, x, y),
        sprite.bounds.transforms_soundly(sprite.transformation),
    ensures
        SceneDamage::around(changed_regions(prev, next)) matches SceneDamage::Rect(bounds)
            && covers_place(bounds, place_of(sprite.transformation, x, y)),
{
    let place = place_of(sprite.transformation, x, y);
    let painted = SubpixelSprite::painted(sprite);
    law_subpixel_sprite_paints_images(sprite, x, y);
    law_damage_reaches_changes(prev, next);
    assert(painted.regular());
    let damage = SceneDamage::around(changed_regions(prev, next));
    assert(damage.reaches(painted));
    lemma_cover_carries(damage->Rect_0, painted, place);
}

/// Where a transformation moves a position to.
pub open spec fn place_of(t: TransformationMatrix, x: Single, y: Single) -> (Single, Single) {
    let rs = t.rotation_scale;
    (
        Single::sum(
            Single::sum(Single::product(rs.m00, x), Single::product(rs.m10, y)),
            t.translation.x,
        ),
        Single::sum(
            Single::sum(Single::product(rs.m01, x), Single::product(rs.m11, y)),
            t.translation.y,
        ),
    )
}

/// Whether a position and the corners of a rectangle are moved to numbers.
pub open spec fn places_are_numbers(
    bounds: Bounds<ScaledPixels>,
    t: TransformationMatrix,
    x: Single,
    y: Single,
) -> bool {
    &&& bounds.moves_to_numbers(t.rotation_scale.m00, t.rotation_scale.m10, t.translation.x)
    &&& bounds.moves_to_numbers(t.rotation_scale.m01, t.rotation_scale.m11, t.translation.y)
    &&& !place_of(t, x, y).0.nan()
    &&& !place_of(t, x, y).1.nan()
}

/// Whether a place lies within a rectangle or on its sides.
pub open spec fn covers_place(bounds: Bounds<ScaledPixels>, place: (Single, Single)) -> bool {
    &&& Single::at_most(bounds.origin.x.0, place.0)
    &&& Single::at_most(place.0, Single::sum(bounds.origin.x.0, bounds.size.width.0))
    &&& Single::at_most(bounds.origin.y.0, place.1)
    &&& Single::at_most(place.1, Single::sum(bounds.origin.y.0, bounds.size.height.0))
}

proof fn lemma_cover_carries(
    outer: Bounds<ScaledPixels>,
    inner: Bounds<ScaledPixels>,
    place: (Single, Single),
)
    requires
        outer.encloses(inner),
        covers_place(inner, place),
    ensures
        covers_place(outer, place),
{
}

/// Everything that is painted by a primitive that only one of two scenes has is redrawn:
/// the bounds of most kinds, those of a shadow grown by its blur, those of a sprite as
/// its transformation moves them.
pub proof fn law_changed_primitives_are_redrawn(prev: SceneModel, next: SceneModel)
    requires
        gathers_soundly(changed_regions(prev, next)),
    ensures
        ({
            let damage = SceneDamage::around(changed_regions(prev, next));
            &&& forall|p: Quad|
                #![trigger prev.quads.contains(p)]
                #![trigger next.quads.contains(p)]
                prev.quads.contains(p) != next.quads.contains(p) && p.bounds.regular()
                    ==> damage.reaches(p.bounds)
            &&& forall|p: Shadow|
                #![trigger prev.shadows.contains(p)]
                #![trigger next.shadows.contains(p)]
                prev.shadows.contains(p) != next.shadows.contains(p)
                    && p.bounds.grown(Single::product(p.blur_radius.0, Single::whole(3))).regular()
                    ==> damage.reaches(p.bounds.grown(Single::product(p.blur_radius.0, Single::whole(3))))
            &&& forall|p: Underline|
                #![trigger prev.underlines.contains(p)]
                #![trigger next.underlines.contains(p)]
                prev.underlines.contains(p) != next.underlines.contains(p) && p.bounds.regular()
                    ==> damage.reaches(p.bounds)
            &&& forall|p: MonochromeSprite|
                #![trigger prev.monochrome_sprites.contains(p)]
                #![trigger next.monochrome_sprites.contains(p)]
                prev.monochrome_sprites.contains(p) != next.monochrome_sprites.contains(p)
                    && p.bounds.transformed(p.transformation).regular()
                    ==> damage.reaches(p.bounds.transformed(p.transformation))
            &&& forall|p: SubpixelSprite|
                #![trigger prev.subpixel_sprites.contains(p)]
                #![trigger next.subpixel_sprites.contains(p)]
                prev.subpixel_sprites.contains(p) != next.subpixel_sprites.contains(p)
                    && p.bounds.transformed(p.transformation).regular()
                    ==> damage.reaches(p.bounds.transformed(p.transformation))
            &&& forall|p: PolychromeSprite|
                #![trigger prev.polychrome_sprites.contains(p)]
                #![trigger next.polychrome_sprites.contains(p)]
                prev.polychrome_sprites.contains(p) != next.polychrome_sprites.contains(p)
                    && p.bounds.regular()
                    ==> damage.reaches(p.bounds)
            &&& forall|p: PathModel|
                #![trigger prev.paths.contains(p)]
                #![trigger next.paths.contains(p)]
                prev.paths.contains(p) != next.paths.contains(p) && p.bounds.regular()
                    ==> damage.reaches(p.bounds)
            &&& forall|p: PaintSurface|
                #![trigger prev.surfaces.contains(p)]
                #![trigger next.surfaces.contains(p)]
                prev.surfaces.contains(p) != next.surfaces.contains(p) && p.bounds.regular()
                    ==> damage.reaches(p.bounds)
        }),
{
    law_damage_reaches_changes(prev, next);
    lemma_whole_three();
    let damage = SceneDamage::around(changed_regions(prev, next));
    assert forall|p: Quad|
        #![trigger prev.quads.contains(p)]
        #![trigger next.quads.contains(p)]
        prev.quads.contains(p) != next.quads.contains(p)
            && p.bounds.regular() implies damage.reaches(
        p.bounds,
    ) by {
        assert(Quad::painted(p) == p.bounds);
    }
    assert forall|p: Shadow|
        #![trigger prev.shadows.contains(p)]
        #![trigger next.shadows.contains(p)]
        prev.shadows.contains(p) != next.shadows.contains(p)
            && p.bounds.grown(Single::product(p.blur_radius.0, Single::whole(3))).regular() implies damage.reaches(
        p.bounds.grown(Single::product(p.blur_radius.0, Single::whole(3))),
    ) by {
        assert(Shadow::painted(p) == p.bounds.grown(Single::product(p.blur_radius.0, Single::whole(3))));
    }
    assert forall|p: Underline|
        #![trigger prev.underlines.contains(p)]
        #![trigger next.underlines.contains(p)]
        prev.underlines.contains(p) != next.underlines.contains(p)
            && p.bounds.regular() implies damage.reaches(
        p.bounds,
    ) by {
        assert(Underline::painted(p) == p.bounds);
    }
    assert forall|p: MonochromeSprite|
        #![trigger prev.monochrome_sprites.contains(p)]
        #![trigger next.monochrome_sprites.contains(p)]
        prev.monochrome_sprites.contains(p) != next.monochrome_sprites.contains(p)
            && p.bounds.transformed(p.transformation).regular() implies damage.reaches(
        p.bounds.transformed(p.transformation),
    ) by {
        assert(MonochromeSprite::painted(p) == p.bounds.transformed(p.transformation));
    }
    assert forall|p: SubpixelSprite|
        #![trigger prev.subpixel_sprites.contains(p)]
        #![trigger next.subpixel_sprites.contains(p)]
        prev.subpixel_sprites.contains(p) != next.subpixel_sprites.contains(p)
            && p.bounds.transformed(p.transformation).regular() implies damage.reaches(
        p.bounds.transformed(p.transformation),
    ) by {
        assert(SubpixelSprite::painted(p) == p.bounds.transformed(p.transformation));
    }
    assert forall|p: PolychromeSprite|
        #![trigger prev.polychrome_sprites.contains(p)]
        #![trigger next.polychrome_sprites.contains(p)]
        prev.polychrome_sprites.contains(p) != next.polychrome_sprites.contains(p)
            && p.bounds.regular() implies damage.reaches(
        p.bounds,
    ) by {
        assert(PolychromeSprite::painted(p) == p.bounds);
    }
    assert forall|p: PathModel|
        #![trigger prev.paths.contains(p)]
        #![trigger next.paths.contains(p)]
        prev.paths.contains(p) != next.paths.contains(p)
            && p.bounds.regular() implies damage.reaches(
        p.bounds,
    ) by {
        assert(Path::<ScaledPixels>::painted(p) == p.bounds);
    }
    assert forall|p: PaintSurface|
        #![trigger prev.surfaces.contains(p)]
        #![trigger next.surfaces.contains(p)]
        prev.surfaces.contains(p) != next.surfaces.contains(p)
            && p.bounds.regular() implies damage.reaches(
        p.bounds,
    ) by {
        assert(PaintSurface::painted(p) == p.bounds);
    }
}

/// A scene with one more primitive, put in at a place among those of its kind.
pub open spec fn put_in(scene: SceneModel, primitive: Primitive, at: int) -> SceneModel {
    match primitive {
        Primitive::Quad(p) => SceneModel { quads: scene.quads.insert(at, p), ..scene },
        Primitive::Shadow(p) => SceneModel { shadows: scene.shadows.insert(at, p), ..scene },
        Primitive::Underline(p) => SceneModel {
            underlines: scene.underlines.insert(at, p),
            ..scene
        },
        Primitive::MonochromeSprite(p) => SceneModel {
            monochrome_sprites: scene.monochrome_sprites.insert(at, p),
            ..scene
        },
        Primitive::SubpixelSprite(p) => SceneModel {
            subpixel_sprites: scene.subpixel_sprites.insert(at, p),
            ..scene
        },
        Primitive::PolychromeSprite(p) => SceneModel {
            polychrome_sprites: scene.polychrome_sprites.insert(at, p),
            ..scene
        },
        Primitive::Path(p) => SceneModel { paths: scene.paths.insert(at, p@), ..scene },
        Primitive::Surface(p) => SceneModel { surfaces: scene.surfaces.insert(at, p), ..scene },
    }
}

/// How many primitives of the same kind a scene has.
pub open spec fn number_of_kind(scene: SceneModel, primitive: Primitive) -> nat {
    match primitive {
        Primitive::Quad(_) => scene.quads.len(),
        Primitive::Shadow(_) => scene.shadows.len(),
        Primitive::Underline(_) => scene.underlines.len(),
        Primitive::MonochromeSprite(_) => scene.monochrome_sprites.len(),
        Primitive::SubpixelSprite(_) => scene.subpixel_sprites.len(),
        Primitive::PolychromeSprite(_) => scene.polychrome_sprites.len(),
        Primitive::Path(_) => scene.paths.len(),
        Primitive::Surface(_) => scene.surfaces.len(),
    }
}

/// What a primitive paints, as its kind has it.
spec fn painted_of(primitive: Primitive) -> Bounds<ScaledPixels> {
    match primitive {
        Primitive::Quad(p) => Quad::painted(p),
        Primitive::Shadow(p) => Shadow::painted(p),
        Primitive::Underline(p) => Underline::painted(p),
        Primitive::MonochromeSprite(p) => MonochromeSprite::painted(p),
        Primitive::SubpixelSprite(p) => SubpixelSprite::painted(p),
        Primitive::PolychromeSprite(p) => PolychromeSprite::painted(p),
        Primitive::Path(p) => Path::<ScaledPixels>::painted(p@),
        Primitive::Surface(p) => PaintSurface::painted(p),
    }
}

/// A quad, underline, polychrome sprite, path or surface that appears or goes away
/// damages its bounds and no more.
pub proof fn law_lone_plain_primitive_damages_its_bounds(
    scene: SceneModel,
    primitive: Primitive,
    at: int,
)
    requires
        0 <= at <= number_of_kind(scene, primitive),
    ensures
        ({
            let with = put_in(scene, primitive, at);
            let appears = SceneDamage::around(changed_regions(scene, with));
            let goes = SceneDamage::around(changed_regions(with, scene));
            match primitive {
                Primitive::Quad(p) => appears == SceneDamage::Rect(p.bounds) && goes == appears,
                Primitive::Underline(p) => appears == SceneDamage::Rect(p.bounds) && goes
                    == appears,
                Primitive::PolychromeSprite(p) => appears == SceneDamage::Rect(p.bounds) && goes
                    == appears,
                Primitive::Path(p) => appears == SceneDamage::Rect(p.bounds) && goes == appears,
                Primitive::Surface(p) => appears == SceneDamage::Rect(p.bounds) && goes == appears,
                _ => true,
            }
        }),
{
    lemma_put_in(scene, primitive, at);
}

/// A shadow on whole pixels that appears or goes away damages its bounds, with three
/// times its blur radius added on every side, and no more.
pub proof fn law_lone_shadow_damages_its_reach(
    scene: SceneModel,
    shadow: Shadow,
    at: int,
    x: int,
    y: int,
    w: int,
    h: int,
    r: int,
)
    requires
        0 <= at <= scene.shadows.len(),
        shadow.bounds == pixels(x, y, w, h),
        shadow.blur_radius.0 == Single::whole(r),
        0 <= 3 * r <= 0x80_0000,
        near_origin(x, w),
        near_origin(y, h),
        near_origin(x - 3 * r, w + 6 * r),
        near_origin(y - 3 * r, h + 6 * r),
    ensures
        ({
            let with = SceneModel { shadows: scene.shadows.insert(at, shadow), ..scene };
            let want = SceneDamage::Rect(pixels(x - 3 * r, y - 3 * r, w + 6 * r, h + 6 * r));
            &&& SceneDamage::around(changed_regions(scene, with)) == want
            &&& SceneDamage::around(changed_regions(with, scene)) == want
        }),
{
    lemma_put_in(scene, Primitive::Shadow(shadow), at);
    law_shadow_of_whole_pixels(shadow, x, y, w, h, r);
}

/// A monochrome sprite on whole pixels, moved by a matrix of whole numbers, damages the
/// least rectangle around the places that its corners are moved to, and no more.
#[verifier::rlimit(30)]
pub proof fn law_lone_monochrome_sprite_damages_its_image(
    scene: SceneModel,
    sprite: MonochromeSprite,
    at: int,
    x: int,
    y: int,
    w: int,
    h: int,
    m00: int,
    m01: int,
    m10: int,
    m11: int,
    dx: int,
    dy: int,
)
    requires
        0 <= at <= scene.monochrome_sprites.len(),
        sprite.bounds == pixels(x, y, w, h),
        sprite.transformation == whole_matrix(m00, m01, m10, m11, dx, dy),
        near_origin(x, w),
        near_origin(y, h),
        corners_nearby(m00, m10, dx, x, y, x + w, y + h),
        corners_nearby(m01, m11, dy, x, y, x + w, y + h),
    ensures
        ({
            let with = SceneModel {
                monochrome_sprites: scene.monochrome_sprites.insert(at, sprite),
                ..scene
            };
            let left: int = lowest_image(m00, m10, dx, x, y, x + w, y + h);
            let top: int = lowest_image(m01, m11, dy, x, y, x + w, y + h);
            let right: int = highest_image(m00, m10, dx, x, y, x + w, y + h);
            let bottom: int = highest_image(m01, m11, dy, x, y, x + w, y + h);
            let want = SceneDamage::Rect(pixels(left, top, right - left, bottom - top));
            &&& SceneDamage::around(changed_regions(scene, with)) == want
            &&& SceneDamage::around(changed_regions(with, scene)) == want
        }),
{
    lemma_put_in(scene, Primitive::MonochromeSprite(sprite), at);
    law_monochrome_sprite_of_whole_pixels(sprite, x, y, w, h, m00, m01, m10, m11, dx, dy);
}

/// A subpixel sprite on whole pixels, moved by a matrix of whole numbers, damages the
/// least rectangle around the places that its corners are moved to, and no more.
#[verifier::rlimit(30)]
pub proof fn law_lone_subpixel_sprite_damages_its_image(
    scene: SceneModel,
    sprite: SubpixelSprite,
    at: int,
    x: int,
    y: int,
    w: int,
    h: int,
    m00: int,
    m01: int,
    m10: int,
    m11: int,
    dx: int,
    dy: int,
)
    requires
        0 <= at <= scene.subpixel_sprites.len(),
        sprite.bounds == pixels(x, y, w, h),
        sprite.transformation == whole_matrix(m00, m01, m10, m11, dx, dy),
        near_origin(x, w),
        near_origin(y, h),
        corners_nearby(m00, m10, dx, x, y, x + w, y + h),
        corners_nearby(m01, m11, dy, x, y, x + w, y + h),
    ensures
        ({
            let with = SceneModel {
                subpixel_sprites: scene.subpixel_sprites.insert(at, sprite),
                ..scene
            };
            let left: int = lowest_image(m00, m10, dx, x, y, x + w, y + h);
            let top: int = lowest_image(m01, m11, dy, x, y, x + w, y + h);
            let right: int = highest_image(m00, m10, dx, x, y, x + w, y + h);
            let bottom: int = highest_image(m01, m11, dy, x, y, x + w, y + h);
            let want = SceneDamage::Rect(pixels(left, top, right - left, bottom - top));
            &&& SceneDamage::around(changed_regions(scene, with)) == want
            &&& SceneDamage::around(changed_regions(with, scene)) == want
        }),
{
    lemma_put_in(scene, Primitive::SubpixelSprite(sprite), at);
    law_subpixel_sprite_of_whole_pixels(sprite, x, y, w, h, m00, m01, m10, m11, dx, dy);
}

/// One primitive more or less is all that changes.
proof fn lemma_put_in(scene: SceneModel, primitive: Primitive, at: int)
    requires
        0 <= at <= number_of_kind(scene, primitive),
    ensures
        ({
            let with = put_in(scene, primitive, at);
            let want = SceneDamage::Rect(painted_of(primitive));
            &&& SceneDamage::around(changed_regions(scene, with)) == want
            &&& SceneDamage::around(changed_regions(with, scene)) == want
        }),
{
    let with = put_in(scene, primitive, at);
    let alone = seq![painted_of(primitive)];
    lemma_no_change::<Quad>(scene.quads);
    lemma_no_change::<Shadow>(scene.shadows);
    lemma_no_change::<Underline>(scene.underlines);
    lemma_no_change::<MonochromeSprite>(scene.monochrome_sprites);
    lemma_no_change::<SubpixelSprite>(scene.subpixel_sprites);
    lemma_no_change::<PolychromeSprite>(scene.polychrome_sprites);
    lemma_no_change::<Path<ScaledPixels>>(scene.paths);
    lemma_no_change::<PaintSurface>(scene.surfaces);
    match primitive {
        Primitive::Quad(p) => lemma_one_change::<Quad>(scene.quads, p, at),
        Primitive::Shadow(p) => lemma_one_change::<Shadow>(scene.shadows, p, at),
        Primitive::Underline(p) => lemma_one_change::<Underline>(scene.underlines, p, at),
        Primitive::MonochromeSprite(p) => {
            lemma_one_change::<MonochromeSprite>(scene.monochrome_sprites, p, at);
        },
        Primitive::SubpixelSprite(p) => {
            lemma_one_change::<SubpixelSprite>(scene.subpixel_sprites, p, at);
        },
        Primitive::PolychromeSprite(p) => {
            lemma_one_change::<PolychromeSprite>(scene.polychrome_sprites, p, at);
        },
        Primitive::Path(p) => lemma_one_change::<Path<ScaledPixels>>(scene.paths, p@, at),
        Primitive::Surface(p) => lemma_one_change::<PaintSurface>(scene.surfaces, p, at),
    }
    assert(changed_regions(scene, with) =~= alone);
    assert(changed_regions(with, scene) =~= alone);
    assert(alone.drop_last() =~= Seq::empty());
    assert(gathered(None, alone.drop_last()) is None);
}

proof fn lemma_no_change<T: Drawn>(list: Seq<T::V>)
    ensures
        changed::<T>(list, list) == Seq::<Bounds<ScaledPixels>>::empty(),
{
    lemma_changed_empty::<T>(list, list);
    assert(changed::<T>(list, list) =~= Seq::empty());
}

proof fn lemma_one_change<T: Drawn>(list: Seq<T::V>, item: T::V, at: int)
    requires
        0 <= at <= list.len(),
    ensures
        changed::<T>(list, list.insert(at, item)) == seq![T::painted(item)],
        changed::<T>(list.insert(at, item), list) == seq![T::painted(item)],
{
    let head = list.take(at);
    let tail = list.skip(at);
    law_insertion_is_isolated::<T>(head, item, tail);
    assert(list =~= head + tail);
    assert(list.insert(at, item) =~= head.push(item) + tail);
}

/// A quad that culling removes is painted over: at every position inside what it paints
/// and inside its content mask, an opaque quad that is kept and has a higher order is
/// painted.
pub proof fn law_removed_quad_is_painted_over(
    scene: SceneModel,
    item: Quad,
    at: Point<ScaledPixels>,
) -> (cover: Quad)
    requires
        scene.quads.contains(item),
        !scene.culled().quads.contains(item),
        item.bounds.holds(at),
        item.content_mask.bounds.holds(at),
        item.bounds.clips_exactly(item.content_mask.bounds),
        forall|i: int| occluder(scene.quads, i) ==> (#[trigger] scene.quads[i]).clips_soundly(),
    ensures
        scene.culled().quads.contains(cover),
        cover.hides(),
        cover.order > item.order,
        cover.bounds.holds(at),
{
    lemma_removed::<Quad>(scene, scene.quads, item, at)
}

/// A quad whose visible part lies behind one opaque quad of a higher order is removed, as
/// long as all that may hide it are tested: the quad is large, and one of no more than
/// sixteen such.
pub proof fn law_hidden_quad_is_removed(
    scene: SceneModel,
    item: Quad,
    cover: Quad,
    at: Point<ScaledPixels>,
)
    requires
        scene.quads.contains(cover),
        cover.hides(),
        cover.order > item.order,
        Single::at_most(
            Single::whole(16384),
            Single::product(cover.bounds.size.width.0, cover.bounds.size.height.0),
        ),
        candidates(scene.quads).len() <= 16,
        item.bounds.clips_exactly(item.content_mask.bounds),
        item.bounds.holds(at),
        item.content_mask.bounds.holds(at),
        forall|p: Point<ScaledPixels>|
            item.bounds.holds(p) && item.content_mask.bounds.holds(p)
                ==> #[trigger] cover.bounds.holds(p),
    ensures
        !scene.culled().quads.contains(item),
{
    lemma_hidden::<Quad>(scene, scene.quads, item, cover, at);
}

/// A shadow that culling removes is painted over: at every position inside what it paints
/// and inside its content mask, an opaque quad that is kept and has a higher order is
/// painted.
pub proof fn law_removed_shadow_is_painted_over(
    scene: SceneModel,
    item: Shadow,
    at: Point<ScaledPixels>,
) -> (cover: Quad)
    requires
        scene.shadows.contains(item),
        !scene.culled().shadows.contains(item),
        item.bounds.grown(Single::product(item.blur_radius.0, Single::whole(3))).holds(at),
        item.content_mask.bounds.holds(at),
        item.bounds.grown(Single::product(item.blur_radius.0, Single::whole(3))).clips_exactly(item.content_mask.bounds),
        forall|i: int| occluder(scene.quads, i) ==> (#[trigger] scene.quads[i]).clips_soundly(),
    ensures
        scene.culled().quads.contains(cover),
        cover.hides(),
        cover.order > item.order,
        cover.bounds.holds(at),
{
    lemma_whole_three();
    lemma_removed::<Shadow>(scene, scene.shadows, item, at)
}

/// A shadow whose visible part lies behind one opaque quad of a higher order is removed,
/// as long as all that may hide it are tested: the quad is large, and one of no more than
/// sixteen such.
pub proof fn law_hidden_shadow_is_removed(
    scene: SceneModel,
    item: Shadow,
    cover: Quad,
    at: Point<ScaledPixels>,
)
    requires
        scene.quads.contains(cover),
        cover.hides(),
        cover.order > item.order,
        Single::at_most(
            Single::whole(16384),
            Single::product(cover.bounds.size.width.0, cover.bounds.size.height.0),
        ),
        candidates(scene.quads).len() <= 16,
        item.bounds.grown(Single::product(item.blur_radius.0, Single::whole(3))).clips_exactly(item.content_mask.bounds),
        item.bounds.grown(Single::product(item.blur_radius.0, Single::whole(3))).holds(at),
        item.content_mask.bounds.holds(at),
        forall|p: Point<ScaledPixels>|
            item.bounds.grown(Single::product(item.blur_radius.0, Single::whole(3))).holds(p)
                && item.content_mask.bounds.holds(p)
                ==> #[trigger] cover.bounds.holds(p),
    ensures
        !scene.culled().shadows.contains(item),
{
    lemma_whole_three();
    lemma_hidden::<Shadow>(scene, scene.shadows, item, cover, at);
}

/// An underline that culling removes is painted over: at every position inside what it
/// paints and inside its content mask, an opaque quad that is kept and has a higher order
/// is painted.
pub proof fn law_removed_underline_is_painted_over(
    scene: SceneModel,
    item: Underline,
    at: Point<ScaledPixels>,
) -> (cover: Quad)
    requires
        scene.underlines.contains(item),
        !scene.culled().underlines.contains(item),
        item.bounds.holds(at),
        item.content_mask.bounds.holds(at),
        item.bounds.clips_exactly(item.content_mask.bounds),
        forall|i: int| occluder(scene.quads, i) ==> (#[trigger] scene.quads[i]).clips_soundly(),
    ensures
        scene.culled().quads.contains(cover),
        cover.hides(),
        cover.order > item.order,
        cover.bounds.holds(at),
{
    lemma_removed::<Underline>(scene, scene.underlines, item, at)
}

/// An underline whose visible part lies behind one opaque quad of a higher order is
/// removed, as long as all that may hide it are tested: the quad is large, and one of no
/// more than sixteen such.
pub proof fn law_hidden_underline_is_removed(
    scene: SceneModel,
    item: Underline,
    cover: Quad,
    at: Point<ScaledPixels>,
)
    requires
        scene.quads.contains(cover),
        cover.hides(),
        cover.order > item.order,
        Single::at_most(
            Single::whole(16384),
            Single::product(cover.bounds.size.width.0, cover.bounds.size.height.0),
        ),
        candidates(scene.quads).len() <= 16,
        item.bounds.clips_exactly(item.content_mask.bounds),
        item.bounds.holds(at),
        item.content_mask.bounds.holds(at),
        forall|p: Point<ScaledPixels>|
            item.bounds.holds(p) && item.content_mask.bounds.holds(p)
                ==> #[trigger] cover.bounds.holds(p),
    ensures
        !scene.culled().underlines.contains(item),
{
    lemma_hidden::<Underline>(scene, scene.underlines, item, cover, at);
}

/// A monochrome sprite that culling removes is painted over: at every position inside
/// what it paints and inside its content mask, an opaque quad that is kept and has a
/// higher order is painted.
pub proof fn law_removed_monochrome_sprite_is_painted_over(
    scene: SceneModel,
    item: MonochromeSprite,
    at: Point<ScaledPixels>,
) -> (cover: Quad)
    requires
        scene.monochrome_sprites.contains(item),
        !scene.culled().monochrome_sprites.contains(item),
        item.bounds.transformed(item.transformation).holds(at),
        item.content_mask.bounds.holds(at),
        item.bounds.transformed(item.transformation).clips_exactly(item.content_mask.bounds),
        forall|i: int| occluder(scene.quads, i) ==> (#[trigger] scene.quads[i]).clips_soundly(),
    ensures
        scene.culled().quads.contains(cover),
        cover.hides(),
        cover.order > item.order,
        cover.bounds.holds(at),
{
    lemma_removed::<MonochromeSprite>(scene, scene.monochrome_sprites, item, at)
}

/// A monochrome sprite whose visible part lies behind one opaque quad of a higher order
/// is removed, as long as all that may hide it are tested: the quad is large, and one of
/// no more than sixteen such.
pub proof fn law_hidden_monochrome_sprite_is_removed(
    scene: SceneModel,
    item: MonochromeSprite,
    cover: Quad,
    at: Point<ScaledPixels>,
)
    requires
        scene.quads.contains(cover),
        cover.hides(),
        cover.order > item.order,
        Single::at_most(
            Single::whole(16384),
            Single::product(cover.bounds.size.width.0, cover.bounds.size.height.0),
        ),
        candidates(scene.quads).len() <= 16,
        item.bounds.transformed(item.transformation).clips_exactly(item.content_mask.bounds),
        item.bounds.transformed(item.transformation).holds(at),
        item.content_mask.bounds.holds(at),
        forall|p: Point<ScaledPixels>|
            item.bounds.transformed(item.transformation).holds(p)
                && item.content_mask.bounds.holds(p)
                ==> #[trigger] cover.bounds.holds(p),
    ensures
        !scene.culled().monochrome_sprites.contains(item),
{
    lemma_hidden::<MonochromeSprite>(scene, scene.monochrome_sprites, item, cover, at);
}

/// A subpixel sprite that culling removes is painted over: at every position inside what
/// it paints and inside its content mask, an opaque quad that is kept and has a higher
/// order is painted.
pub proof fn law_removed_subpixel_sprite_is_painted_over(
    scene: SceneModel,
    item: SubpixelSprite,
    at: Point<ScaledPixels>,
) -> (cover: Quad)
    requires
        scene.subpixel_sprites.contains(item),
        !scene.culled().subpixel_sprites.contains(item),
        item.bounds.transformed(item.transformation).holds(at),
        item.content_mask.bounds.holds(at),
        item.bounds.transformed(item.transformation).clips_exactly(item.content_mask.bounds),
        forall|i: int| occluder(scene.quads, i) ==> (#[trigger] scene.quads[i]).clips_soundly(),
    ensures
        scene.culled().quads.contains(cover),
        cover.hides(),
        cover.order > item.order,
        cover.bounds.holds(at),
{
    lemma_removed::<SubpixelSprite>(scene, scene.subpixel_sprites, item, at)
}

/// A subpixel sprite whose visible part lies behind one opaque quad of a higher order is
/// removed, as long as all that may hide it are tested: the quad is large, and one of no
/// more than sixteen such.
pub proof fn law_hidden_subpixel_sprite_is_removed(
    scene: SceneModel,
    item: SubpixelSprite,
    cover: Quad,
    at: Point<ScaledPixels>,
)
    requires
        scene.quads.contains(cover),
        cover.hides(),
        cover.order > item.order,
        Single::at_most(
            Single::whole(16384),
            Single::product(cover.bounds.size.width.0, cover.bounds.size.height.0),
        ),
        candidates(scene.quads).len() <= 16,
        item.bounds.transformed(item.transformation).clips_exactly(item.content_mask.bounds),
        item.bounds.transformed(item.transformation).holds(at),
        item.content_mask.bounds.holds(at),
        forall|p: Point<ScaledPixels>|
            item.bounds.transformed(item.transformation).holds(p)
                && item.content_mask.bounds.holds(p)
                ==> #[trigger] cover.bounds.holds(p),
    ensures
        !scene.culled().subpixel_sprites.contains(item),
{
    lemma_hidden::<SubpixelSprite>(scene, scene.subpixel_sprites, item, cover, at);
}

/// A polychrome sprite that culling removes is painted over: at every position inside
/// what it paints and inside its content mask, an opaque quad that is kept and has a
/// higher order is painted.
pub proof fn law_removed_polychrome_sprite_is_painted_over(
    scene: SceneModel,
    item: PolychromeSprite,
    at: Point<ScaledPixels>,
) -> (cover: Quad)
    requires
        scene.polychrome_sprites.contains(item),
        !scene.culled().polychrome_sprites.contains(item),
        item.bounds.holds(at),
        item.content_mask.bounds.holds(at),
        item.bounds.clips_exactly(item.content_mask.bounds),
        forall|i: int| occluder(scene.quads, i) ==> (#[trigger] scene.quads[i]).clips_soundly(),
    ensures
        scene.culled().quads.contains(cover),
        cover.hides(),
        cover.order > item.order,
        cover.bounds.holds(at),
{
    lemma_removed::<PolychromeSprite>(scene, scene.polychrome_sprites, item, at)
}

/// A polychrome sprite whose visible part lies behind one opaque quad of a higher order
/// is removed, as long as all that may hide it are tested: the quad is large, and one of
/// no more than sixteen such.
pub proof fn law_hidden_polychrome_sprite_is_removed(
    scene: SceneModel,
    item: PolychromeSprite,
    cover: Quad,
    at: Point<ScaledPixels>,
)
    requires
        scene.quads.contains(cover),
        cover.hides(),
        cover.order > item.order,
        Single::at_most(
            Single::whole(16384),
            Single::product(cover.bounds.size.width.0, cover.bounds.size.height.0),
        ),
        candidates(scene.quads).len() <= 16,
        item.bounds.clips_exactly(item.content_mask.bounds),
        item.bounds.holds(at),
        item.content_mask.bounds.holds(at),
        forall|p: Point<ScaledPixels>|
            item.bounds.holds(p) && item.content_mask.bounds.holds(p)
                ==> #[trigger] cover.bounds.holds(p),
    ensures
        !scene.culled().polychrome_sprites.contains(item),
{
    lemma_hidden::<PolychromeSprite>(scene, scene.polychrome_sprites, item, cover, at);
}

/// A path that culling removes is painted over: at every position inside what it paints
/// and inside its content mask, an opaque quad that is kept and has a higher order is
/// painted.
pub proof fn law_removed_path_is_painted_over(
    scene: SceneModel,
    item: PathModel,
    at: Point<ScaledPixels>,
) -> (cover: Quad)
    requires
        scene.paths.contains(item),
        !scene.culled().paths.contains(item),
        item.bounds.holds(at),
        item.content_mask.bounds.holds(at),
        item.bounds.clips_exactly(item.content_mask.bounds),
        forall|i: int| occluder(scene.quads, i) ==> (#[trigger] scene.quads[i]).clips_soundly(),
    ensures
        scene.culled().quads.contains(cover),
        cover.hides(),
        cover.order > item.order,
        cover.bounds.holds(at),
{
    lemma_removed::<Path<ScaledPixels>>(scene, scene.paths, item, at)
}

/// A path whose visible part lies behind one opaque quad of a higher order is removed, as
/// long as all that may hide it are tested: the quad is large, and one of no more than
/// sixteen such.
pub proof fn law_hidden_path_is_removed(
    scene: SceneModel,
    item: PathModel,
    cover: Quad,
    at: Point<ScaledPixels>,
)
    requires
        scene.quads.contains(cover),
        cover.hides(),
        cover.order > item.order,
        Single::at_most(
            Single::whole(16384),
            Single::product(cover.bounds.size.width.0, cover.bounds.size.height.0),
        ),
        candidates(scene.quads).len() <= 16,
        item.bounds.clips_exactly(item.content_mask.bounds),
        item.bounds.holds(at),
        item.content_mask.bounds.holds(at),
        forall|p: Point<ScaledPixels>|
            item.bounds.holds(p) && item.content_mask.bounds.holds(p)
                ==> #[trigger] cover.bounds.holds(p),
    ensures
        !scene.culled().paths.contains(item),
{
    lemma_hidden::<Path<ScaledPixels>>(scene, scene.paths, item, cover, at);
}

/// A surface that culling removes is painted over: at every position inside what it
/// paints and inside its content mask, an opaque quad that is kept and has a higher order
/// is painted.
pub proof fn law_removed_surface_is_painted_over(
    scene: SceneModel,
    item: PaintSurface,
    at: Point<ScaledPixels>,
) -> (cover: Quad)
    requires
        scene.surfaces.contains(item),
        !scene.culled().surfaces.contains(item),
        item.bounds.holds(at),
        item.content_mask.bounds.holds(at),
        item.bounds.clips_exactly(item.content_mask.bounds),
        forall|i: int| occluder(scene.quads, i) ==> (#[trigger] scene.quads[i]).clips_soundly(),
    ensures
        scene.culled().quads.contains(cover),
        cover.hides(),
        cover.order > item.order,
        cover.bounds.holds(at),
{
    lemma_removed::<PaintSurface>(scene, scene.surfaces, item, at)
}

/// A surface whose visible part lies behind one opaque quad of a higher order is removed,
/// as long as all that may hide it are tested: the quad is large, and one of no more than
/// sixteen such.
pub proof fn law_hidden_surface_is_removed(
    scene: SceneModel,
    item: PaintSurface,
    cover: Quad,
    at: Point<ScaledPixels>,
)
    requires
        scene.quads.contains(cover),
        cover.hides(),
        cover.order > item.order,
        Single::at_most(
            Single::whole(16384),
            Single::product(cover.bounds.size.width.0, cover.bounds.size.height.0),
        ),
        candidates(scene.quads).len() <= 16,
        item.bounds.clips_exactly(item.content_mask.bounds),
        item.bounds.holds(at),
        item.content_mask.bounds.holds(at),
        forall|p: Point<ScaledPixels>|
            item.bounds.holds(p) && item.content_mask.bounds.holds(p)
                ==> #[trigger] cover.bounds.holds(p),
    ensures
        !scene.culled().surfaces.contains(item),
{
    lemma_hidden::<PaintSurface>(scene, scene.surfaces, item, cover, at);
}

proof fn lemma_removed<T: Drawn>(
    scene: SceneModel,
    list: Seq<T::V>,
    item: T::V,
    at: Point<ScaledPixels>,
) -> (cover: Quad)
    requires
        list.contains(item),
        !unhidden::<T>(scene.quads, list).contains(item),
        T::painted(item).holds(at),
        T::mask_of(item).holds(at),
        T::painted(item).clips_exactly(T::mask_of(item)),
        forall|i: int| occluder(scene.quads, i) ==> (#[trigger] scene.quads[i]).clips_soundly(),
    ensures
        scene.culled().quads.contains(cover),
        cover.hides(),
        cover.order > T::order_of(item),
        cover.bounds.holds(at),
{
    law_cull_removes_only_hidden::<T>(scene.quads, list, item);
    law_intersection_holds_what_both_hold(T::painted(item), T::mask_of(item), at);
    law_removed_is_painted_over::<T>(scene, item, at)
}

proof fn lemma_hidden<T: Drawn>(
    scene: SceneModel,
    list: Seq<T::V>,
    item: T::V,
    cover: Quad,
    at: Point<ScaledPixels>,
)
    requires
        scene.quads.contains(cover),
        cover.hides(),
        cover.order > T::order_of(item),
        Single::at_most(
            Single::whole(16384),
            Single::product(cover.bounds.size.width.0, cover.bounds.size.height.0),
        ),
        candidates(scene.quads).len() <= 16,
        T::painted(item).clips_exactly(T::mask_of(item)),
        T::painted(item).holds(at),
        T::mask_of(item).holds(at),
        forall|p: Point<ScaledPixels>|
            T::painted(item).holds(p) && T::mask_of(item).holds(p)
                ==> #[trigger] cover.bounds.holds(p),
    ensures
        !unhidden::<T>(scene.quads, list).contains(item),
{
    let seen = visible::<T>(item);
    law_intersection_holds_what_both_hold(T::painted(item), T::mask_of(item), at);
    assert forall|p: Point<ScaledPixels>| #[trigger] seen.holds(p) implies cover.bounds.holds(
        p,
    ) by {
        law_intersection_holds_what_both_hold(T::painted(item), T::mask_of(item), p);
    }
    assert(seen.holds(at));
    law_covering_is_holding_all(cover.bounds, seen);
    let i: int = choose|i: int| 0 <= i < scene.quads.len() && scene.quads[i] == cover;
    law_candidates_are_large_and_opaque(cover);
    law_occluders_are_capped(scene.quads);
    assert(candidates(scene.quads).contains(i));
    assert(occluders_of(scene.quads).contains(i));
    assert(occluder(scene.quads, i));
    assert(hidden(scene.quads, T::order_of(item), seen));
    law_cull_removes_only_hidden::<T>(scene.quads, list, item);
}

/// What culling leaves of every kind is what it was, in its order, without those whose
/// bounds, clipped to their content mask, an occluder of a higher `order` contains.
pub proof fn law_cull_keeps_the_rest(scene: SceneModel)
    ensures
        scene.culled().quads == scene.quads.filter(
            |p: Quad|
                !hidden(
                    scene.quads,
                    p.order,
                    p.bounds.clipped(p.content_mask.bounds),
                ),
        ),
        scene.culled().shadows == scene.shadows.filter(
            |p: Shadow|
                !hidden(
                    scene.quads,
                    p.order,
                    p.bounds.grown(Single::product(p.blur_radius.0, Single::whole(3))).clipped(p.content_mask.bounds),
                ),
        ),
        scene.culled().underlines == scene.underlines.filter(
            |p: Underline|
                !hidden(
                    scene.quads,
                    p.order,
                    p.bounds.clipped(p.content_mask.bounds),
                ),
        ),
        scene.culled().monochrome_sprites == scene.monochrome_sprites.filter(
            |p: MonochromeSprite|
                !hidden(
                    scene.quads,
                    p.order,
                    p.bounds.transformed(p.transformation).clipped(p.content_mask.bounds),
                ),
        ),
        scene.culled().subpixel_sprites == scene.subpixel_sprites.filter(
            |p: SubpixelSprite|
                !hidden(
                    scene.quads,
                    p.order,
                    p.bounds.transformed(p.transformation).clipped(p.content_mask.bounds),
                ),
        ),
        scene.culled().polychrome_sprites == scene.polychrome_sprites.filter(
            |p: PolychromeSprite|
                !hidden(
                    scene.quads,
                    p.order,
                    p.bounds.clipped(p.content_mask.bounds),
                ),
        ),
        scene.culled().paths == scene.paths.filter(
            |p: PathModel|
                !hidden(
                    scene.quads,
                    p.order,
                    p.bounds.clipped(p.content_mask.bounds),
                ),
        ),
        scene.culled().surfaces == scene.surfaces.filter(
            |p: PaintSurface|
                !hidden(
                    scene.quads,
                    p.order,
                    p.bounds.clipped(p.content_mask.bounds),
                ),
        ),
        scene.culled().primitive_bounds == scene.primitive_bounds,
{
    lemma_whole_three();
    assert((|p: Quad|
        !hidden(scene.quads, p.order, p.bounds.clipped(p.content_mask.bounds)))
        =~= (|item: Quad|
        !hidden(scene.quads, Quad::order_of(item), visible::<Quad>(item))));
    assert((|p: Shadow|
        !hidden(
            scene.quads,
            p.order, p.bounds.grown(Single::product(p.blur_radius.0, Single::whole(3))).clipped(p.content_mask.bounds)))
        =~= (|item: Shadow|
        !hidden(scene.quads, Shadow::order_of(item), visible::<Shadow>(item))));
    assert((|p: Underline|
        !hidden(scene.quads, p.order, p.bounds.clipped(p.content_mask.bounds)))
        =~= (|item: Underline|
        !hidden(scene.quads, Underline::order_of(item), visible::<Underline>(item))));
    assert((|p: MonochromeSprite|
        !hidden(
            scene.quads,
            p.order, p.bounds.transformed(p.transformation).clipped(p.content_mask.bounds)))
        =~= (|item: MonochromeSprite|
        !hidden(scene.quads, MonochromeSprite::order_of(item), visible::<MonochromeSprite>(item))));
    assert((|p: SubpixelSprite|
        !hidden(
            scene.quads,
            p.order, p.bounds.transformed(p.transformation).clipped(p.content_mask.bounds)))
        =~= (|item: SubpixelSprite|
        !hidden(scene.quads, SubpixelSprite::order_of(item), visible::<SubpixelSprite>(item))));
    assert((|p: PolychromeSprite|
        !hidden(scene.quads, p.order, p.bounds.clipped(p.content_mask.bounds)))
        =~= (|item: PolychromeSprite|
        !hidden(scene.quads, PolychromeSprite::order_of(item), visible::<PolychromeSprite>(item))));
    assert((|p: PathModel|
        !hidden(scene.quads, p.order, p.bounds.clipped(p.content_mask.bounds)))
        =~= (|item: PathModel|
        !hidden(
            scene.quads,
            Path::<ScaledPixels>::order_of(item), visible::<Path<ScaledPixels>>(item))));
    assert((|p: PaintSurface|
        !hidden(scene.quads, p.order, p.bounds.clipped(p.content_mask.bounds)))
        =~= (|item: PaintSurface|
        !hidden(scene.quads, PaintSurface::order_of(item), visible::<PaintSurface>(item))));
}

/// Nothing is damaged exactly where every primitive of every kind is the same in all of
/// its fields, in the same place.
pub proof fn law_unchanged_means_the_same_fields(prev: Scene, next: Scene)
    ensures
        SceneDamage::around(changed_regions(prev@, next@)) is Unchanged <==> {
            &&& prev.quads@ == next.quads@
            &&& prev.shadows@ == next.shadows@
            &&& prev.underlines@ == next.underlines@
            &&& prev.monochrome_sprites@ == next.monochrome_sprites@
            &&& prev.subpixel_sprites@ == next.subpixel_sprites@
            &&& prev.polychrome_sprites@ == next.polychrome_sprites@
            &&& prev.surfaces@ == next.surfaces@
            &&& prev.paths@.len() == next.paths@.len()
            &&& forall|i: int|
                0 <= i < prev.paths@.len() ==> {
                    let (a, b) = (#[trigger] prev.paths@[i], next.paths@[i]);
                    &&& a.order == b.order
                    &&& a.bounds == b.bounds
                    &&& a.content_mask == b.content_mask
                    &&& a.vertices@ == b.vertices@
                    &&& a.color == b.color
                }
        },
{
    law_unchanged_means_alike(prev@, next@);
    law_model_is_the_scene(prev);
    law_model_is_the_scene(next);
    if prev@.paths == next@.paths {
        assert forall|i: int| 0 <= i < prev.paths@.len() implies {
            let (a, b) = (#[trigger] prev.paths@[i], next.paths@[i]);
            &&& a.order == b.order
            &&& a.bounds == b.bounds
            &&& a.content_mask == b.content_mask
            &&& a.vertices@ == b.vertices@
            &&& a.color == b.color
        } by {
            assert(prev@.paths[i] == next@.paths[i]);
        }
    } else if prev.paths@.len() == next.paths@.len() {
        assert(exists|i: int| 0 <= i < prev@.paths.len() && prev@.paths[i] != next@.paths[i]) by {
            if forall|i: int| 0 <= i < prev@.paths.len() ==> prev@.paths[i] == next@.paths[i] {
                assert(prev@.paths =~= next@.paths);
            }
        }
        let i: int = choose|i: int| 0 <= i < prev@.paths.len() && prev@.paths[i] != next@.paths[i];
        let (a, b) = (prev.paths@[i], next.paths@[i]);
        assert(prev@.paths[i] == a@ && next@.paths[i] == b@);
    }
}

/// The bounds and the content mask that a primitive was given.
pub open spec fn given(primitive: Primitive) -> (Bounds<ScaledPixels>, Bounds<ScaledPixels>) {
    match primitive {
        Primitive::Quad(p) => (p.bounds, p.content_mask.bounds),
        Primitive::Shadow(p) => (p.bounds, p.content_mask.bounds),
        Primitive::Underline(p) => (p.bounds, p.content_mask.bounds),
        Primitive::MonochromeSprite(p) => (p.bounds, p.content_mask.bounds),
        Primitive::SubpixelSprite(p) => (p.bounds, p.content_mask.bounds),
        Primitive::PolychromeSprite(p) => (p.bounds, p.content_mask.bounds),
        Primitive::Path(p) => (p.bounds, p.content_mask.bounds),
        Primitive::Surface(p) => (p.bounds, p.content_mask.bounds),
    }
}

/// A primitive is put into the scene as it was given, but for its order: behind those of
/// its kind, with a place above everything that it overlaps and no higher than it must
/// be. One of which the content mask leaves nothing is not put in at all.
pub proof fn law_primitive_is_put_above_what_it_overlaps(scene: SceneModel, primitive: Primitive)
    ensures
        ({
            let (bounds, mask) = given(primitive);
            let seen = bounds.clipped(mask);
            let after = scene.with(primitive);
            if seen.empty() {
                after == scene
            } else {
                exists|order: DrawOrder|
                    {
                        &&& #[trigger] lowest_above(scene.primitive_bounds, seen, order)
                        &&& after == SceneModel {
                            primitive_bounds: scene.primitive_bounds.push(
                                Placed { order, bounds: seen },
                            ),
                            ..put_in(
                                scene,
                                with_order(primitive, order),
                                number_of_kind(scene, primitive) as int,
                            )
                        }
                    }
            }
        }),
{
    let seen = primitive.extent().clipped(primitive.mask());
    if !seen.empty() {
        let order = order_above(topmost(scene.primitive_bounds, seen));
        lemma_lowest_above(scene.primitive_bounds, seen);
        lemma_with_is_put_in(scene, primitive);
        assert(lowest_above(scene.primitive_bounds, seen, order));
    }
    assert(given(primitive) == (primitive.extent(), primitive.mask()));
}

proof fn lemma_lowest_above(placed: Seq<Placed>, seen: Bounds<ScaledPixels>)
    ensures
        lowest_above(placed, seen, order_above(topmost(placed, seen))),
{
    let below = topmost(placed, seen);
    assert forall|i: int|
        0 <= i < placed.len() && (#[trigger] placed[i]).bounds.overlaps(seen) implies
        placed[i].order <= below by {
        law_topmost_is_above(placed, seen, i);
    }
    lemma_topmost_is_met(placed, seen);
}

proof fn lemma_with_is_put_in(scene: SceneModel, primitive: Primitive)
    requires
        !primitive.extent().clipped(primitive.mask()).empty(),
    ensures
        ({
            let seen = primitive.extent().clipped(primitive.mask());
            let order = order_above(topmost(scene.primitive_bounds, seen));
            let n: int = number_of_kind(scene, primitive) as int;
            scene.with(primitive) == SceneModel {
                primitive_bounds: scene.primitive_bounds.push(Placed { order, bounds: seen }),
                ..put_in(scene, with_order(primitive, order), n)
            }
        }),
{
    let seen = primitive.extent().clipped(primitive.mask());
    let order = order_above(topmost(scene.primitive_bounds, seen));
    let n: int = number_of_kind(scene, primitive) as int;
    match primitive {
        Primitive::Quad(p) => {
            assert(scene.quads.insert(n, Quad { order, ..p })
                =~= scene.quads.push(Quad { order, ..p }));
        },
        Primitive::Shadow(p) => {
            assert(scene.shadows.insert(n, Shadow { order, ..p })
                =~= scene.shadows.push(Shadow { order, ..p }));
        },
        Primitive::Underline(p) => {
            assert(scene.underlines.insert(n, Underline { order, ..p })
                =~= scene.underlines.push(Underline { order, ..p }));
        },
        Primitive::MonochromeSprite(p) => {
            assert(scene.monochrome_sprites.insert(n, MonochromeSprite { order, ..p })
                =~= scene.monochrome_sprites.push(MonochromeSprite { order, ..p }));
        },
        Primitive::SubpixelSprite(p) => {
            assert(scene.subpixel_sprites.insert(n, SubpixelSprite { order, ..p })
                =~= scene.subpixel_sprites.push(SubpixelSprite { order, ..p }));
        },
        Primitive::PolychromeSprite(p) => {
            assert(scene.polychrome_sprites.insert(n, PolychromeSprite { order, ..p })
                =~= scene.polychrome_sprites.push(PolychromeSprite { order, ..p }));
        },
        Primitive::Path(p) => {
            assert(scene.paths.insert(n, PathModel { order, ..p@ })
                =~= scene.paths.push(PathModel { order, ..p@ }));
        },
        Primitive::Surface(p) => {
            assert(scene.surfaces.insert(n, PaintSurface { order, ..p })
                =~= scene.surfaces.push(PaintSurface { order, ..p }));
        },
    }
}

/// Whether a place in the order is above everything painted across a rectangle, and no
/// higher than it must be. The highest place of all is shared.
pub open spec fn lowest_above(
    placed: Seq<Placed>,
    bounds: Bounds<ScaledPixels>,
    order: DrawOrder,
) -> bool {
    &&& order > 0
    &&& forall|i: int|
        0 <= i < placed.len() && (#[trigger] placed[i]).bounds.overlaps(bounds) ==> placed[i].order
            < order || order == DrawOrder::MAX
    &&& order > 1 ==> exists|i: int|
        0 <= i < placed.len() && (#[trigger] placed[i]).bounds.overlaps(bounds)
            && placed[i].order >= order - 1
}

/// A primitive with another place in the order.
pub open spec fn with_order(primitive: Primitive, order: DrawOrder) -> Primitive {
    match primitive {
        Primitive::Quad(p) => Primitive::Quad(Quad { order, ..p }),
        Primitive::Shadow(p) => Primitive::Shadow(Shadow { order, ..p }),
        Primitive::Underline(p) => Primitive::Underline(Underline { order, ..p }),
        Primitive::MonochromeSprite(p) => Primitive::MonochromeSprite(MonochromeSprite { order, ..p }),
        Primitive::SubpixelSprite(p) => Primitive::SubpixelSprite(SubpixelSprite { order, ..p }),
        Primitive::PolychromeSprite(p) => Primitive::PolychromeSprite(PolychromeSprite { order, ..p }),
        Primitive::Path(p) => Primitive::Path(Path { order, ..p }),
        Primitive::Surface(p) => Primitive::Surface(PaintSurface { order, ..p }),
    }
}

proof fn lemma_topmost_is_met(placed: Seq<Placed>, bounds: Bounds<ScaledPixels>)
    ensures
        topmost(placed, bounds) > 0 ==> exists|i: int|
            0 <= i < placed.len() && (#[trigger] placed[i]).bounds.overlaps(bounds)
                && placed[i].order == topmost(placed, bounds),
    decreases placed.len(),
{
    if placed.len() > 0 {
        let rest = placed.drop_last();
        lemma_topmost_is_met(rest, bounds);
        let last = placed.last();
        assert(placed[placed.len() - 1] == last);
        if topmost(rest, bounds) > 0 {
            let i: int = choose|i: int|
                0 <= i < rest.len() && (#[trigger] rest[i]).bounds.overlaps(bounds)
                    && rest[i].order == topmost(rest, bounds);
            assert(placed[i] == rest[i]);
        }
    }
}

/// Finishing a scene makes every kind rise in `order`, moves nothing in or out, and
/// leaves those of one order as they stood.
pub proof fn law_finishing_sorts_by_order(scene: SceneModel, order: DrawOrder)
    ensures
        rising(scene.sorted().quads.map_values(|p: Quad| p.order)),
        scene.sorted().quads.to_multiset() == scene.quads.to_multiset(),
        scene.sorted().quads.filter(|p: Quad| p.order == order) == scene.quads.filter(
            |p: Quad| p.order == order,
        ),
        rising(scene.sorted().shadows.map_values(|p: Shadow| p.order)),
        scene.sorted().shadows.to_multiset() == scene.shadows.to_multiset(),
        scene.sorted().shadows.filter(|p: Shadow| p.order == order) == scene.shadows.filter(
            |p: Shadow| p.order == order,
        ),
        rising(scene.sorted().underlines.map_values(|p: Underline| p.order)),
        scene.sorted().underlines.to_multiset() == scene.underlines.to_multiset(),
        scene.sorted().underlines.filter(|p: Underline| p.order == order)
            == scene.underlines.filter(
            |p: Underline| p.order == order,
        ),
        rising(scene.sorted().monochrome_sprites.map_values(|p: MonochromeSprite| p.order)),
        scene.sorted().monochrome_sprites.to_multiset() == scene.monochrome_sprites.to_multiset(),
        scene.sorted().monochrome_sprites.filter(|p: MonochromeSprite| p.order == order)
            == scene.monochrome_sprites.filter(
            |p: MonochromeSprite| p.order == order,
        ),
        rising(scene.sorted().subpixel_sprites.map_values(|p: SubpixelSprite| p.order)),
        scene.sorted().subpixel_sprites.to_multiset() == scene.subpixel_sprites.to_multiset(),
        scene.sorted().subpixel_sprites.filter(|p: SubpixelSprite| p.order == order)
            == scene.subpixel_sprites.filter(
            |p: SubpixelSprite| p.order == order,
        ),
        rising(scene.sorted().polychrome_sprites.map_values(|p: PolychromeSprite| p.order)),
        scene.sorted().polychrome_sprites.to_multiset() == scene.polychrome_sprites.to_multiset(),
        scene.sorted().polychrome_sprites.filter(|p: PolychromeSprite| p.order == order)
            == scene.polychrome_sprites.filter(
            |p: PolychromeSprite| p.order == order,
        ),
        rising(scene.sorted().paths.map_values(|p: PathModel| p.order)),
        scene.sorted().paths.to_multiset() == scene.paths.to_multiset(),
        scene.sorted().paths.filter(|p: PathModel| p.order == order) == scene.paths.filter(
            |p: PathModel| p.order == order,
        ),
        rising(scene.sorted().surfaces.map_values(|p: PaintSurface| p.order)),
        scene.sorted().surfaces.to_multiset() == scene.surfaces.to_multiset(),
        scene.sorted().surfaces.filter(|p: PaintSurface| p.order == order) == scene.surfaces.filter(
            |p: PaintSurface| p.order == order,
        ),
        scene.sorted().primitive_bounds == scene.primitive_bounds,
{
    law_in_order_sorts::<Quad>(scene.quads);
    lemma_in_order_is_stable::<Quad>(scene.quads, order);
    assert((|p: Quad| p.order == order) =~= (|p: Quad| Quad::order_of(p) == order));
    law_in_order_sorts::<Shadow>(scene.shadows);
    lemma_in_order_is_stable::<Shadow>(scene.shadows, order);
    assert((|p: Shadow| p.order == order) =~= (|p: Shadow| Shadow::order_of(p) == order));
    law_in_order_sorts::<Underline>(scene.underlines);
    lemma_in_order_is_stable::<Underline>(scene.underlines, order);
    assert((|p: Underline| p.order == order) =~= (|p: Underline| Underline::order_of(p) == order));
    law_in_order_sorts::<MonochromeSprite>(scene.monochrome_sprites);
    lemma_in_order_is_stable::<MonochromeSprite>(scene.monochrome_sprites, order);
    assert((|p: MonochromeSprite| p.order == order)
        =~= (|p: MonochromeSprite| MonochromeSprite::order_of(p) == order));
    law_in_order_sorts::<SubpixelSprite>(scene.subpixel_sprites);
    lemma_in_order_is_stable::<SubpixelSprite>(scene.subpixel_sprites, order);
    assert((|p: SubpixelSprite| p.order == order)
        =~= (|p: SubpixelSprite| SubpixelSprite::order_of(p) == order));
    law_in_order_sorts::<PolychromeSprite>(scene.polychrome_sprites);
    lemma_in_order_is_stable::<PolychromeSprite>(scene.polychrome_sprites, order);
    assert((|p: PolychromeSprite| p.order == order)
        =~= (|p: PolychromeSprite| PolychromeSprite::order_of(p) == order));
    law_in_order_sorts::<Path<ScaledPixels>>(scene.paths);
    lemma_in_order_is_stable::<Path<ScaledPixels>>(scene.paths, order);
    assert((|p: PathModel| p.order == order)
        =~= (|p: PathModel| Path::<ScaledPixels>::order_of(p) == order));
    law_in_order_sorts::<PaintSurface>(scene.surfaces);
    lemma_in_order_is_stable::<PaintSurface>(scene.surfaces, order);
    assert((|p: PaintSurface| p.order == order)
        =~= (|p: PaintSurface| PaintSurface::order_of(p) == order));
}

proof fn lemma_in_order_is_stable<T: Drawn>(list: Seq<T::V>, order: DrawOrder)
    ensures
        in_order::<T>(list).filter(|p: T::V| T::order_of(p) == order) == list.filter(
            |p: T::V| T::order_of(p) == order,
        ),
    decreases list.len(),
{
    reveal(Seq::filter);
    if list.len() > 0 {
        lemma_in_order_is_stable::<T>(list.drop_last(), order);
        lemma_inserted_is_stable::<T>(in_order::<T>(list.drop_last()), list.last(), order);
    }
}

proof fn lemma_inserted_is_stable<T: Drawn>(list: Seq<T::V>, item: T::V, order: DrawOrder)
    ensures
        inserted::<T>(list, item).filter(|p: T::V| T::order_of(p) == order) == if T::order_of(item)
            == order {
            list.filter(|p: T::V| T::order_of(p) == order).push(item)
        } else {
            list.filter(|p: T::V| T::order_of(p) == order)
        },
    decreases list.len(),
{
    let pred = |p: T::V| T::order_of(p) == order;
    reveal(Seq::filter);
    if list.len() > 0 && T::order_of(list.last()) > T::order_of(item) {
        let low = inserted::<T>(list.drop_last(), item);
        lemma_inserted_is_stable::<T>(list.drop_last(), item, order);
        assert(low.push(list.last()).drop_last() =~= low);
    } else {
        assert(list.push(item).drop_last() =~= list);
    }
}

/// One occluder removes from a list what is drawn before it and whose visible part it
/// contains, and nothing else.
pub proof fn law_one_occluder_removes_what_it_covers<T: Drawn>(
    order: DrawOrder,
    bounds: Bounds<ScaledPixels>,
    list: Seq<T>,
    item: T,
)
    ensures
        uncovered(seq![(order, bounds)], list.push(item)) == if order > T::order_of(item@)
            && bounds.encloses(T::painted(item@).clipped(T::mask_of(item@))) {
            uncovered(seq![(order, bounds)], list)
        } else {
            uncovered(seq![(order, bounds)], list).push(item)
        },
{
    let one = seq![(order, bounds)];
    reveal(Seq::filter);
    assert(list.push(item).drop_last() =~= list);
    assert(one[0] == (order, bounds));
    assert(covered(one, T::order_of(item@), visible::<T>(item@)) == (order > T::order_of(item@)
        && bounds.encloses(visible::<T>(item@))));
}

} // verus!
