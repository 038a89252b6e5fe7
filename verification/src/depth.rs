//! What an opaque depth pre-pass needs: the depth range and the quads that hide what
//! is behind them.

use crate::geometry::{covers, ScaledPixels};
use crate::scene::{
    ascending, models, BackgroundTag, DrawOrder, Drawn, MonochromeSprite, PaintSurface, Path,
    PathModel, PolychromeSprite, Quad, Scene, SceneModel, Shadow, SubpixelSprite, Underline,
};
use crate::single::{lemma_whole_one, lemma_whole_zero, same_number, Single};
use vstd::prelude::*;

verus! {

impl Quad {
    /// Whether the quad is a fully opaque solid fill with no rounding, border or
    /// clipping, so that everything behind it is truly hidden.
    pub open spec fn hides(self) -> bool {
        &&& self.background.solid_color() matches Some(color)
        &&& color.opaque()
        &&& self.corner_radii.top_left.0.magnitude() == 0
        &&& self.corner_radii.top_right.0.magnitude() == 0
        &&& self.corner_radii.bottom_left.0.magnitude() == 0
        &&& self.corner_radii.bottom_right.0.magnitude() == 0
        &&& self.border_widths.top.0.magnitude() == 0
        &&& self.border_widths.right.0.magnitude() == 0
        &&& self.border_widths.bottom.0.magnitude() == 0
        &&& self.border_widths.left.0.magnitude() == 0
        &&& self.content_mask.bounds.encloses(self.bounds)
    }
}

/// Whether a quad is a fully opaque solid fill with no rounding, border or clipping.
pub fn is_opaque_quad(quad: &Quad) -> (opaque: bool)
    ensures
        opaque == quad.hides(),
        opaque <==> {
            let bounds = quad.bounds;
            let mask = quad.content_mask.bounds;
            &&& quad.background.tag == BackgroundTag::Solid
            &&& same_number(quad.background.solid.a, Single::whole(1))
            &&& same_number(quad.corner_radii.top_left.0, Single::whole(0))
            &&& same_number(quad.corner_radii.top_right.0, Single::whole(0))
            &&& same_number(quad.corner_radii.bottom_left.0, Single::whole(0))
            &&& same_number(quad.corner_radii.bottom_right.0, Single::whole(0))
            &&& same_number(quad.border_widths.top.0, Single::whole(0))
            &&& same_number(quad.border_widths.right.0, Single::whole(0))
            &&& same_number(quad.border_widths.bottom.0, Single::whole(0))
            &&& same_number(quad.border_widths.left.0, Single::whole(0))
            &&& Single::at_most(mask.origin.x.0, bounds.origin.x.0)
            &&& Single::at_most(mask.origin.y.0, bounds.origin.y.0)
            &&& Single::at_most(
                Single::sum(bounds.origin.x.0, bounds.size.width.0),
                Single::sum(mask.origin.x.0, mask.size.width.0),
            )
            &&& Single::at_most(
                Single::sum(bounds.origin.y.0, bounds.size.height.0),
                Single::sum(mask.origin.y.0, mask.size.height.0),
            )
        },
{
    proof {
        law_opaque_quads_are_plain(*quad);
    }
    let solid_opaque = match quad.background.as_solid() {
        Some(color) => color.is_opaque(),
        None => false,
    };
    if !solid_opaque {
        return false;
    }
    let zero = Single { bits: 0 };
    let radii = quad.corner_radii;
    let widths = quad.border_widths;
    let unrounded = radii.top_left.0.equals(zero) && radii.top_right.0.equals(zero)
        && radii.bottom_left.0.equals(zero) && radii.bottom_right.0.equals(zero);
    let unbordered = widths.top.0.equals(zero) && widths.right.0.equals(zero)
        && widths.bottom.0.equals(zero) && widths.left.0.equals(zero);
    unrounded && unbordered && covers(&quad.content_mask.bounds, &quad.bounds)
}

/// A quad hides what is behind it exactly where it is filled with one colour whose opacity
/// is one, each of its corner radii and border widths is zero, and its content mask cuts
/// nothing off on any side.
pub proof fn law_opaque_quads_are_plain(quad: Quad)
    ensures
        quad.hides() <==> {
            let bounds = quad.bounds;
            let mask = quad.content_mask.bounds;
            &&& quad.background.tag == BackgroundTag::Solid
            &&& same_number(quad.background.solid.a, Single::whole(1))
            &&& same_number(quad.corner_radii.top_left.0, Single::whole(0))
            &&& same_number(quad.corner_radii.top_right.0, Single::whole(0))
            &&& same_number(quad.corner_radii.bottom_left.0, Single::whole(0))
            &&& same_number(quad.corner_radii.bottom_right.0, Single::whole(0))
            &&& same_number(quad.border_widths.top.0, Single::whole(0))
            &&& same_number(quad.border_widths.right.0, Single::whole(0))
            &&& same_number(quad.border_widths.bottom.0, Single::whole(0))
            &&& same_number(quad.border_widths.left.0, Single::whole(0))
            &&& Single::at_most(mask.origin.x.0, bounds.origin.x.0)
            &&& Single::at_most(mask.origin.y.0, bounds.origin.y.0)
            &&& Single::at_most(
                Single::sum(bounds.origin.x.0, bounds.size.width.0),
                Single::sum(mask.origin.x.0, mask.size.width.0),
            )
            &&& Single::at_most(
                Single::sum(bounds.origin.y.0, bounds.size.height.0),
                Single::sum(mask.origin.y.0, mask.size.height.0),
            )
        },
{
    lemma_whole_zero();
    lemma_whole_one();
}

/// The draw order of the last item of a list, or 0.
pub open spec fn last_order<T: Drawn>(list: Seq<T::V>) -> DrawOrder {
    if list.len() == 0 {
        0
    } else {
        T::order_of(list.last())
    }
}

/// The larger of two draw orders.
pub open spec fn later(a: DrawOrder, b: DrawOrder) -> DrawOrder {
    if a < b {
        b
    } else {
        a
    }
}

/// Whether no item of a list is drawn after `order`.
pub open spec fn all_up_to<T: Drawn>(list: Seq<T::V>, order: DrawOrder) -> bool {
    forall|i: int| 0 <= i < list.len() ==> T::order_of(#[trigger] list[i]) <= order
}

/// Whether an item of a list is drawn at `order`.
pub open spec fn some_at<T: Drawn>(list: Seq<T::V>, order: DrawOrder) -> bool {
    exists|i: int| 0 <= i < list.len() && T::order_of(#[trigger] list[i]) == order
}

impl SceneModel {
    /// The highest draw order among the last items of every kind, or 0.
    pub open spec fn last_order(self) -> DrawOrder {
        let solid = later(last_order::<Quad>(self.quads), last_order::<Shadow>(self.shadows));
        let drawn = later(
            later(solid, last_order::<Path<ScaledPixels>>(self.paths)),
            last_order::<Underline>(self.underlines),
        );
        let glyphs = later(
            later(drawn, last_order::<MonochromeSprite>(self.monochrome_sprites)),
            last_order::<SubpixelSprite>(self.subpixel_sprites),
        );
        later(
            later(glyphs, last_order::<PolychromeSprite>(self.polychrome_sprites)),
            last_order::<PaintSurface>(self.surfaces),
        )
    }

    /// Whether `order` is the highest draw order across all primitives.
    pub open spec fn highest(self, order: DrawOrder) -> bool {
        &&& all_up_to::<Quad>(self.quads, order)
        &&& all_up_to::<Shadow>(self.shadows, order)
        &&& all_up_to::<Path<ScaledPixels>>(self.paths, order)
        &&& all_up_to::<Underline>(self.underlines, order)
        &&& all_up_to::<MonochromeSprite>(self.monochrome_sprites, order)
        &&& all_up_to::<SubpixelSprite>(self.subpixel_sprites, order)
        &&& all_up_to::<PolychromeSprite>(self.polychrome_sprites, order)
        &&& all_up_to::<PaintSurface>(self.surfaces, order)
        &&& {
            ||| some_at::<Quad>(self.quads, order)
            ||| some_at::<Shadow>(self.shadows, order)
            ||| some_at::<Path<ScaledPixels>>(self.paths, order)
            ||| some_at::<Underline>(self.underlines, order)
            ||| some_at::<MonochromeSprite>(self.monochrome_sprites, order)
            ||| some_at::<SubpixelSprite>(self.subpixel_sprites, order)
            ||| some_at::<PolychromeSprite>(self.polychrome_sprites, order)
            ||| some_at::<PaintSurface>(self.surfaces, order)
            ||| order == 0 && self.nothing_drawn()
        }
    }

    /// The quads that hide what is behind them, in scene order.
    pub open spec fn opaque_quads(self) -> Seq<Quad> {
        self.quads.filter(|quad: Quad| quad.hides())
    }

    /// Whether there is no primitive of any kind.
    pub open spec fn nothing_drawn(self) -> bool {
        &&& self.quads.len() == 0
        &&& self.shadows.len() == 0
        &&& self.paths.len() == 0
        &&& self.underlines.len() == 0
        &&& self.monochrome_sprites.len() == 0
        &&& self.subpixel_sprites.len() == 0
        &&& self.polychrome_sprites.len() == 0
        &&& self.surfaces.len() == 0
    }
}

impl Scene {
    /// The highest draw order across all primitives, or 0 if the scene is empty.
    ///
    /// A renderer can map each primitive's `order` to a depth value relative to
    /// this maximum to drive an opaque depth pre-pass. The kinds of a finished scene
    /// are sorted, so only the last item of each is looked at.
    pub fn max_order(&self) -> (order: DrawOrder)
        ensures
            order == self@.last_order(),
            self@.finished() ==> self@.highest(order),
            self.quads@.len() > 0 ==> self.quads@.last().order <= order,
            self.shadows@.len() > 0 ==> self.shadows@.last().order <= order,
            self.paths@.len() > 0 ==> self.paths@.last().order <= order,
            self.underlines@.len() > 0 ==> self.underlines@.last().order <= order,
            self.monochrome_sprites@.len() > 0 ==> self.monochrome_sprites@.last().order <= order,
            self.subpixel_sprites@.len() > 0 ==> self.subpixel_sprites@.last().order <= order,
            self.polychrome_sprites@.len() > 0 ==> self.polychrome_sprites@.last().order <= order,
            self.surfaces@.len() > 0 ==> self.surfaces@.last().order <= order,
            order > 0 ==> {
                ||| self.quads@.len() > 0 && self.quads@.last().order == order
                ||| self.shadows@.len() > 0 && self.shadows@.last().order == order
                ||| self.paths@.len() > 0 && self.paths@.last().order == order
                ||| self.underlines@.len() > 0 && self.underlines@.last().order == order
                ||| self.monochrome_sprites@.len() > 0 && self.monochrome_sprites@.last().order
                    == order
                ||| self.subpixel_sprites@.len() > 0 && self.subpixel_sprites@.last().order
                    == order
                ||| self.polychrome_sprites@.len() > 0 && self.polychrome_sprites@.last().order
                    == order
                ||| self.surfaces@.len() > 0 && self.surfaces@.last().order == order
            },
    {
        let mut order: DrawOrder = last_of(&self.quads);
        order = max_of(order, last_of(&self.shadows));
        order = max_of(order, last_of(&self.paths));
        order = max_of(order, last_of(&self.underlines));
        order = max_of(order, last_of(&self.monochrome_sprites));
        order = max_of(order, last_of(&self.subpixel_sprites));
        order = max_of(order, last_of(&self.polychrome_sprites));
        order = max_of(order, last_of(&self.surfaces));
        proof {
            if self@.finished() {
                law_last_order_is_highest(self@);
            }
        }
        order
    }

    /// Quads eligible for an opaque depth pre-pass: fully opaque solid fills with
    /// no rounding, border, or clipping, so they can be drawn without a fragment
    /// shader to occlude whatever is behind them.
    ///
    /// Given in scene order (ascending by `order` once the scene is finished).
    pub fn opaque_quads(&self) -> (opaque: Vec<&Quad>)
        ensures
            opaque@.map_values(|quad: &Quad| *quad) == self@.opaque_quads(),
    {
        let mut opaque: Vec<&Quad> = Vec::new();
        let mut i: usize = 0;
        let ghost hides = |quad: Quad| quad.hides();
        let ghost plain = |quad: &Quad| *quad;
        proof {
            reveal(Seq::filter);
            assert(self.quads@.take(0).filter(hides) =~= opaque@.map_values(plain));
        }
        while i < self.quads.len()
            invariant
                i <= self.quads.len(),
                hides == (|quad: Quad| quad.hides()),
                plain == (|quad: &Quad| *quad),
                opaque@.map_values(plain) == self.quads@.take(i as int).filter(hides),
            decreases self.quads.len() - i,
        {
            let ghost before = opaque@;
            proof {
                reveal(Seq::filter);
                assert(self.quads@.take(i + 1).drop_last() =~= self.quads@.take(i as int));
            }
            if is_opaque_quad(&self.quads[i]) {
                opaque.push(&self.quads[i]);
                assert(opaque@.map_values(plain) =~= before.map_values(plain).push(
                    self.quads@[i as int],
                ));
            }
            i = i + 1;
        }
        proof {
            assert(self.quads@.take(i as int) =~= self@.quads);
        }
        opaque
    }
}

fn max_of(a: DrawOrder, b: DrawOrder) -> (order: DrawOrder)
    ensures
        order == later(a, b),
{
    if a < b {
        b
    } else {
        a
    }
}

/// The draw order of the last item of a list, or 0.
fn last_of<T: Drawn>(list: &Vec<T>) -> (order: DrawOrder)
    ensures
        order == last_order::<T>(models(list@)),
{
    if list.len() == 0 {
        0
    } else {
        list[list.len() - 1].draw_order()
    }
}

/// Once the scene is finished, nothing is drawn after the highest of the last items.
pub proof fn law_last_order_is_highest(scene: SceneModel)
    requires
        scene.finished(),
    ensures
        scene.highest(scene.last_order()),
{
    let order = scene.last_order();
    lemma_last_order::<Quad>(scene.quads, order);
    lemma_last_order::<Shadow>(scene.shadows, order);
    lemma_last_order::<Path<ScaledPixels>>(scene.paths, order);
    lemma_last_order::<Underline>(scene.underlines, order);
    lemma_last_order::<MonochromeSprite>(scene.monochrome_sprites, order);
    lemma_last_order::<SubpixelSprite>(scene.subpixel_sprites, order);
    lemma_last_order::<PolychromeSprite>(scene.polychrome_sprites, order);
    lemma_last_order::<PaintSurface>(scene.surfaces, order);
}

/// The `order` of every primitive of a scene, kind after kind.
pub open spec fn all_orders(scene: SceneModel) -> Seq<DrawOrder> {
    scene.quads.map_values(|p: Quad| p.order)
        + scene.shadows.map_values(|p: Shadow| p.order)
        + scene.paths.map_values(|p: PathModel| p.order)
        + scene.underlines.map_values(|p: Underline| p.order)
        + scene.monochrome_sprites.map_values(|p: MonochromeSprite| p.order)
        + scene.subpixel_sprites.map_values(|p: SubpixelSprite| p.order)
        + scene.polychrome_sprites.map_values(|p: PolychromeSprite| p.order)
        + scene.surfaces.map_values(|p: PaintSurface| p.order)
}

/// Whether a list of draw orders does not fall.
pub open spec fn rising(orders: Seq<DrawOrder>) -> bool {
    forall|i: int, j: int| 0 <= i <= j < orders.len() ==> orders[i] <= orders[j]
}

/// In a scene whose kinds each rise in `order`, the highest of the last items is not below
/// the `order` of any primitive, and is that of one of them, or 0 where there is none.
pub proof fn law_max_order_tops_every_order(scene: SceneModel)
    requires
        rising(scene.quads.map_values(|p: Quad| p.order)),
        rising(scene.shadows.map_values(|p: Shadow| p.order)),
        rising(scene.paths.map_values(|p: PathModel| p.order)),
        rising(scene.underlines.map_values(|p: Underline| p.order)),
        rising(scene.monochrome_sprites.map_values(|p: MonochromeSprite| p.order)),
        rising(scene.subpixel_sprites.map_values(|p: SubpixelSprite| p.order)),
        rising(scene.polychrome_sprites.map_values(|p: PolychromeSprite| p.order)),
        rising(scene.surfaces.map_values(|p: PaintSurface| p.order)),
    ensures
        forall|i: int|
            0 <= i < all_orders(scene).len() ==> (#[trigger] all_orders(scene)[i])
                <= scene.last_order(),
        all_orders(scene).len() > 0 ==> all_orders(scene).contains(scene.last_order()),
        all_orders(scene).len() == 0 ==> scene.last_order() == 0,
{
    let c0 = scene.quads.map_values(|p: Quad| p.order);
    let c1 = scene.shadows.map_values(|p: Shadow| p.order);
    let c2 = scene.paths.map_values(|p: PathModel| p.order);
    let c3 = scene.underlines.map_values(|p: Underline| p.order);
    let c4 = scene.monochrome_sprites.map_values(|p: MonochromeSprite| p.order);
    let c5 = scene.subpixel_sprites.map_values(|p: SubpixelSprite| p.order);
    let c6 = scene.polychrome_sprites.map_values(|p: PolychromeSprite| p.order);
    let c7 = scene.surfaces.map_values(|p: PaintSurface| p.order);
    lemma_top_alone(c0, last_order::<Quad>(scene.quads));
    lemma_top_alone(c1, last_order::<Shadow>(scene.shadows));
    lemma_top_alone(c2, last_order::<Path<ScaledPixels>>(scene.paths));
    lemma_top_alone(c3, last_order::<Underline>(scene.underlines));
    lemma_top_alone(c4, last_order::<MonochromeSprite>(scene.monochrome_sprites));
    lemma_top_alone(c5, last_order::<SubpixelSprite>(scene.subpixel_sprites));
    lemma_top_alone(c6, last_order::<PolychromeSprite>(scene.polychrome_sprites));
    lemma_top_alone(c7, last_order::<PaintSurface>(scene.surfaces));
    let t1 = later(last_order::<Quad>(scene.quads), last_order::<Shadow>(scene.shadows));
    let t2 = later(t1, last_order::<Path<ScaledPixels>>(scene.paths));
    let t3 = later(t2, last_order::<Underline>(scene.underlines));
    let t4 = later(t3, last_order::<MonochromeSprite>(scene.monochrome_sprites));
    let t5 = later(t4, last_order::<SubpixelSprite>(scene.subpixel_sprites));
    let t6 = later(t5, last_order::<PolychromeSprite>(scene.polychrome_sprites));
    lemma_top_joins(c0, last_order::<Quad>(scene.quads), c1, last_order::<Shadow>(scene.shadows));
    lemma_top_joins(c0 + c1, t1, c2, last_order::<Path<ScaledPixels>>(scene.paths));
    lemma_top_joins(c0 + c1 + c2, t2, c3, last_order::<Underline>(scene.underlines));
    lemma_top_joins(
        c0 + c1 + c2 + c3,
        t3,
        c4,
        last_order::<MonochromeSprite>(scene.monochrome_sprites),
    );
    lemma_top_joins(
        c0 + c1 + c2 + c3 + c4,
        t4,
        c5,
        last_order::<SubpixelSprite>(scene.subpixel_sprites),
    );
    lemma_top_joins(
        c0 + c1 + c2 + c3 + c4 + c5,
        t5,
        c6,
        last_order::<PolychromeSprite>(scene.polychrome_sprites),
    );
    lemma_top_joins(
        c0 + c1 + c2 + c3 + c4 + c5 + c6,
        t6,
        c7,
        last_order::<PaintSurface>(scene.surfaces),
    );
}

/// Whether a draw order is the highest of a list, or 0 where the list is empty.
spec fn tops(orders: Seq<DrawOrder>, top: DrawOrder) -> bool {
    &&& forall|i: int| 0 <= i < orders.len() ==> (#[trigger] orders[i]) <= top
    &&& orders.len() > 0 ==> orders.contains(top)
    &&& orders.len() == 0 ==> top == 0
}

proof fn lemma_top_alone(orders: Seq<DrawOrder>, top: DrawOrder)
    requires
        rising(orders),
        orders.len() > 0 ==> top == orders[orders.len() - 1],
        orders.len() == 0 ==> top == 0,
    ensures
        tops(orders, top),
{
}

proof fn lemma_top_joins(a: Seq<DrawOrder>, top: DrawOrder, b: Seq<DrawOrder>, other: DrawOrder)
    requires
        tops(a, top),
        tops(b, other),
    ensures
        tops(a + b, later(top, other)),
{
    let all = a + b;
    if a.len() > 0 {
        let i: int = choose|i: int| 0 <= i < a.len() && a[i] == top;
        assert(all[i] == top);
    }
    if b.len() > 0 {
        let i: int = choose|i: int| 0 <= i < b.len() && b[i] == other;
        assert(all[a.len() + i] == other);
    }
    if a.len() > 0 && b.len() == 0 {
        assert(all =~= a);
    }
}

/// One more quad is listed behind the others if it is plain, and leaves the list as it is
/// if not; without quads nothing is listed.
pub proof fn law_opaque_quads_grow(scene: SceneModel, quad: Quad)
    ensures
        (SceneModel { quads: scene.quads.push(quad), ..scene }).opaque_quads() == if quad.hides() {
            scene.opaque_quads().push(quad)
        } else {
            scene.opaque_quads()
        },
        scene.quads.len() == 0 ==> scene.opaque_quads().len() == 0,
{
    reveal(Seq::filter);
    assert(scene.quads.push(quad).drop_last() =~= scene.quads);
}

proof fn lemma_last_order<T: Drawn>(list: Seq<T::V>, order: DrawOrder)
    requires
        ascending::<T>(list),
        last_order::<T>(list) <= order,
    ensures
        all_up_to::<T>(list, order),
        list.len() > 0 && last_order::<T>(list) == order ==> some_at::<T>(list, order),
{
    if list.len() > 0 {
        assert(list.last() == list[list.len() - 1]);
        assert forall|i: int| 0 <= i < list.len() implies T::order_of(#[trigger] list[i])
            <= order by {
            assert(T::order_of(list[i]) <= T::order_of(list[list.len() - 1]));
        }
    }
}

/// The opaque quads of a finished scene come in ascending order, all of them and no other.
pub proof fn law_opaque_quads_ascend(scene: SceneModel)
    requires
        scene.finished(),
    ensures
        ascending::<Quad>(scene.opaque_quads()),
        forall|quad: Quad| #[trigger]
            scene.opaque_quads().contains(quad) <==> (quad.hides() && scene.quads.contains(quad)),
{
    let hides = |quad: Quad| quad.hides();
    lemma_filter_ascends(scene.quads, hides);
    scene.quads.filter_lemma(hides);
    assert forall|quad: Quad| #[trigger] scene.opaque_quads().contains(quad) <==> (quad.hides()
        && scene.quads.contains(quad)) by {
        if scene.quads.filter(hides).contains(quad) {
            scene.quads.lemma_filter_contains_rev(hides, quad);
            let i: int = choose|i: int|
                0 <= i < scene.quads.filter(hides).len() && scene.quads.filter(hides)[i] == quad;
            assert(hides(scene.quads.filter(hides)[i]));
        }
    }
}

proof fn lemma_filter_ascends(quads: Seq<Quad>, pred: spec_fn(Quad) -> bool)
    requires
        ascending::<Quad>(quads),
    ensures
        ascending::<Quad>(quads.filter(pred)),
    decreases quads.len(),
{
    reveal(Seq::filter);
    if quads.len() > 0 {
        let rest = quads.drop_last();
        lemma_filter_ascends(rest, pred);
        let low = rest.filter(pred);
        assert forall|i: int| 0 <= i < low.len() implies (#[trigger] low[i]).order
            <= quads.last().order by {
            assert(low.contains(low[i]));
            rest.lemma_filter_contains_rev(pred, low[i]);
            let j: int = choose|j: int| 0 <= j < rest.len() && rest[j] == low[i];
            assert(Quad::order_of(quads[j]) <= Quad::order_of(quads[quads.len() - 1]));
        }
    }
}

} // verus!
