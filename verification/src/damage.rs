//! Damage tracking: which part of the framebuffer changed between two frames.

use crate::geometry::{
    far, law_encloses_is_transitive, law_grid_joins_exactly,
    law_grid_side_survives, law_union_contains_both, law_union_is_least, near, on_grid, rejoins,
    Bounds, Point, ScaledPixels,
};
use crate::scene::{
    models, Drawn, MonochromeSprite, PaintSurface, Path, PolychromeSprite, Quad, Scene, SceneModel,
    Shadow, SubpixelSprite, Underline,
};
use crate::single::{
    law_held_sum_is_exact, law_order_is_numeric, law_sum_respects_numbers, same_number, Single,
};
use vstd::prelude::*;

verus! {

/// The region of the framebuffer that changed between two frames.
#[derive(Clone, Copy, Debug)]
pub enum SceneDamage {
    /// Everything must be redrawn (e.g. the previous contents are invalid).
    Full,
    /// Only this rectangle changed, in scaled/device pixels.
    Rect(Bounds<ScaledPixels>),
    /// Nothing changed; the frame's presentation can be skipped.
    Unchanged,
}

/// How many items two lists have in common at their start.
pub open spec fn common_prefix<V>(a: Seq<V>, b: Seq<V>) -> nat
    decreases a.len(),
{
    if a.len() == 0 || b.len() == 0 || a.first() != b.first() {
        0
    } else {
        1 + common_prefix(a.drop_first(), b.drop_first())
    }
}

/// How many items two lists have in common at their end.
pub open spec fn common_suffix<V>(a: Seq<V>, b: Seq<V>) -> nat
    decreases a.len(),
{
    if a.len() == 0 || b.len() == 0 || a.last() != b.last() {
        0
    } else {
        1 + common_suffix(a.drop_last(), b.drop_last())
    }
}

/// What is left of `list` once the start and then the end that it has in common with
/// `other` are taken away.
pub open spec fn window<V>(list: Seq<V>, other: Seq<V>) -> Seq<V> {
    let prefix: int = common_prefix(list, other) as int;
    let suffix: int = common_suffix(list.skip(prefix), other.skip(prefix)) as int;
    list.subrange(prefix, list.len() - suffix)
}

/// What each item of a list may paint.
pub open spec fn painted_by<T: Drawn>(list: Seq<T::V>) -> Seq<Bounds<ScaledPixels>> {
    list.map_values(|item: T::V| T::painted(item))
}

/// What the changed items of one kind painted before and paint now.
pub open spec fn changed<T: Drawn>(prev: Seq<T::V>, next: Seq<T::V>) -> Seq<Bounds<ScaledPixels>> {
    painted_by::<T>(window(prev, next)) + painted_by::<T>(window(next, prev))
}

/// What the changed items of every kind painted before and paint now.
pub open spec fn changed_regions(prev: SceneModel, next: SceneModel) -> Seq<Bounds<ScaledPixels>> {
    changed::<Quad>(prev.quads, next.quads)
        + changed::<Shadow>(prev.shadows, next.shadows)
        + changed::<Underline>(prev.underlines, next.underlines)
        + changed::<MonochromeSprite>(prev.monochrome_sprites, next.monochrome_sprites)
        + changed::<SubpixelSprite>(prev.subpixel_sprites, next.subpixel_sprites)
        + changed::<PolychromeSprite>(prev.polychrome_sprites, next.polychrome_sprites)
        + changed::<Path<ScaledPixels>>(prev.paths, next.paths)
        + changed::<PaintSurface>(prev.surfaces, next.surfaces)
}

/// A rectangle grown to take in one more.
pub open spec fn extended(
    region: Option<Bounds<ScaledPixels>>,
    by: Bounds<ScaledPixels>,
) -> Option<Bounds<ScaledPixels>> {
    match region {
        Some(bounds) => Some(bounds.joined(by)),
        None => Some(by),
    }
}

/// A rectangle grown to take in a list of others, one by one.
pub open spec fn gathered(
    region: Option<Bounds<ScaledPixels>>,
    list: Seq<Bounds<ScaledPixels>>,
) -> Option<Bounds<ScaledPixels>>
    decreases list.len(),
{
    if list.len() == 0 {
        region
    } else {
        extended(gathered(region, list.drop_last()), list.last())
    }
}

impl SceneDamage {
    /// The damage that redraws a list of regions.
    pub open spec fn around(regions: Seq<Bounds<ScaledPixels>>) -> SceneDamage {
        match gathered(None, regions) {
            Some(bounds) => SceneDamage::Rect(bounds),
            None => SceneDamage::Unchanged,
        }
    }

    /// Both damages together.
    pub open spec fn combined(self, other: SceneDamage) -> SceneDamage {
        if self is Full || other is Full {
            SceneDamage::Full
        } else if self is Unchanged {
            other
        } else if other is Unchanged {
            self
        } else {
            SceneDamage::Rect(self->Rect_0.joined(other->Rect_0))
        }
    }

    /// Whether a position is redrawn.
    pub open spec fn redraws(self, at: Point<ScaledPixels>) -> bool {
        match self {
            SceneDamage::Full => true,
            SceneDamage::Rect(bounds) => bounds.holds(at),
            SceneDamage::Unchanged => false,
        }
    }

    /// Whether all of a rectangle is redrawn.
    pub open spec fn reaches(self, bounds: Bounds<ScaledPixels>) -> bool {
        match self {
            SceneDamage::Full => true,
            SceneDamage::Rect(outer) => outer.encloses(bounds),
            SceneDamage::Unchanged => false,
        }
    }

    /// Whether all that is painted by the items of one kind that only one of two lists
    /// has is redrawn, as far as its sides are numbers.
    pub open spec fn reaches_kind<T: Drawn>(self, prev: Seq<T::V>, next: Seq<T::V>) -> bool {
        forall|item: T::V|
            prev.contains(item) != next.contains(item) && (#[trigger] T::painted(item)).regular()
                ==> self.reaches(T::painted(item))
    }

    /// Whether all that is painted by the primitives that only one of two scenes has is
    /// redrawn, as far as its sides are numbers.
    pub open spec fn reaches_changes(self, prev: SceneModel, next: SceneModel) -> bool {
        &&& self.reaches_kind::<Quad>(prev.quads, next.quads)
        &&& self.reaches_kind::<Shadow>(prev.shadows, next.shadows)
        &&& self.reaches_kind::<Underline>(prev.underlines, next.underlines)
        &&& self.reaches_kind::<MonochromeSprite>(prev.monochrome_sprites, next.monochrome_sprites)
        &&& self.reaches_kind::<SubpixelSprite>(prev.subpixel_sprites, next.subpixel_sprites)
        &&& self.reaches_kind::<PolychromeSprite>(prev.polychrome_sprites, next.polychrome_sprites)
        &&& self.reaches_kind::<Path<ScaledPixels>>(prev.paths, next.paths)
        &&& self.reaches_kind::<PaintSurface>(prev.surfaces, next.surfaces)
    }

    /// Whether two damages are of the same variant, with the same numbers.
    pub open spec fn same(self, other: SceneDamage) -> bool {
        match (self, other) {
            (SceneDamage::Full, SceneDamage::Full) => true,
            (SceneDamage::Unchanged, SceneDamage::Unchanged) => true,
            (SceneDamage::Rect(a), SceneDamage::Rect(b)) => a.same_numbers(b),
            _ => false,
        }
    }

    /// The rectangle of a damage that has one.
    pub open spec fn extent(self) -> Seq<Bounds<ScaledPixels>> {
        match self {
            SceneDamage::Rect(bounds) => seq![bounds],
            _ => seq![],
        }
    }

    /// Computes the region of `next` that differs from `prev`.
    ///
    /// The diff is sound: it never reports a changed region as unchanged (so it
    /// can't cause stale pixels), though it may over-report when many distant
    /// primitives change. What is gathered from several primitives is stored as an
    /// origin and an extent, so it is as wide as rounding leaves it.
    pub fn between(prev: &Scene, next: &Scene) -> (damage: SceneDamage)
        ensures
            damage == SceneDamage::around(changed_regions(prev@, next@)),
            damage is Unchanged <==> alike(prev@, next@),
            gathers_soundly(changed_regions(prev@, next@)) ==> forall|at: Point<ScaledPixels>|
                !damage.redraws(at) ==> #[trigger] alike_at(prev@, next@, at),
            gathers_soundly(changed_regions(prev@, next@)) ==> damage.reaches_changes(prev@, next@),
    {
        let mut acc: Option<Bounds<ScaledPixels>> = None;
        diff_primitives(prev.quads.as_slice(), next.quads.as_slice(), &mut acc);
        diff_primitives(prev.shadows.as_slice(), next.shadows.as_slice(), &mut acc);
        diff_primitives(prev.underlines.as_slice(), next.underlines.as_slice(), &mut acc);
        diff_primitives(
            prev.monochrome_sprites.as_slice(),
            next.monochrome_sprites.as_slice(),
            &mut acc,
        );
        diff_primitives(
            prev.subpixel_sprites.as_slice(),
            next.subpixel_sprites.as_slice(),
            &mut acc,
        );
        diff_primitives(
            prev.polychrome_sprites.as_slice(),
            next.polychrome_sprites.as_slice(),
            &mut acc,
        );
        diff_paths(prev.paths.as_slice(), next.paths.as_slice(), &mut acc);
        diff_primitives(prev.surfaces.as_slice(), next.surfaces.as_slice(), &mut acc);
        proof {
            lemma_by_kind(prev@, next@);
            law_unchanged_means_alike(prev@, next@);
            if gathers_soundly(changed_regions(prev@, next@)) {
                assert forall|at: Point<ScaledPixels>|
                    !SceneDamage::around(changed_regions(prev@, next@)).redraws(
                        at,
                    ) implies #[trigger] alike_at(prev@, next@, at) by {
                    law_damage_is_sound(prev@, next@, at);
                }
                law_damage_reaches_changes(prev@, next@);
            }
        }
        match acc {
            Some(rect) => SceneDamage::Rect(rect),
            None => SceneDamage::Unchanged,
        }
    }

    /// Combines two damage regions: the result covers both.
    ///
    /// Renderers use this to accumulate damage across frames whose presentation
    /// failed or was skipped, so no change is lost before it reaches the screen.
    pub fn union(self, other: SceneDamage) -> (damage: SceneDamage)
        ensures
            damage == self.combined(other),
    {
        match (self, other) {
            (SceneDamage::Full, _) | (_, SceneDamage::Full) => SceneDamage::Full,
            (SceneDamage::Unchanged, damage) | (damage, SceneDamage::Unchanged) => damage,
            (SceneDamage::Rect(a), SceneDamage::Rect(b)) => SceneDamage::Rect(a.union(&b)),
        }
    }
}

/// Grows a rectangle to take in one more.
pub fn union_into(acc: &mut Option<Bounds<ScaledPixels>>, b: Bounds<ScaledPixels>)
    ensures
        *final(acc) == extended(*old(acc), b),
{
    *acc = Some(match *acc {
        Some(a) => a.union(&b),
        None => b,
    });
}

/// Gathers what changed between two lists of primitives that are compared bit for bit.
pub fn diff_primitives<T: Drawn>(prev: &[T], next: &[T], acc: &mut Option<Bounds<ScaledPixels>>)
    ensures
        *final(acc) == gathered(*old(acc), changed::<T>(models(prev@), models(next@))),
{
    diff_with(prev, next, acc);
}

/// Gathers what changed between two lists of paths.
pub fn diff_paths(
    prev: &[Path<ScaledPixels>],
    next: &[Path<ScaledPixels>],
    acc: &mut Option<Bounds<ScaledPixels>>,
)
    ensures
        *final(acc) == gathered(
            *old(acc),
            changed::<Path<ScaledPixels>>(models(prev@), models(next@)),
        ),
{
    diff_with(prev, next, acc);
}

/// Diffs two lists by the start and the end that they have in common.
///
/// Unlike an index-by-index diff, this isolates a single inserted or removed
/// element (e.g. the cursor blinking in and out, which shifts every following
/// element) to just the changed window instead of treating everything after it as
/// different. The bounds of every element in the differing window of both frames
/// are gathered into `acc`.
pub fn diff_with<T: Drawn>(prev: &[T], next: &[T], acc: &mut Option<Bounds<ScaledPixels>>)
    ensures
        *final(acc) == gathered(*old(acc), changed::<T>(models(prev@), models(next@))),
{
    let ghost a = models(prev@);
    let ghost b = models(next@);
    let ghost start = *acc;
    let max_common: usize = if prev.len() < next.len() {
        prev.len()
    } else {
        next.len()
    };
    let mut prefix: usize = 0;
    while prefix < max_common && prev[prefix].same(&next[prefix])
        invariant
            prefix <= max_common,
            max_common <= prev.len(),
            max_common <= next.len(),
            a == models(prev@),
            b == models(next@),
            forall|j: int| 0 <= j < prefix ==> a[j] == b[j],
        decreases max_common - prefix,
    {
        assert(a[prefix as int] == b[prefix as int]);
        prefix = prefix + 1;
    }
    proof {
        assert(prefix == max_common || a[prefix as int] != b[prefix as int]);
        lemma_common_prefix(a, b, prefix as nat);
        lemma_common_prefix(b, a, prefix as nat);
    }
    let ghost rest_a = a.skip(prefix as int);
    let ghost rest_b = b.skip(prefix as int);
    if prefix == prev.len() && prefix == next.len() {
        proof {
            assert(changed::<T>(a, b) =~= Seq::empty());
        }
        return;
    }
    // Match from the end, without overlapping the prefix in either list.
    let mut suffix: usize = 0;
    while suffix < max_common - prefix && prev[prev.len() - 1 - suffix].same(
        &next[next.len() - 1 - suffix],
    )
        invariant
            prefix <= max_common,
            suffix <= max_common - prefix,
            max_common <= prev.len(),
            max_common <= next.len(),
            a == models(prev@),
            b == models(next@),
            forall|j: int|
                0 <= j < suffix ==> #[trigger] a[a.len() - 1 - j] == b[b.len() - 1 - j],
        decreases max_common - prefix - suffix,
    {
        assert(a[a.len() - 1 - suffix] == b[b.len() - 1 - suffix]);
        suffix = suffix + 1;
    }
    proof {
        assert forall|j: int| 0 <= j < suffix implies #[trigger] rest_a[rest_a.len() - 1 - j]
            == rest_b[rest_b.len() - 1 - j] by {
            assert(a[a.len() - 1 - j] == b[b.len() - 1 - j]);
        }
        assert(suffix == rest_a.len() || suffix == rest_b.len() || rest_a[rest_a.len() - 1 - suffix]
            != rest_b[rest_b.len() - 1 - suffix]) by {
            if suffix < max_common - prefix {
                assert(prev@[prev@.len() - 1 - suffix]@ == a[a.len() - 1 - suffix]);
                assert(next@[next@.len() - 1 - suffix]@ == b[b.len() - 1 - suffix]);
            }
        }
        lemma_common_suffix(rest_a, rest_b, suffix as nat);
        lemma_common_suffix(rest_b, rest_a, suffix as nat);
    }
    let prev_end: usize = prev.len() - suffix;
    let next_end: usize = next.len() - suffix;
    let ghost from_prev = painted_by::<T>(window(a, b));
    let ghost from_next = painted_by::<T>(window(b, a));
    gather(prev, prefix, prev_end, acc);
    gather(next, prefix, next_end, acc);
    proof {
        lemma_gathered_add(start, from_prev, from_next);
    }
}

/// Gathers what the items of part of a list paint.
fn gather<T: Drawn>(list: &[T], from: usize, to: usize, acc: &mut Option<Bounds<ScaledPixels>>)
    requires
        from <= to <= list.len(),
    ensures
        *final(acc) == gathered(
            *old(acc),
            painted_by::<T>(models(list@).subrange(from as int, to as int)),
        ),
{
    let ghost start = *acc;
    let ghost items = models(list@);
    let mut i: usize = from;
    while i < to
        invariant
            from <= i <= to <= list.len(),
            items == models(list@),
            *acc == gathered(start, painted_by::<T>(items.subrange(from as int, i as int))),
        decreases to - i,
    {
        proof {
            let longer = painted_by::<T>(items.subrange(from as int, i + 1));
            assert(longer.drop_last() =~= painted_by::<T>(items.subrange(from as int, i as int)));
            assert(longer.last() == T::painted(items[i as int]));
        }
        union_into(acc, list[i].painted_bounds());
        i = i + 1;
    }
}

proof fn lemma_common_prefix<V>(a: Seq<V>, b: Seq<V>, n: nat)
    requires
        n <= a.len(),
        n <= b.len(),
        forall|j: int| 0 <= j < n ==> a[j] == b[j],
        n == a.len() || n == b.len() || a[n as int] != b[n as int],
    ensures
        common_prefix(a, b) == n,
    decreases n,
{
    if n > 0 {
        assert(a[0] == b[0]);
        lemma_common_prefix(a.drop_first(), b.drop_first(), (n - 1) as nat);
    }
}

proof fn lemma_common_suffix<V>(a: Seq<V>, b: Seq<V>, n: nat)
    requires
        n <= a.len(),
        n <= b.len(),
        forall|j: int| 0 <= j < n ==> #[trigger] a[a.len() - 1 - j] == b[b.len() - 1 - j],
        n == a.len() || n == b.len() || a[a.len() - 1 - n] != b[b.len() - 1 - n],
    ensures
        common_suffix(a, b) == n,
    decreases n,
{
    if n > 0 {
        assert(a[a.len() - 1 - 0] == b[b.len() - 1 - 0]);
        let c = a.drop_last();
        let d = b.drop_last();
        assert forall|j: int| 0 <= j < n - 1 implies #[trigger] c[c.len() - 1 - j] == d[d.len() - 1
            - j] by {
            assert(a[a.len() - 1 - (j + 1)] == b[b.len() - 1 - (j + 1)]);
        }
        lemma_common_suffix(c, d, (n - 1) as nat);
    }
}

proof fn lemma_gathered_add(
    region: Option<Bounds<ScaledPixels>>,
    a: Seq<Bounds<ScaledPixels>>,
    b: Seq<Bounds<ScaledPixels>>,
)
    ensures
        gathered(region, a + b) == gathered(gathered(region, a), b),
    decreases b.len(),
{
    if b.len() == 0 {
        assert(a + b =~= a);
    } else {
        assert((a + b).drop_last() =~= a + b.drop_last());
        lemma_gathered_add(region, a, b.drop_last());
    }
}

/// Whether every region of a list has a property.
spec fn each(
    regions: Seq<Bounds<ScaledPixels>>,
    pred: spec_fn(Bounds<ScaledPixels>) -> bool,
) -> bool {
    forall|i: int| 0 <= i < regions.len() ==> pred(#[trigger] regions[i])
}

/// Whether every changed region has a property, kind by kind.
spec fn each_kind(
    prev: SceneModel,
    next: SceneModel,
    pred: spec_fn(Bounds<ScaledPixels>) -> bool,
) -> bool {
    &&& each(changed::<Quad>(prev.quads, next.quads), pred)
    &&& each(changed::<Shadow>(prev.shadows, next.shadows), pred)
    &&& each(changed::<Underline>(prev.underlines, next.underlines), pred)
    &&& each(changed::<MonochromeSprite>(prev.monochrome_sprites, next.monochrome_sprites), pred)
    &&& each(changed::<SubpixelSprite>(prev.subpixel_sprites, next.subpixel_sprites), pred)
    &&& each(changed::<PolychromeSprite>(prev.polychrome_sprites, next.polychrome_sprites), pred)
    &&& each(changed::<Path<ScaledPixels>>(prev.paths, next.paths), pred)
    &&& each(changed::<PaintSurface>(prev.surfaces, next.surfaces), pred)
}

proof fn lemma_each_part(
    a: Seq<Bounds<ScaledPixels>>,
    b: Seq<Bounds<ScaledPixels>>,
    pred: spec_fn(Bounds<ScaledPixels>) -> bool,
)
    ensures
        each(a + b, pred) <==> each(a, pred) && each(b, pred),
{
    if each(a + b, pred) {
        assert forall|i: int| 0 <= i < a.len() implies pred(#[trigger] a[i]) by {
            assert((a + b)[i] == a[i]);
        }
        assert forall|i: int| 0 <= i < b.len() implies pred(#[trigger] b[i]) by {
            assert((a + b)[a.len() + i] == b[i]);
        }
    }
}

/// The changed regions are those of each kind, gathered one kind after the other.
proof fn lemma_by_kind(prev: SceneModel, next: SceneModel)
    ensures
        gathered(None, changed_regions(prev, next)) == {
            let r0 = gathered(None, changed::<Quad>(prev.quads, next.quads));
            let r1 = gathered(r0, changed::<Shadow>(prev.shadows, next.shadows));
            let r2 = gathered(r1, changed::<Underline>(prev.underlines, next.underlines));
            let r3 = gathered(
                r2,
                changed::<MonochromeSprite>(prev.monochrome_sprites, next.monochrome_sprites),
            );
            let r4 = gathered(
                r3,
                changed::<SubpixelSprite>(prev.subpixel_sprites, next.subpixel_sprites),
            );
            let r5 = gathered(
                r4,
                changed::<PolychromeSprite>(prev.polychrome_sprites, next.polychrome_sprites),
            );
            let r6 = gathered(r5, changed::<Path<ScaledPixels>>(prev.paths, next.paths));
            let r7 = gathered(r6, changed::<PaintSurface>(prev.surfaces, next.surfaces));
            r7
        },
        forall|pred: spec_fn(Bounds<ScaledPixels>) -> bool| #[trigger]
            each(changed_regions(prev, next), pred) <==> each_kind(prev, next, pred),
{
    let c0 = changed::<Quad>(prev.quads, next.quads);
    let c1 = changed::<Shadow>(prev.shadows, next.shadows);
    let c2 = changed::<Underline>(prev.underlines, next.underlines);
    let c3 = changed::<MonochromeSprite>(prev.monochrome_sprites, next.monochrome_sprites);
    let c4 = changed::<SubpixelSprite>(prev.subpixel_sprites, next.subpixel_sprites);
    let c5 = changed::<PolychromeSprite>(prev.polychrome_sprites, next.polychrome_sprites);
    let c6 = changed::<Path<ScaledPixels>>(prev.paths, next.paths);
    let c7 = changed::<PaintSurface>(prev.surfaces, next.surfaces);
    lemma_gathered_add(None, c0, c1);
    lemma_gathered_add(None, c0 + c1, c2);
    lemma_gathered_add(None, c0 + c1 + c2, c3);
    lemma_gathered_add(None, c0 + c1 + c2 + c3, c4);
    lemma_gathered_add(None, c0 + c1 + c2 + c3 + c4, c5);
    lemma_gathered_add(None, c0 + c1 + c2 + c3 + c4 + c5, c6);
    lemma_gathered_add(None, c0 + c1 + c2 + c3 + c4 + c5 + c6, c7);
    assert forall|pred: spec_fn(Bounds<ScaledPixels>) -> bool| #[trigger]
        each(changed_regions(prev, next), pred) <==> each_kind(prev, next, pred) by {
        lemma_each_part(c0, c1, pred);
        lemma_each_part(c0 + c1, c2, pred);
        lemma_each_part(c0 + c1 + c2, c3, pred);
        lemma_each_part(c0 + c1 + c2 + c3, c4, pred);
        lemma_each_part(c0 + c1 + c2 + c3 + c4, c5, pred);
        lemma_each_part(c0 + c1 + c2 + c3 + c4 + c5, c6, pred);
        lemma_each_part(c0 + c1 + c2 + c3 + c4 + c5 + c6, c7, pred);
    }
}

/// Whether two scenes paint the same primitives.
pub open spec fn alike(prev: SceneModel, next: SceneModel) -> bool {
    &&& prev.quads == next.quads
    &&& prev.shadows == next.shadows
    &&& prev.underlines == next.underlines
    &&& prev.monochrome_sprites == next.monochrome_sprites
    &&& prev.subpixel_sprites == next.subpixel_sprites
    &&& prev.polychrome_sprites == next.polychrome_sprites
    &&& prev.paths == next.paths
    &&& prev.surfaces == next.surfaces
}

/// The items of a list that may paint at a position, from the first painted to the last.
pub open spec fn painters<T: Drawn>(list: Seq<T::V>, at: Point<ScaledPixels>) -> Seq<T::V> {
    list.filter(|item: T::V| T::painted(item).holds(at))
}

/// Whether two scenes paint the same primitives at a position.
pub open spec fn alike_at(prev: SceneModel, next: SceneModel, at: Point<ScaledPixels>) -> bool {
    &&& painters::<Quad>(prev.quads, at) == painters::<Quad>(next.quads, at)
    &&& painters::<Shadow>(prev.shadows, at) == painters::<Shadow>(next.shadows, at)
    &&& painters::<Underline>(prev.underlines, at) == painters::<Underline>(next.underlines, at)
    &&& painters::<MonochromeSprite>(prev.monochrome_sprites, at) == painters::<
        MonochromeSprite,
    >(next.monochrome_sprites, at)
    &&& painters::<SubpixelSprite>(prev.subpixel_sprites, at) == painters::<
        SubpixelSprite,
    >(next.subpixel_sprites, at)
    &&& painters::<PolychromeSprite>(prev.polychrome_sprites, at) == painters::<
        PolychromeSprite,
    >(next.polychrome_sprites, at)
    &&& painters::<Path<ScaledPixels>>(prev.paths, at) == painters::<Path<ScaledPixels>>(
        next.paths,
        at,
    )
    &&& painters::<PaintSurface>(prev.surfaces, at) == painters::<PaintSurface>(next.surfaces, at)
}

/// Whether the rectangle that is gathered from a list of regions contains every one of
/// them whose sides are numbers, for all that rounding does to its far sides.
pub open spec fn gathers_soundly(regions: Seq<Bounds<ScaledPixels>>) -> bool {
    gathered(None, regions) matches Some(bounds) ==> forall|i: int|
        0 <= i < regions.len() && (#[trigger] regions[i]).regular() ==> bounds.encloses(regions[i])
}

/// Whether rounding leaves the far sides in place whenever one more region is taken in.
pub open spec fn joins_step_by_step(regions: Seq<Bounds<ScaledPixels>>) -> bool
    decreases regions.len(),
{
    if regions.len() <= 1 {
        true
    } else {
        &&& joins_step_by_step(regions.drop_last())
        &&& gathered(None, regions.drop_last())->Some_0.joins_soundly(regions.last())
    }
}

/// Whether any near side and any far side out of a list of regions make an exact span:
/// the far side is the same number once it is stored as a distance from the near one.
pub open spec fn exact_together(regions: Seq<Bounds<ScaledPixels>>) -> bool {
    forall|i: int, j: int|
        0 <= i < regions.len() && 0 <= j < regions.len() ==> rejoins(
            (#[trigger] regions[i]).left(),
            (#[trigger] regions[j]).right(),
        ) && rejoins(regions[i].top(), regions[j].bottom())
}

/// Whether a rectangle contains every region.
pub open spec fn spans(outer: Bounds<ScaledPixels>, regions: Seq<Bounds<ScaledPixels>>) -> bool {
    forall|i: int| 0 <= i < regions.len() ==> outer.encloses(#[trigger] regions[i])
}

/// Whether each side of a rectangle is a side of one of the regions.
pub open spec fn hugs(bounds: Bounds<ScaledPixels>, regions: Seq<Bounds<ScaledPixels>>) -> bool {
    &&& exists|i: int|
        0 <= i < regions.len() && bounds.left() == (#[trigger] regions[i]).left()
    &&& exists|i: int|
        0 <= i < regions.len() && bounds.top() == (#[trigger] regions[i]).top()
    &&& exists|i: int|
        0 <= i < regions.len() && same_number(bounds.right(), (#[trigger] regions[i]).right())
    &&& exists|i: int|
        0 <= i < regions.len() && same_number(bounds.bottom(), (#[trigger] regions[i]).bottom())
}

/// Whether everything that a list paints lies on the grid of step `2^k`.
pub open spec fn all_aligned<T: Drawn>(list: Seq<T::V>, k: nat) -> bool {
    forall|i: int| 0 <= i < list.len() ==> T::painted(#[trigger] list[i]).aligned(k)
}

/// Whether everything that a scene paints lies on the grid of step `2^k`.
pub open spec fn scene_aligned(scene: SceneModel, k: nat) -> bool {
    &&& all_aligned::<Quad>(scene.quads, k)
    &&& all_aligned::<Shadow>(scene.shadows, k)
    &&& all_aligned::<Underline>(scene.underlines, k)
    &&& all_aligned::<MonochromeSprite>(scene.monochrome_sprites, k)
    &&& all_aligned::<SubpixelSprite>(scene.subpixel_sprites, k)
    &&& all_aligned::<PolychromeSprite>(scene.polychrome_sprites, k)
    &&& all_aligned::<Path<ScaledPixels>>(scene.paths, k)
    &&& all_aligned::<PaintSurface>(scene.surfaces, k)
}

/// A change is never missed: there is no damage exactly where the two scenes paint the
/// same primitives.
pub proof fn law_unchanged_means_alike(prev: SceneModel, next: SceneModel)
    ensures
        SceneDamage::around(changed_regions(prev, next)) is Unchanged <==> alike(prev, next),
{
    lemma_changed_empty::<Quad>(prev.quads, next.quads);
    lemma_changed_empty::<Shadow>(prev.shadows, next.shadows);
    lemma_changed_empty::<Underline>(prev.underlines, next.underlines);
    lemma_changed_empty::<MonochromeSprite>(prev.monochrome_sprites, next.monochrome_sprites);
    lemma_changed_empty::<SubpixelSprite>(prev.subpixel_sprites, next.subpixel_sprites);
    lemma_changed_empty::<PolychromeSprite>(prev.polychrome_sprites, next.polychrome_sprites);
    lemma_changed_empty::<Path<ScaledPixels>>(prev.paths, next.paths);
    lemma_changed_empty::<PaintSurface>(prev.surfaces, next.surfaces);
    lemma_gathered_some(None, changed_regions(prev, next));
}

/// The damage is sound: at every position that it does not redraw the two scenes paint
/// the same primitives, kind by kind and in the same order.
pub proof fn law_damage_is_sound(prev: SceneModel, next: SceneModel, at: Point<ScaledPixels>)
    requires
        gathers_soundly(changed_regions(prev, next)),
        !SceneDamage::around(changed_regions(prev, next)).redraws(at),
    ensures
        alike_at(prev, next, at),
{
    let regions = changed_regions(prev, next);
    let clear = |region: Bounds<ScaledPixels>| !region.holds(at);
    lemma_gathered_some(None, regions);
    assert(each(regions, clear));
    lemma_by_kind(prev, next);
    lemma_untouched::<Quad>(prev.quads, next.quads, at);
    lemma_untouched::<Shadow>(prev.shadows, next.shadows, at);
    lemma_untouched::<Underline>(prev.underlines, next.underlines, at);
    lemma_untouched::<MonochromeSprite>(prev.monochrome_sprites, next.monochrome_sprites, at);
    lemma_untouched::<SubpixelSprite>(prev.subpixel_sprites, next.subpixel_sprites, at);
    lemma_untouched::<PolychromeSprite>(prev.polychrome_sprites, next.polychrome_sprites, at);
    lemma_untouched::<Path<ScaledPixels>>(prev.paths, next.paths, at);
    lemma_untouched::<PaintSurface>(prev.surfaces, next.surfaces, at);
}

/// Everything that is painted by a primitive that only one of the two scenes has lies
/// within the damage.
pub proof fn law_damage_reaches_changes(prev: SceneModel, next: SceneModel)
    requires
        gathers_soundly(changed_regions(prev, next)),
    ensures
        SceneDamage::around(changed_regions(prev, next)).reaches_changes(prev, next),
{
    let regions = changed_regions(prev, next);
    let damage = SceneDamage::around(regions);
    let pred = |region: Bounds<ScaledPixels>| region.regular() ==> damage.reaches(region);
    lemma_gathered_some(None, regions);
    assert(each(regions, pred));
    lemma_by_kind(prev, next);
    lemma_kind_reached::<Quad>(damage, prev.quads, next.quads);
    lemma_kind_reached::<Shadow>(damage, prev.shadows, next.shadows);
    lemma_kind_reached::<Underline>(damage, prev.underlines, next.underlines);
    lemma_kind_reached::<MonochromeSprite>(
        damage,
        prev.monochrome_sprites,
        next.monochrome_sprites,
    );
    lemma_kind_reached::<SubpixelSprite>(damage, prev.subpixel_sprites, next.subpixel_sprites);
    lemma_kind_reached::<PolychromeSprite>(
        damage,
        prev.polychrome_sprites,
        next.polychrome_sprites,
    );
    lemma_kind_reached::<Path<ScaledPixels>>(damage, prev.paths, next.paths);
    lemma_kind_reached::<PaintSurface>(damage, prev.surfaces, next.surfaces);
}

/// What is gathered step by step with no far side lost contains every region.
pub proof fn law_sound_steps_gather_soundly(regions: Seq<Bounds<ScaledPixels>>)
    requires
        joins_step_by_step(regions),
    ensures
        gathers_soundly(regions),
    decreases regions.len(),
{
    if regions.len() == 1 {
        assert(gathered(None, regions.drop_last()) is None);
    } else if regions.len() > 1 {
        let rest = regions.drop_last();
        let last = regions.last();
        lemma_gathered_some(None, rest);
        law_sound_steps_gather_soundly(rest);
        let inner = gathered(None, rest)->Some_0;
        let outer = inner.joined(last);
        law_union_contains_both(inner, last);
        assert forall|i: int| 0 <= i < regions.len() && (#[trigger] regions[i]).regular() implies
            outer.encloses(regions[i]) by {
            if i < rest.len() {
                assert(rest[i] == regions[i]);
                law_encloses_is_transitive(outer, inner, regions[i]);
            }
        }
    }
}

/// Regions are gathered one after the other: two lists give what they give when one is
/// gathered after the other, and what was gathered before counts as one more region.
pub proof fn law_gathering_goes_on(
    region: Option<Bounds<ScaledPixels>>,
    first: Bounds<ScaledPixels>,
    a: Seq<Bounds<ScaledPixels>>,
    b: Seq<Bounds<ScaledPixels>>,
)
    ensures
        gathered(region, a + b) == gathered(gathered(region, a), b),
        gathered(Some(first), a) == gathered(None, seq![first] + a),
        gathered(None, seq![first]) == Some(first),
        gathered(region, seq![first]) == extended(region, first),
        gathered(region, Seq::empty()) == region,
        region matches Some(bounds) ==> gathered(region, seq![first]) == Some(
            bounds.joined(first),
        ),
{
    lemma_gathered_add(region, a, b);
    lemma_gathered_add(None, seq![first], a);
    assert(seq![first].drop_last() =~= Seq::<Bounds<ScaledPixels>>::empty());
    assert(gathered(None, seq![first].drop_last()) is None);
    assert(gathered(region, seq![first].drop_last()) == region);
}

/// Where sides make exact spans, what is gathered from a list of regions is the least
/// rectangle around them, and each of its sides is a side of one of them.
pub proof fn law_gathered_is_least(
    outer: Bounds<ScaledPixels>,
    regions: Seq<Bounds<ScaledPixels>>,
)
    requires
        exact_together(regions),
        regions.len() > 0,
    ensures
        gathered(None, regions) is Some,
        spans(gathered(None, regions)->Some_0, regions),
        hugs(gathered(None, regions)->Some_0, regions),
        outer.encloses(gathered(None, regions)->Some_0) <==> spans(outer, regions),
{
    lemma_gathered_exactly(regions);
    let bounds = gathered(None, regions)->Some_0;
    if spans(outer, regions) {
        lemma_hugs_least(outer, bounds, regions);
    }
    if outer.encloses(bounds) {
        assert forall|i: int| 0 <= i < regions.len() implies outer.encloses(
            #[trigger] regions[i],
        ) by {
            law_encloses_is_transitive(outer, bounds, regions[i]);
        }
    }
}

/// Where sides make exact spans, the damage is the least rectangle around what the changed
/// windows paint: nothing else enlarges it, and nothing of it is missing. It is never full.
pub proof fn law_damage_is_least(
    outer: Bounds<ScaledPixels>,
    prev: SceneModel,
    next: SceneModel,
)
    requires
        exact_together(changed_regions(prev, next)),
    ensures
        gathers_soundly(changed_regions(prev, next)),
        SceneDamage::around(changed_regions(prev, next)) !is Full,
        SceneDamage::around(changed_regions(prev, next)) matches SceneDamage::Rect(bounds) ==> {
            &&& spans(bounds, changed_regions(prev, next))
            &&& hugs(bounds, changed_regions(prev, next))
            &&& outer.encloses(bounds) <==> spans(outer, changed_regions(prev, next))
        },
{
    let regions = changed_regions(prev, next);
    if regions.len() > 0 {
        law_gathered_is_least(outer, regions);
    }
}

/// Whether a rectangle contains what the items of one kind paint that stand in the windows
/// of two lists.
pub open spec fn spans_windows_of<T: Drawn>(
    outer: Bounds<ScaledPixels>,
    prev: Seq<T::V>,
    next: Seq<T::V>,
) -> bool {
    &&& forall|i: int|
        0 <= i < window(prev, next).len() ==> outer.encloses(
            T::painted(#[trigger] window(prev, next)[i]),
        )
    &&& forall|i: int|
        0 <= i < window(next, prev).len() ==> outer.encloses(
            T::painted(#[trigger] window(next, prev)[i]),
        )
}

/// Whether a rectangle contains what the primitives paint that stand in the windows of two
/// scenes, kind by kind.
pub open spec fn spans_windows(
    outer: Bounds<ScaledPixels>,
    prev: SceneModel,
    next: SceneModel,
) -> bool {
    &&& spans_windows_of::<Quad>(outer, prev.quads, next.quads)
    &&& spans_windows_of::<Shadow>(outer, prev.shadows, next.shadows)
    &&& spans_windows_of::<Underline>(outer, prev.underlines, next.underlines)
    &&& spans_windows_of::<MonochromeSprite>(outer, prev.monochrome_sprites, next.monochrome_sprites)
    &&& spans_windows_of::<SubpixelSprite>(outer, prev.subpixel_sprites, next.subpixel_sprites)
    &&& spans_windows_of::<PolychromeSprite>(outer, prev.polychrome_sprites, next.polychrome_sprites)
    &&& spans_windows_of::<Path<ScaledPixels>>(outer, prev.paths, next.paths)
    &&& spans_windows_of::<PaintSurface>(outer, prev.surfaces, next.surfaces)
}

/// Only what stands in a window counts: a rectangle that contains what those primitives
/// paint contains the damage, where sides make exact spans. The damage is full in no case,
/// and nothing but what was gathered.
pub proof fn law_only_the_windows_are_damaged(
    outer: Bounds<ScaledPixels>,
    prev: SceneModel,
    next: SceneModel,
)
    ensures
        ({
            let regions = changed_regions(prev, next);
            &&& SceneDamage::around(regions) !is Full
            &&& SceneDamage::around(regions) is Unchanged <==> gathered(None, regions) is None
            &&& SceneDamage::around(regions) matches SceneDamage::Rect(bounds) ==> gathered(
                None,
                regions,
            ) == Some(bounds)
            &&& SceneDamage::around(regions) matches SceneDamage::Rect(bounds) ==> (exact_together(
                regions,
            ) && spans_windows(outer, prev, next) ==> outer.encloses(bounds))
        }),
{
    let regions = changed_regions(prev, next);
    if exact_together(regions) && spans_windows(outer, prev, next) && regions.len() > 0 {
        let pred = |region: Bounds<ScaledPixels>| outer.encloses(region);
        lemma_windows_spanned::<Quad>(outer, prev.quads, next.quads);
        lemma_windows_spanned::<Shadow>(outer, prev.shadows, next.shadows);
        lemma_windows_spanned::<Underline>(outer, prev.underlines, next.underlines);
        lemma_windows_spanned::<MonochromeSprite>(outer, prev.monochrome_sprites, next.monochrome_sprites);
        lemma_windows_spanned::<SubpixelSprite>(outer, prev.subpixel_sprites, next.subpixel_sprites);
        lemma_windows_spanned::<PolychromeSprite>(outer, prev.polychrome_sprites, next.polychrome_sprites);
        lemma_windows_spanned::<Path<ScaledPixels>>(outer, prev.paths, next.paths);
        lemma_windows_spanned::<PaintSurface>(outer, prev.surfaces, next.surfaces);
        lemma_by_kind(prev, next);
        assert(each(regions, pred));
        assert forall|i: int| 0 <= i < regions.len() implies outer.encloses(
            #[trigger] regions[i],
        ) by {
            assert(pred(regions[i]));
        }
        law_gathered_is_least(outer, regions);
    }
}

proof fn lemma_windows_spanned<T: Drawn>(
    outer: Bounds<ScaledPixels>,
    prev: Seq<T::V>,
    next: Seq<T::V>,
)
    requires
        spans_windows_of::<T>(outer, prev, next),
    ensures
        each(changed::<T>(prev, next), |region: Bounds<ScaledPixels>| outer.encloses(region)),
{
    let regions = changed::<T>(prev, next);
    let before = window(prev, next);
    let after = window(next, prev);
    assert forall|i: int| 0 <= i < regions.len() implies outer.encloses(#[trigger] regions[i]) by {
        if i < before.len() {
            assert(regions[i] == T::painted(before[i]));
        } else {
            assert(regions[i] == T::painted(after[i - before.len()]));
        }
    }
}

/// Where sides make exact spans, a step damages the same rectangle forwards and back. A
/// scene does not differ from itself.
pub proof fn law_damage_is_symmetric(prev: SceneModel, next: SceneModel)
    requires
        exact_together(changed_regions(prev, next)),
    ensures
        SceneDamage::around(changed_regions(prev, next)).same(
            SceneDamage::around(changed_regions(next, prev)),
        ),
        SceneDamage::around(changed_regions(prev, next)) matches SceneDamage::Rect(forth) ==> {
            &&& SceneDamage::around(changed_regions(next, prev)) matches SceneDamage::Rect(back)
            &&& forth.encloses(back)
            &&& back.encloses(forth)
        },
        SceneDamage::around(changed_regions(prev, prev)) is Unchanged,
{
    let regions = changed_regions(prev, next);
    let turned = changed_regions(next, prev);
    law_unchanged_means_alike(prev, prev);
    assert(turned.len() == regions.len());
    if regions.len() > 0 {
        lemma_turned_within(prev, next);
        lemma_turned_within(next, prev);
        lemma_exact_within(turned, regions);
        lemma_same_gathered(regions, turned);
    }
}

/// On a grid that the significand can hold all sides make exact spans, so that the damage
/// of a step is sound, reaches every change, is the least there is, and is the same
/// forwards and back.
pub proof fn law_grid_damage_is_exact(prev: SceneModel, next: SceneModel, k: nat)
    requires
        k <= 252,
        scene_aligned(prev, k),
        scene_aligned(next, k),
    ensures
        exact_together(changed_regions(prev, next)),
        gathers_soundly(changed_regions(prev, next)),
        damage_aligned(SceneDamage::around(changed_regions(prev, next)), k),
        ({
            let damage = SceneDamage::around(changed_regions(prev, next));
            &&& forall|at: Point<ScaledPixels>|
                !damage.redraws(at) ==> #[trigger] alike_at(prev, next, at)
            &&& damage.reaches_changes(prev, next)
            &&& damage.same(SceneDamage::around(changed_regions(next, prev)))
            &&& damage matches SceneDamage::Rect(bounds) ==> {
                &&& spans(bounds, changed_regions(prev, next))
                &&& hugs(bounds, changed_regions(prev, next))
            }
        }),
{
    let regions = changed_regions(prev, next);
    let damage = SceneDamage::around(regions);
    lemma_grid_regions(prev, next, k);
    lemma_grid_exact(regions, k);
    if regions.len() > 0 {
        lemma_gathered_exactly(regions);
        lemma_hugs_aligned(gathered(None, regions)->Some_0, regions, k);
    }
    assert forall|at: Point<ScaledPixels>| !damage.redraws(at) implies #[trigger] alike_at(
        prev,
        next,
        at,
    ) by {
        law_damage_is_sound(prev, next, at);
    }
    law_damage_reaches_changes(prev, next);
    law_damage_is_symmetric(prev, next);
}

/// What counts as changed is no more than it must be: two lists are one start, then the
/// window of each, then one end; the start is the longest that they share, and if both
/// windows hold something, they end in different items.
pub proof fn law_window_is_tight<V>(a: Seq<V>, b: Seq<V>) -> (parts: (Seq<V>, Seq<V>))
    ensures
        a == parts.0 + window(a, b) + parts.1,
        b == parts.0 + window(b, a) + parts.1,
        ({
            let n: int = parts.0.len() as int;
            n == a.len() || n == b.len() || a[n] != b[n]
        }),
        window(a, b).len() > 0 && window(b, a).len() > 0 ==> window(a, b).last() != window(
            b,
            a,
        ).last(),
{
    lemma_prefix_matches(a, b);
    lemma_prefix_longest(a, b);
    let prefix: int = common_prefix(a, b) as int;
    let (c, d) = (a.skip(prefix), b.skip(prefix));
    lemma_suffix_matches(c, d);
    lemma_suffix_longest(c, d);
    let (head, tail) = (a.take(prefix), c.skip(c.len() - common_suffix(c, d)));
    assert(head =~= b.take(prefix));
    assert(a =~= head + window(a, b) + tail);
    assert(d.skip(d.len() - common_suffix(c, d)) =~= tail);
    assert(b =~= head + window(b, a) + tail);
    (head, tail)
}

proof fn lemma_prefix_longest<V>(a: Seq<V>, b: Seq<V>)
    ensures
        ({
            let n: int = common_prefix(a, b) as int;
            n >= a.len() || n >= b.len() || a[n] != b[n]
        }),
    decreases a.len(),
{
    if !(a.len() == 0 || b.len() == 0 || a.first() != b.first()) {
        lemma_prefix_longest(a.drop_first(), b.drop_first());
    }
}

proof fn lemma_suffix_longest<V>(a: Seq<V>, b: Seq<V>)
    ensures
        ({
            let n: int = common_suffix(a, b) as int;
            n >= a.len() || n >= b.len() || a[a.len() - 1 - n] != b[b.len() - 1 - n]
        }),
    decreases a.len(),
{
    if !(a.len() == 0 || b.len() == 0 || a.last() != b.last()) {
        lemma_suffix_longest(a.drop_last(), b.drop_last());
    }
}

/// An item that appears or goes away is isolated: whatever stands before and behind it,
/// it is all that changed.
pub proof fn law_insertion_is_isolated<T: Drawn>(head: Seq<T::V>, item: T::V, tail: Seq<T::V>)
    ensures
        changed::<T>(head + tail, head.push(item) + tail) == seq![T::painted(item)],
        changed::<T>(head.push(item) + tail, head + tail) == seq![T::painted(item)],
        forall|region: Option<Bounds<ScaledPixels>>|
            gathered(region, changed::<T>(head + tail, head.push(item) + tail)) == #[trigger] extended(
                region,
                T::painted(item),
            ),
        forall|region: Option<Bounds<ScaledPixels>>|
            gathered(region, changed::<T>(head.push(item) + tail, head + tail)) == #[trigger] extended(
                region,
                T::painted(item),
            ),
{
    let without = head + tail;
    let with = head.push(item) + tail;
    lemma_inserted_window(head, item, tail);
    assert(painted_by::<T>(window(without, with)) =~= Seq::empty());
    assert(painted_by::<T>(window(with, without)) =~= seq![T::painted(item)]);
    assert(changed::<T>(without, with) =~= seq![T::painted(item)]);
    assert(changed::<T>(with, without) =~= seq![T::painted(item)]);
    let alone = seq![T::painted(item)];
    assert(alone.drop_last() =~= Seq::empty());
    assert forall|region: Option<Bounds<ScaledPixels>>|
        gathered(region, alone) == #[trigger] extended(region, T::painted(item)) by {
        assert(gathered(region, alone.drop_last()) == region);
    }
}

/// A quad that appears in an otherwise unchanged scene damages its own bounds and no
/// more, and so does one that goes away.
pub proof fn law_inserted_quad_damages_only_itself(
    without: SceneModel,
    with: SceneModel,
    head: Seq<Quad>,
    quad: Quad,
    tail: Seq<Quad>,
)
    requires
        without.quads == head + tail,
        with.quads == head.push(quad) + tail,
        alike((SceneModel { quads: with.quads, ..without }), with),
    ensures
        SceneDamage::around(changed_regions(without, with)) == SceneDamage::Rect(quad.bounds),
        SceneDamage::around(changed_regions(with, without)) == SceneDamage::Rect(quad.bounds),
{
    law_insertion_is_isolated::<Quad>(head, quad, tail);
    lemma_changed_empty::<Shadow>(without.shadows, with.shadows);
    lemma_changed_empty::<Shadow>(with.shadows, without.shadows);
    lemma_changed_empty::<Underline>(without.underlines, with.underlines);
    lemma_changed_empty::<Underline>(with.underlines, without.underlines);
    lemma_changed_empty::<MonochromeSprite>(without.monochrome_sprites, with.monochrome_sprites);
    lemma_changed_empty::<MonochromeSprite>(with.monochrome_sprites, without.monochrome_sprites);
    lemma_changed_empty::<SubpixelSprite>(without.subpixel_sprites, with.subpixel_sprites);
    lemma_changed_empty::<SubpixelSprite>(with.subpixel_sprites, without.subpixel_sprites);
    lemma_changed_empty::<PolychromeSprite>(without.polychrome_sprites, with.polychrome_sprites);
    lemma_changed_empty::<PolychromeSprite>(with.polychrome_sprites, without.polychrome_sprites);
    lemma_changed_empty::<Path<ScaledPixels>>(without.paths, with.paths);
    lemma_changed_empty::<Path<ScaledPixels>>(with.paths, without.paths);
    lemma_changed_empty::<PaintSurface>(without.surfaces, with.surfaces);
    lemma_changed_empty::<PaintSurface>(with.surfaces, without.surfaces);
    let regions = seq![quad.bounds];
    assert(changed_regions(without, with) =~= regions);
    assert(changed_regions(with, without) =~= regions);
    assert(regions.drop_last() =~= Seq::empty());
    assert(gathered(None, regions.drop_last()) is None);
}

/// Whether the union of two rectangles contains each of them whose sides are numbers, for
/// all that rounding does to its far sides.
pub open spec fn combines_soundly(a: SceneDamage, b: SceneDamage) -> bool {
    a matches SceneDamage::Rect(x) ==> b matches SceneDamage::Rect(y) ==> {
        &&& x.regular() ==> x.joined(y).encloses(x)
        &&& y.regular() ==> x.joined(y).encloses(y)
    }
}

/// The union of two damages redraws what either of them does.
pub proof fn law_union_redraws_both(a: SceneDamage, b: SceneDamage)
    requires
        combines_soundly(a, b),
    ensures
        forall|at: Point<ScaledPixels>|
            a.redraws(at) || b.redraws(at) ==> #[trigger] a.combined(b).redraws(at),
        forall|bounds: Bounds<ScaledPixels>|
            a.reaches(bounds) || b.reaches(bounds) ==> #[trigger] a.combined(b).reaches(bounds),
{
}

/// No change is lost when the damage of two steps is united: at every position that the
/// union does not redraw, the last scene paints what the first one did, and everything
/// that is painted by a primitive that only one of the two has lies within the union.
/// There is nothing to redraw only where the last scene paints what the first one did.
pub proof fn law_no_change_is_lost(a: SceneModel, b: SceneModel, c: SceneModel)
    requires
        gathers_soundly(changed_regions(a, b)),
        gathers_soundly(changed_regions(b, c)),
        combines_soundly(
            SceneDamage::around(changed_regions(a, b)),
            SceneDamage::around(changed_regions(b, c)),
        ),
    ensures
        ({
            let damage = SceneDamage::around(changed_regions(a, b)).combined(
                SceneDamage::around(changed_regions(b, c)),
            );
            &&& forall|at: Point<ScaledPixels>|
                !damage.redraws(at) ==> #[trigger] alike_at(a, c, at)
            &&& damage.reaches_changes(a, c)
            &&& damage is Unchanged ==> alike(a, c)
            &&& damage is Unchanged ==> SceneDamage::around(changed_regions(a, c)) is Unchanged
        }),
{
    let first = SceneDamage::around(changed_regions(a, b));
    let second = SceneDamage::around(changed_regions(b, c));
    law_union_redraws_both(first, second);
    assert forall|at: Point<ScaledPixels>|
        !first.combined(second).redraws(at) implies #[trigger] alike_at(a, c, at) by {
        law_damage_is_sound(a, b, at);
        law_damage_is_sound(b, c, at);
    }
    law_damage_reaches_changes(a, b);
    law_damage_reaches_changes(b, c);
    lemma_union_reaches(first, second, a, b, c);
    law_unchanged_means_alike(a, b);
    law_unchanged_means_alike(b, c);
    law_unchanged_means_alike(a, c);
}

/// Where the sides of everything that changed make exact spans, nothing stands in the way
/// of uniting the damage of two steps.
pub proof fn law_exact_steps_combine_soundly(a: SceneModel, b: SceneModel, c: SceneModel)
    requires
        exact_together(changed_regions(a, b) + changed_regions(b, c)),
    ensures
        gathers_soundly(changed_regions(a, b)),
        gathers_soundly(changed_regions(b, c)),
        combines_soundly(
            SceneDamage::around(changed_regions(a, b)),
            SceneDamage::around(changed_regions(b, c)),
        ),
{
    let p = changed_regions(a, b);
    let q = changed_regions(b, c);
    lemma_exact_parts(p, q);
    if p.len() > 0 {
        lemma_gathered_exactly(p);
    }
    if q.len() > 0 {
        lemma_gathered_exactly(q);
    }
    if p.len() > 0 && q.len() > 0 {
        let x = gathered(None, p)->Some_0;
        let y = gathered(None, q)->Some_0;
        lemma_hugging_joins(x, p, y, q);
        law_union_is_least(x, x, y);
    }
}

/// On a grid that the significand can hold no change is lost, whatever the scenes.
pub proof fn law_grid_no_change_is_lost(a: SceneModel, b: SceneModel, c: SceneModel, k: nat)
    requires
        k <= 252,
        scene_aligned(a, k),
        scene_aligned(b, k),
        scene_aligned(c, k),
    ensures
        exact_together(changed_regions(a, b) + changed_regions(b, c)),
        ({
            let damage = SceneDamage::around(changed_regions(a, b)).combined(
                SceneDamage::around(changed_regions(b, c)),
            );
            &&& forall|at: Point<ScaledPixels>|
                !damage.redraws(at) ==> #[trigger] alike_at(a, c, at)
            &&& damage.reaches_changes(a, c)
        }),
{
    lemma_grid_regions(a, b, k);
    lemma_grid_regions(b, c, k);
    lemma_grid_exact(changed_regions(a, b) + changed_regions(b, c), k);
    law_exact_steps_combine_soundly(a, b, c);
    law_no_change_is_lost(a, b, c);
}

/// The damage of every step from frame to frame, united one by one.
pub open spec fn accumulated(frames: Seq<SceneModel>) -> SceneDamage
    decreases frames.len(),
{
    if frames.len() < 2 {
        SceneDamage::Unchanged
    } else {
        accumulated(frames.drop_last()).combined(
            SceneDamage::around(changed_regions(frames[frames.len() - 2], frames.last())),
        )
    }
}

/// Whether what is gathered and united contains its parts at every step from frame to
/// frame.
pub open spec fn accumulates_soundly(frames: Seq<SceneModel>) -> bool
    decreases frames.len(),
{
    if frames.len() < 2 {
        true
    } else {
        let step = changed_regions(frames[frames.len() - 2], frames.last());
        &&& accumulates_soundly(frames.drop_last())
        &&& gathers_soundly(step)
        &&& combines_soundly(accumulated(frames.drop_last()), SceneDamage::around(step))
    }
}

/// However many frames are never presented, no change is lost: at every position that
/// the accumulated damage does not redraw, the last frame paints what the first one did,
/// and everything that is painted by a primitive that only one of the two has lies within
/// the damage.
pub proof fn law_accumulated_damage_is_sound(frames: Seq<SceneModel>)
    requires
        frames.len() > 0,
        accumulates_soundly(frames),
    ensures
        forall|at: Point<ScaledPixels>|
            !accumulated(frames).redraws(at) ==> #[trigger] alike_at(
                frames.first(),
                frames.last(),
                at,
            ),
        accumulated(frames).reaches_changes(frames.first(), frames.last()),
        accumulated(frames) is Unchanged ==> alike(frames.first(), frames.last()),
    decreases frames.len(),
{
    if frames.len() > 1 {
        let rest = frames.drop_last();
        let first = frames.first();
        let prev = frames[frames.len() - 2];
        let next = frames.last();
        let before = accumulated(rest);
        let step = SceneDamage::around(changed_regions(prev, next));
        law_accumulated_damage_is_sound(rest);
        assert(rest.last() == prev && rest.first() == first);
        law_union_redraws_both(before, step);
        assert forall|at: Point<ScaledPixels>|
            !before.combined(step).redraws(at) implies #[trigger] alike_at(first, next, at) by {
            assert(alike_at(first, prev, at));
            law_damage_is_sound(prev, next, at);
        }
        law_damage_reaches_changes(prev, next);
        lemma_union_reaches(before, step, first, prev, next);
        law_unchanged_means_alike(prev, next);
    }
}

/// On a grid that the significand can hold the damage of any number of frames is united
/// soundly.
pub proof fn law_grid_frames_accumulate_soundly(frames: Seq<SceneModel>, k: nat)
    requires
        k <= 252,
        forall|i: int| 0 <= i < frames.len() ==> scene_aligned(#[trigger] frames[i], k),
    ensures
        accumulates_soundly(frames),
        damage_aligned(accumulated(frames), k),
    decreases frames.len(),
{
    if frames.len() > 1 {
        let rest = frames.drop_last();
        let prev = frames[frames.len() - 2];
        assert forall|i: int| 0 <= i < rest.len() implies scene_aligned(#[trigger] rest[i], k) by {
            assert(rest[i] == frames[i]);
        }
        law_grid_frames_accumulate_soundly(rest, k);
        assert(scene_aligned(frames[frames.len() - 1], k));
        law_grid_damage_is_exact(prev, frames.last(), k);
        let before = accumulated(rest);
        let step = SceneDamage::around(changed_regions(prev, frames.last()));
        if before is Rect && step is Rect {
            law_grid_joins_exactly(before->Rect_0, step->Rect_0, k);
            law_union_is_least(before->Rect_0, before->Rect_0, step->Rect_0);
        }
    }
}

/// A union is full only where one of its parts is, empty only where both are, and else no
/// larger than it must be: it is the union of the rectangles of both, and where its far
/// sides are stored exactly, whatever contains those contains it.
pub proof fn law_union_is_no_larger(a: SceneDamage, b: SceneDamage, outer: Bounds<ScaledPixels>)
    ensures
        a.combined(b) is Full <==> a is Full || b is Full,
        a.combined(b) is Unchanged <==> a is Unchanged && b is Unchanged,
        a matches SceneDamage::Rect(x) ==> b matches SceneDamage::Rect(y) ==> {
            &&& a.combined(b) == SceneDamage::Rect(x.joined(y))
            &&& x.joins_exactly(y) && outer.encloses(x) && outer.encloses(y) ==> outer.encloses(
                x.joined(y),
            )
        },
{
    if a is Rect && b is Rect && a->Rect_0.joins_exactly(b->Rect_0) {
        law_union_is_least(outer, a->Rect_0, b->Rect_0);
    }
}

/// Damage that nothing was added to stays as it is, and full damage stays full.
pub proof fn law_union_identities(damage: SceneDamage)
    ensures
        damage.combined(SceneDamage::Unchanged) == damage,
        SceneDamage::Unchanged.combined(damage) == damage,
        damage.combined(SceneDamage::Full) == SceneDamage::Full,
        SceneDamage::Full.combined(damage) == SceneDamage::Full,
{
}

/// Damage that is united with itself stays as it is, where its far sides are exact.
pub proof fn law_union_is_idempotent(damage: SceneDamage)
    requires
        damage matches SceneDamage::Rect(bounds) ==> bounds.exact(),
    ensures
        damage.combined(damage).same(damage),
{
    if damage is Rect {
        let bounds = damage->Rect_0;
        lemma_exact_extent(bounds.left(), bounds.size.width.0);
        lemma_exact_extent(bounds.top(), bounds.size.height.0);
    }
}

/// Where sides make exact spans, it does not matter in which order damage is united, nor
/// how it is grouped: the result is of the same variant, with the same numbers.
pub proof fn law_union_order_is_free(a: SceneDamage, b: SceneDamage, c: SceneDamage)
    requires
        exact_together(a.extent() + b.extent() + c.extent()),
    ensures
        a.combined(b).same(b.combined(a)),
        a.combined(b).combined(c).same(a.combined(b.combined(c))),
{
    lemma_exact_pairs(a.extent(), b.extent(), c.extent());
    lemma_union_commutes(a, b);
    lemma_union_commutes(b, c);
    lemma_union_commutes(a, c);
    if a is Rect && b is Rect && c is Rect {
        let all = a.extent() + b.extent() + c.extent();
        assert(all =~= seq![a->Rect_0, b->Rect_0, c->Rect_0]);
        lemma_join_associates(a->Rect_0, b->Rect_0, c->Rect_0);
    } else {
        lemma_two_group(a, b, c);
    }
}

/// Whether a damage lies on the grid of step `2^k`.
pub open spec fn damage_aligned(damage: SceneDamage, k: nat) -> bool {
    damage matches SceneDamage::Rect(bounds) ==> bounds.aligned(k)
}

/// On a grid that the significand can hold it does not matter in which order damage is
/// united, nor how it is grouped.
pub proof fn law_grid_union_order_is_free(
    a: SceneDamage,
    b: SceneDamage,
    c: SceneDamage,
    k: nat,
)
    requires
        k <= 252,
        damage_aligned(a, k),
        damage_aligned(b, k),
        damage_aligned(c, k),
    ensures
        a.combined(b).same(b.combined(a)),
        a.combined(b).combined(c).same(a.combined(b.combined(c))),
{
    lemma_grid_exact(a.extent() + b.extent() + c.extent(), k);
    law_union_order_is_free(a, b, c);
}

/// A far side that makes an exact span does so by its number.
proof fn lemma_rejoins_same(near_side: Single, far_side: Single, same: Single)
    requires
        rejoins(near_side, far_side),
        same_number(far_side, same),
    ensures
        rejoins(near_side, same),
{
    reveal(rejoins);
    law_sum_respects_numbers(far_side, same, near_side, near_side);
    law_sum_respects_numbers(
        near_side,
        near_side,
        Single::difference(far_side, near_side),
        Single::difference(same, near_side),
    );
}

/// What a span stores is the distance between its sides.
proof fn lemma_span_extent(near_side: Single, far_side: Single)
    requires
        rejoins(near_side, far_side),
    ensures
        ({
            let extent = Single::difference(far_side, near_side);
            let reached = Single::sum(near_side, extent);
            same_number(extent, Single::difference(reached, near_side))
        }),
{
    reveal(rejoins);
    let reached = Single::sum(near_side, Single::difference(far_side, near_side));
    law_sum_respects_numbers(far_side, reached, near_side, near_side);
}

/// The distance between the sides of an exact span is its extent.
proof fn lemma_exact_extent(near_side: Single, extent: Single)
    requires
        near_side.finite(),
        extent.finite(),
        Single::sum(near_side, extent).finite(),
        Single::sum(near_side, extent).value() == near_side.value() + extent.value(),
    ensures
        same_number(Single::difference(Single::sum(near_side, extent), near_side), extent),
{
    let far_side = Single::sum(near_side, extent);
    let back = near_side.negation();
    assert(back.finite() && back.value() == -near_side.value());
    law_held_sum_is_exact(far_side, back, extent);
    law_order_is_numeric(Single::difference(far_side, near_side), extent);
    law_order_is_numeric(extent, Single::difference(far_side, near_side));
}

proof fn lemma_union_commutes(a: SceneDamage, b: SceneDamage)
    requires
        exact_together(a.extent() + b.extent()),
    ensures
        a.combined(b).same(b.combined(a)),
        a.combined(b).same(a.combined(b)),
{
    reveal(rejoins);
    let all = a.extent() + b.extent();
    if a is Rect {
        assert(all[0] == a->Rect_0);
    }
    if b is Rect {
        assert(all[all.len() - 1] == b->Rect_0);
    }
    if a is Rect && b is Rect {
        let (x, y) = (a->Rect_0, b->Rect_0);
        lemma_axis_commutes(x.left(), y.left(), x.right(), y.right());
        lemma_axis_commutes(x.top(), y.top(), x.bottom(), y.bottom());
    }
}

/// With less than three rectangles there is no more than one union to take.
proof fn lemma_two_group(a: SceneDamage, b: SceneDamage, c: SceneDamage)
    requires
        !(a is Rect && b is Rect && c is Rect),
    ensures
        ({
            let both = a.combined(b).combined(c);
            &&& both == a.combined(b.combined(c))
            &&& both == a.combined(b) || both == b.combined(c) || both == a.combined(c)
        }),
{
}

proof fn lemma_join_associates(
    x: Bounds<ScaledPixels>,
    y: Bounds<ScaledPixels>,
    z: Bounds<ScaledPixels>,
)
    requires
        exact_together(seq![x, y, z]),
    ensures
        x.joined(y).joined(z).same_numbers(x.joined(y.joined(z))),
{
    reveal(rejoins);
    let all = seq![x, y, z];
    assert(all[0] == x && all[1] == y && all[2] == z);
    lemma_axis_associates(x.left(), y.left(), z.left(), x.right(), y.right(), z.right());
    lemma_axis_associates(x.top(), y.top(), z.top(), x.bottom(), y.bottom(), z.bottom());
}

proof fn lemma_axis_commutes(l: Single, m: Single, r: Single, s: Single)
    requires
        rejoins(l, r) && rejoins(l, s) && rejoins(m, r) && rejoins(m, s),
    ensures
        same_number(near(l, m), near(m, l)),
        same_number(
            Single::difference(far(r, s), near(l, m)),
            Single::difference(far(s, r), near(m, l)),
        ),
{
    reveal(rejoins);
    law_sum_respects_numbers(far(r, s), far(s, r), near(l, m), near(m, l));
}

proof fn lemma_axis_associates(
    l: Single,
    m: Single,
    n: Single,
    r: Single,
    s: Single,
    t: Single,
)
    requires
        rejoins(l, r) && rejoins(l, s) && rejoins(l, t),
        rejoins(m, r) && rejoins(m, s) && rejoins(m, t),
        rejoins(n, r) && rejoins(n, s) && rejoins(n, t),
    ensures
        ({
            let rs = Single::sum(near(l, m), Single::difference(far(r, s), near(l, m)));
            let st = Single::sum(near(m, n), Single::difference(far(s, t), near(m, n)));
            &&& same_number(near(near(l, m), n), near(l, near(m, n)))
            &&& same_number(
                Single::difference(far(rs, t), near(near(l, m), n)),
                Single::difference(far(r, st), near(l, near(m, n))),
            )
        }),
{
    reveal(rejoins);
    let rs = Single::sum(near(l, m), Single::difference(far(r, s), near(l, m)));
    let st = Single::sum(near(m, n), Single::difference(far(s, t), near(m, n)));
    assert(same_number(rs, far(r, s)) && same_number(st, far(s, t)));
    let first = near(near(l, m), n);
    let last = far(r, far(s, t));
    assert(rejoins(first, last));
    law_sum_respects_numbers(last, far(rs, t), first, first);
    law_sum_respects_numbers(last, far(r, st), first, near(l, near(m, n)));
}

proof fn lemma_exact_within(a: Seq<Bounds<ScaledPixels>>, b: Seq<Bounds<ScaledPixels>>)
    requires
        exact_together(b),
        forall|i: int| 0 <= i < a.len() ==> b.contains(#[trigger] a[i]),
    ensures
        exact_together(a),
{
    assert forall|i: int, j: int| 0 <= i < a.len() && 0 <= j < a.len() implies rejoins(
        (#[trigger] a[i]).left(),
        (#[trigger] a[j]).right(),
    ) && rejoins(a[i].top(), a[j].bottom()) by {
        let p: int = choose|p: int| 0 <= p < b.len() && b[p] == a[i];
        let q: int = choose|q: int| 0 <= q < b.len() && b[q] == a[j];
        assert(rejoins(b[p].left(), b[q].right()) && rejoins(b[p].top(), b[q].bottom()));
    }
}

proof fn lemma_exact_parts(a: Seq<Bounds<ScaledPixels>>, b: Seq<Bounds<ScaledPixels>>)
    requires
        exact_together(a + b),
    ensures
        exact_together(a),
        exact_together(b),
{
    let all = a + b;
    assert forall|i: int| 0 <= i < a.len() implies all.contains(#[trigger] a[i]) by {
        assert(all[i] == a[i]);
    }
    assert forall|i: int| 0 <= i < b.len() implies all.contains(#[trigger] b[i]) by {
        assert(all[a.len() + i] == b[i]);
    }
    lemma_exact_within(a, all);
    lemma_exact_within(b, all);
}

proof fn lemma_exact_pairs(
    a: Seq<Bounds<ScaledPixels>>,
    b: Seq<Bounds<ScaledPixels>>,
    c: Seq<Bounds<ScaledPixels>>,
)
    requires
        exact_together(a + b + c),
    ensures
        exact_together(a + b),
        exact_together(b + c),
        exact_together(a + c),
{
    let all = a + b + c;
    lemma_exact_parts(a + b, c);
    assert(all =~= a + (b + c));
    lemma_exact_parts(a, b + c);
    let outer = a + c;
    assert forall|i: int| 0 <= i < outer.len() implies all.contains(#[trigger] outer[i]) by {
        if i < a.len() {
            assert(all[i] == outer[i]);
        } else {
            assert(all[i + b.len()] == outer[i]);
        }
    }
    lemma_exact_within(outer, all);
}

/// Rectangles that hug regions whose sides make exact spans join exactly.
proof fn lemma_hugging_joins(
    x: Bounds<ScaledPixels>,
    p: Seq<Bounds<ScaledPixels>>,
    y: Bounds<ScaledPixels>,
    q: Seq<Bounds<ScaledPixels>>,
)
    requires
        hugs(x, p),
        hugs(y, q),
        exact_together(p + q),
    ensures
        x.joins_exactly(y),
{
    let all = p + q;
    let n: int = p.len() as int;
    let (xl, yl): (int, int) = (
        choose|i: int| 0 <= i < p.len() && x.left() == (#[trigger] p[i]).left(),
        choose|i: int| 0 <= i < q.len() && y.left() == (#[trigger] q[i]).left(),
    );
    let (xt, yt): (int, int) = (
        choose|i: int| 0 <= i < p.len() && x.top() == (#[trigger] p[i]).top(),
        choose|i: int| 0 <= i < q.len() && y.top() == (#[trigger] q[i]).top(),
    );
    let (xr, yr): (int, int) = (
        choose|i: int| 0 <= i < p.len() && same_number(x.right(), (#[trigger] p[i]).right()),
        choose|i: int| 0 <= i < q.len() && same_number(y.right(), (#[trigger] q[i]).right()),
    );
    let (xb, yb): (int, int) = (
        choose|i: int| 0 <= i < p.len() && same_number(x.bottom(), (#[trigger] p[i]).bottom()),
        choose|i: int| 0 <= i < q.len() && same_number(y.bottom(), (#[trigger] q[i]).bottom()),
    );
    assert(all[xl] == p[xl] && all[xt] == p[xt] && all[xr] == p[xr] && all[xb] == p[xb]);
    assert(all[n + yl] == q[yl] && all[n + yt] == q[yt]);
    assert(all[n + yr] == q[yr] && all[n + yb] == q[yb]);
    lemma_axis_joins(x.left(), y.left(), p[xr].right(), q[yr].right(), x.right(), y.right());
    lemma_axis_joins(x.top(), y.top(), p[xb].bottom(), q[yb].bottom(), x.bottom(), y.bottom());
}

proof fn lemma_axis_joins(l: Single, m: Single, r: Single, s: Single, v: Single, w: Single)
    requires
        rejoins(l, r) && rejoins(l, s) && rejoins(m, r) && rejoins(m, s),
        same_number(v, r),
        same_number(w, s),
    ensures
        rejoins(near(l, m), far(v, w)),
        !l.nan() && !m.nan(),
{
    reveal(rejoins);
    lemma_rejoins_same(near(l, m), far(r, s), far(v, w));
}

/// What is gathered from regions whose sides make exact spans contains and hugs them.
proof fn lemma_gathered_exactly(regions: Seq<Bounds<ScaledPixels>>)
    requires
        exact_together(regions),
        regions.len() > 0,
    ensures
        gathered(None, regions) is Some,
        spans(gathered(None, regions)->Some_0, regions),
        hugs(gathered(None, regions)->Some_0, regions),
    decreases regions.len(),
{
    let rest = regions.drop_last();
    let last = regions.last();
    if rest.len() == 0 {
        assert(gathered(None, rest) is None);
        assert(gathered(None, regions)->Some_0 == regions[0]);
        lemma_hugs_itself(regions);
    } else {
        lemma_exact_step(regions);
        lemma_gathered_exactly(rest);
        let inner = gathered(None, rest)->Some_0;
        lemma_exact_join(inner, rest, last);
        lemma_joined_hugs(inner, rest, last);
        lemma_joined_spans(inner, rest, last);
        assert(regions =~= rest.push(last));
    }
}

/// A region alone contains and hugs itself.
proof fn lemma_hugs_itself(regions: Seq<Bounds<ScaledPixels>>)
    requires
        exact_together(regions),
        regions.len() == 1,
    ensures
        spans(regions[0], regions),
        hugs(regions[0], regions),
{
    reveal(rejoins);
    assert(rejoins(regions[0].left(), regions[0].right()));
}

proof fn lemma_exact_step(regions: Seq<Bounds<ScaledPixels>>)
    requires
        exact_together(regions),
        regions.len() > 0,
    ensures
        exact_together(regions.drop_last()),
        exact_together(regions.drop_last() + seq![regions.last()]),
{
    assert(regions =~= regions.drop_last() + seq![regions.last()]);
    lemma_exact_parts(regions.drop_last(), seq![regions.last()]);
}

/// What hugs regions joins exactly with one more.
proof fn lemma_exact_join(
    inner: Bounds<ScaledPixels>,
    rest: Seq<Bounds<ScaledPixels>>,
    last: Bounds<ScaledPixels>,
)
    requires
        hugs(inner, rest),
        exact_together(rest + seq![last]),
    ensures
        inner.joins_exactly(last),
{
    let alone = seq![last];
    lemma_exact_parts(rest, alone);
    lemma_hugs_itself(alone);
    assert(alone[0] == last);
    lemma_hugging_joins(inner, rest, last, alone);
}

/// The union with one more region contains one region more.
proof fn lemma_joined_spans(
    inner: Bounds<ScaledPixels>,
    rest: Seq<Bounds<ScaledPixels>>,
    last: Bounds<ScaledPixels>,
)
    requires
        spans(inner, rest),
        inner.joins_exactly(last),
    ensures
        spans(inner.joined(last), rest.push(last)),
{
    let regions = rest.push(last);
    let bounds = inner.joined(last);
    law_union_is_least(bounds, inner, last);
    assert forall|i: int| 0 <= i < regions.len() implies bounds.encloses(#[trigger] regions[i]) by {
        if i < rest.len() {
            assert(rest[i] == regions[i]);
            law_encloses_is_transitive(bounds, inner, regions[i]);
        }
    }
}

/// What hugs regions lies within what contains them.
proof fn lemma_hugs_least(
    outer: Bounds<ScaledPixels>,
    bounds: Bounds<ScaledPixels>,
    regions: Seq<Bounds<ScaledPixels>>,
)
    requires
        hugs(bounds, regions),
        spans(outer, regions),
    ensures
        outer.encloses(bounds),
{
}

/// What is gathered from more than one region stores the distance between its sides.
proof fn lemma_gathered_extent(regions: Seq<Bounds<ScaledPixels>>)
    requires
        exact_together(regions),
        regions.len() > 1,
    ensures
        ({
            let bounds = gathered(None, regions)->Some_0;
            &&& same_number(
                bounds.size.width.0,
                Single::difference(bounds.right(), bounds.left()),
            )
            &&& same_number(
                bounds.size.height.0,
                Single::difference(bounds.bottom(), bounds.top()),
            )
        }),
{
    let rest = regions.drop_last();
    let last = regions.last();
    lemma_exact_step(regions);
    lemma_gathered_exactly(rest);
    let inner = gathered(None, rest)->Some_0;
    lemma_exact_join(inner, rest, last);
    lemma_span_extent(near(inner.left(), last.left()), far(inner.right(), last.right()));
    lemma_span_extent(near(inner.top(), last.top()), far(inner.bottom(), last.bottom()));
}

/// The union with one more region hugs one region more.
proof fn lemma_joined_hugs(
    inner: Bounds<ScaledPixels>,
    rest: Seq<Bounds<ScaledPixels>>,
    last: Bounds<ScaledPixels>,
)
    requires
        hugs(inner, rest),
        inner.joins_exactly(last),
    ensures
        hugs(inner.joined(last), rest.push(last)),
{
    reveal(rejoins);
    let regions = rest.push(last);
    let bounds = inner.joined(last);
    assert(regions[rest.len() as int] == last);
    let l: int = choose|i: int| 0 <= i < rest.len() && inner.left() == (#[trigger] rest[i]).left();
    let t: int = choose|i: int| 0 <= i < rest.len() && inner.top() == (#[trigger] rest[i]).top();
    let r: int = choose|i: int|
        0 <= i < rest.len() && same_number(inner.right(), (#[trigger] rest[i]).right());
    let b: int = choose|i: int|
        0 <= i < rest.len() && same_number(inner.bottom(), (#[trigger] rest[i]).bottom());
    assert(regions[l] == rest[l] && regions[t] == rest[t]);
    assert(regions[r] == rest[r] && regions[b] == rest[b]);
}

/// The same regions in another order gather the same numbers.
proof fn lemma_same_gathered(a: Seq<Bounds<ScaledPixels>>, b: Seq<Bounds<ScaledPixels>>)
    requires
        exact_together(a),
        exact_together(b),
        a.len() == b.len(),
        a.len() > 0,
        forall|i: int| 0 <= i < a.len() ==> b.contains(#[trigger] a[i]),
        forall|i: int| 0 <= i < b.len() ==> a.contains(#[trigger] b[i]),
    ensures
        gathered(None, a) is Some && gathered(None, b) is Some,
        gathered(None, a)->Some_0.same_numbers(gathered(None, b)->Some_0),
        gathered(None, a)->Some_0.encloses(gathered(None, b)->Some_0),
        gathered(None, b)->Some_0.encloses(gathered(None, a)->Some_0),
{
    lemma_gathered_exactly(a);
    lemma_gathered_exactly(b);
    let x = gathered(None, a)->Some_0;
    let y = gathered(None, b)->Some_0;
    lemma_spans_within(x, a, b);
    lemma_spans_within(y, b, a);
    lemma_hugs_least(x, y, b);
    lemma_hugs_least(y, x, a);
    if a.len() == 1 {
        lemma_lone_same(a, b);
    } else {
        lemma_gathered_extent(a);
        lemma_gathered_extent(b);
        lemma_same_extents(x, y);
    }
}

proof fn lemma_spans_within(
    outer: Bounds<ScaledPixels>,
    a: Seq<Bounds<ScaledPixels>>,
    b: Seq<Bounds<ScaledPixels>>,
)
    requires
        spans(outer, a),
        forall|i: int| 0 <= i < b.len() ==> a.contains(#[trigger] b[i]),
    ensures
        spans(outer, b),
{
    assert forall|i: int| 0 <= i < b.len() implies outer.encloses(#[trigger] b[i]) by {
        let j: int = choose|j: int| 0 <= j < a.len() && a[j] == b[i];
        assert(outer.encloses(a[j]));
    }
}

/// A region alone is gathered as it is.
proof fn lemma_lone_same(a: Seq<Bounds<ScaledPixels>>, b: Seq<Bounds<ScaledPixels>>)
    requires
        exact_together(a),
        a.len() == 1,
        b.len() == 1,
        b.contains(a[0]),
    ensures
        gathered(None, a)->Some_0.same_numbers(gathered(None, b)->Some_0),
{
    assert(a =~= b);
    assert(gathered(None, a.drop_last()) is None);
    assert(gathered(None, a)->Some_0 == a[0]);
    lemma_hugs_itself(a);
    lemma_regular_same(a[0]);
}

/// Where the sides of a rectangle are numbers, its extents are.
proof fn lemma_regular_same(bounds: Bounds<ScaledPixels>)
    requires
        bounds.encloses(bounds),
    ensures
        bounds.same_numbers(bounds),
{
}

/// Rectangles with the same sides that store the distance between them are the same.
proof fn lemma_same_extents(x: Bounds<ScaledPixels>, y: Bounds<ScaledPixels>)
    requires
        x.encloses(y),
        y.encloses(x),
        same_number(x.size.width.0, Single::difference(x.right(), x.left())),
        same_number(x.size.height.0, Single::difference(x.bottom(), x.top())),
        same_number(y.size.width.0, Single::difference(y.right(), y.left())),
        same_number(y.size.height.0, Single::difference(y.bottom(), y.top())),
    ensures
        x.same_numbers(y),
{
    law_sum_respects_numbers(x.right(), y.right(), x.left(), y.left());
    law_sum_respects_numbers(x.bottom(), y.bottom(), x.top(), y.top());
}

/// What changed is what changes back.
proof fn lemma_turned_within(prev: SceneModel, next: SceneModel)
    ensures
        forall|i: int|
            0 <= i < changed_regions(prev, next).len() ==> changed_regions(next, prev).contains(
                #[trigger] changed_regions(prev, next)[i],
            ),
{
    let turned = changed_regions(next, prev);
    let pred = |region: Bounds<ScaledPixels>| turned.contains(region);
    lemma_by_kind(prev, next);
    lemma_by_kind(next, prev);
    assert(each(turned, pred)) by {
        assert forall|i: int| 0 <= i < turned.len() implies pred(#[trigger] turned[i]) by {}
    }
    lemma_kind_turned::<Quad>(next.quads, prev.quads, pred);
    lemma_kind_turned::<Shadow>(next.shadows, prev.shadows, pred);
    lemma_kind_turned::<Underline>(next.underlines, prev.underlines, pred);
    lemma_kind_turned::<MonochromeSprite>(next.monochrome_sprites, prev.monochrome_sprites, pred);
    lemma_kind_turned::<SubpixelSprite>(next.subpixel_sprites, prev.subpixel_sprites, pred);
    lemma_kind_turned::<PolychromeSprite>(next.polychrome_sprites, prev.polychrome_sprites, pred);
    lemma_kind_turned::<Path<ScaledPixels>>(next.paths, prev.paths, pred);
    lemma_kind_turned::<PaintSurface>(next.surfaces, prev.surfaces, pred);
    assert(each(changed_regions(prev, next), pred));
    let regions = changed_regions(prev, next);
    assert forall|i: int| 0 <= i < regions.len() implies turned.contains(#[trigger] regions[i]) by {
        assert(pred(regions[i]));
    }
}

proof fn lemma_kind_turned<T: Drawn>(
    prev: Seq<T::V>,
    next: Seq<T::V>,
    pred: spec_fn(Bounds<ScaledPixels>) -> bool,
)
    requires
        each(changed::<T>(prev, next), pred),
    ensures
        each(changed::<T>(next, prev), pred),
{
    let before = painted_by::<T>(window(prev, next));
    let after = painted_by::<T>(window(next, prev));
    lemma_each_part(before, after, pred);
    lemma_each_part(after, before, pred);
}

/// What only one of two lists has is among what changed.
proof fn lemma_kind_reached<T: Drawn>(damage: SceneDamage, prev: Seq<T::V>, next: Seq<T::V>)
    requires
        each(
            changed::<T>(prev, next),
            |region: Bounds<ScaledPixels>| region.regular() ==> damage.reaches(region),
        ),
    ensures
        damage.reaches_kind::<T>(prev, next),
{
    let pred = |region: Bounds<ScaledPixels>| region.regular() ==> damage.reaches(region);
    let (head, tail) = lemma_window_splits(prev, next);
    let before = window(prev, next);
    let after = window(next, prev);
    let regions = changed::<T>(prev, next);
    assert forall|item: T::V|
        prev.contains(item) != next.contains(item) && (#[trigger] T::painted(item)).regular() implies
        damage.reaches(T::painted(item)) by {
        if prev.contains(item) {
            lemma_in_window(head, before, after, tail, item);
            let i: int = choose|i: int| 0 <= i < before.len() && before[i] == item;
            assert(regions[i] == T::painted(item));
            assert(pred(regions[i]));
        } else {
            lemma_in_window(head, after, before, tail, item);
            let i: int = choose|i: int| 0 <= i < after.len() && after[i] == item;
            assert(regions[before.len() + i] == T::painted(item));
            assert(pred(regions[before.len() + i]));
        }
    }
}

proof fn lemma_in_window<V>(head: Seq<V>, mine: Seq<V>, other: Seq<V>, tail: Seq<V>, item: V)
    requires
        (head + mine + tail).contains(item),
        !(head + other + tail).contains(item),
    ensures
        mine.contains(item),
{
    let list = head + mine + tail;
    let without = head + other + tail;
    let i: int = choose|i: int| 0 <= i < list.len() && list[i] == item;
    if i < head.len() {
        assert(without[i] == item);
    } else if i < head.len() + mine.len() {
        assert(mine[i - head.len()] == item);
    } else {
        assert(without[i - mine.len() + other.len()] == item);
    }
}

/// What two steps reach, their union does.
proof fn lemma_union_reaches(
    first: SceneDamage,
    second: SceneDamage,
    a: SceneModel,
    b: SceneModel,
    c: SceneModel,
)
    requires
        combines_soundly(first, second),
        first.reaches_changes(a, b),
        second.reaches_changes(b, c),
    ensures
        first.combined(second).reaches_changes(a, c),
{
    lemma_kind_union::<Quad>(first, second, a.quads, b.quads, c.quads);
    lemma_kind_union::<Shadow>(first, second, a.shadows, b.shadows, c.shadows);
    lemma_kind_union::<Underline>(first, second, a.underlines, b.underlines, c.underlines);
    lemma_kind_union::<MonochromeSprite>(
        first,
        second,
        a.monochrome_sprites,
        b.monochrome_sprites,
        c.monochrome_sprites,
    );
    lemma_kind_union::<SubpixelSprite>(
        first,
        second,
        a.subpixel_sprites,
        b.subpixel_sprites,
        c.subpixel_sprites,
    );
    lemma_kind_union::<PolychromeSprite>(
        first,
        second,
        a.polychrome_sprites,
        b.polychrome_sprites,
        c.polychrome_sprites,
    );
    lemma_kind_union::<Path<ScaledPixels>>(first, second, a.paths, b.paths, c.paths);
    lemma_kind_union::<PaintSurface>(first, second, a.surfaces, b.surfaces, c.surfaces);
}

proof fn lemma_kind_union<T: Drawn>(
    first: SceneDamage,
    second: SceneDamage,
    a: Seq<T::V>,
    b: Seq<T::V>,
    c: Seq<T::V>,
)
    requires
        combines_soundly(first, second),
        first.reaches_kind::<T>(a, b),
        second.reaches_kind::<T>(b, c),
    ensures
        first.combined(second).reaches_kind::<T>(a, c),
{
    law_union_redraws_both(first, second);
    assert forall|item: T::V|
        a.contains(item) != c.contains(item) && (#[trigger] T::painted(item)).regular() implies
        first.combined(second).reaches(T::painted(item)) by {
        if a.contains(item) != b.contains(item) {
            assert(first.reaches(T::painted(item)));
        } else {
            assert(second.reaches(T::painted(item)));
        }
    }
}

proof fn lemma_prefix_matches<V>(a: Seq<V>, b: Seq<V>)
    ensures
        common_prefix(a, b) <= a.len(),
        common_prefix(a, b) <= b.len(),
        common_prefix(a, b) == common_prefix(b, a),
        forall|j: int| 0 <= j < common_prefix(a, b) ==> a[j] == b[j],
    decreases a.len(),
{
    if !(a.len() == 0 || b.len() == 0 || a.first() != b.first()) {
        let c = a.drop_first();
        let d = b.drop_first();
        lemma_prefix_matches(c, d);
        assert forall|j: int| 0 <= j < common_prefix(a, b) implies a[j] == b[j] by {
            if j > 0 {
                assert(c[j - 1] == d[j - 1]);
            }
        }
    }
}

proof fn lemma_suffix_matches<V>(a: Seq<V>, b: Seq<V>)
    ensures
        common_suffix(a, b) <= a.len(),
        common_suffix(a, b) <= b.len(),
        common_suffix(a, b) == common_suffix(b, a),
        a.skip(a.len() - common_suffix(a, b)) == b.skip(b.len() - common_suffix(a, b)),
    decreases a.len(),
{
    if !(a.len() == 0 || b.len() == 0 || a.last() != b.last()) {
        let c = a.drop_last();
        let d = b.drop_last();
        lemma_suffix_matches(c, d);
        let n: int = common_suffix(a, b) as int;
        assert(a.skip(a.len() - n) =~= c.skip(c.len() - (n - 1)).push(a.last()));
        assert(b.skip(b.len() - n) =~= d.skip(d.len() - (n - 1)).push(b.last()));
    } else {
        assert(a.skip(a.len() as int) =~= b.skip(b.len() as int));
    }
}

/// Two lists are what they have in common around their windows.
proof fn lemma_window_splits<V>(a: Seq<V>, b: Seq<V>) -> (parts: (Seq<V>, Seq<V>))
    ensures
        a == parts.0 + window(a, b) + parts.1,
        b == parts.0 + window(b, a) + parts.1,
{
    lemma_prefix_matches(a, b);
    let prefix: int = common_prefix(a, b) as int;
    let c = a.skip(prefix);
    let d = b.skip(prefix);
    lemma_suffix_matches(c, d);
    let suffix: int = common_suffix(c, d) as int;
    let head = a.take(prefix);
    let tail = c.skip(c.len() - suffix);
    assert(head =~= b.take(prefix));
    assert(tail =~= a.skip(a.len() - suffix));
    assert(d.skip(d.len() - suffix) =~= b.skip(b.len() - suffix));
    assert(a =~= head + window(a, b) + tail);
    assert(b =~= head + window(b, a) + tail);
    (head, tail)
}

/// With one item put in, the window of the shorter list is empty and that of the longer
/// one holds the item alone.
proof fn lemma_inserted_window<V>(head: Seq<V>, item: V, tail: Seq<V>)
    ensures
        window(head + tail, head.push(item) + tail) == Seq::<V>::empty(),
        window(head.push(item) + tail, head + tail) == seq![item],
{
    let a = head + tail;
    let b = head.push(item) + tail;
    lemma_prefix_matches(a, b);
    let p: int = common_prefix(a, b) as int;
    lemma_prefix_reaches(a, b, head.len());
    let c = a.skip(p);
    let d = b.skip(p);
    assert forall|j: int| 0 <= j < c.len() implies #[trigger] c[c.len() - 1 - j] == d[d.len() - 1
        - j] by {}
    lemma_common_suffix(c, d, c.len());
    lemma_common_suffix(d, c, c.len());
    lemma_inserted_repeats(head, item, tail, p);
    assert(window(a, b) =~= Seq::empty());
    assert(window(b, a) =~= seq![item]);
}

/// What two lists have in common at their start is not less than what is known to be.
proof fn lemma_prefix_reaches<V>(a: Seq<V>, b: Seq<V>, n: nat)
    requires
        n <= a.len(),
        n <= b.len(),
        forall|j: int| 0 <= j < n ==> a[j] == b[j],
    ensures
        common_prefix(a, b) >= n,
    decreases n,
{
    if n > 0 {
        assert(a[0] == b[0]);
        lemma_prefix_reaches(a.drop_first(), b.drop_first(), (n - 1) as nat);
    }
}

/// Where the common start goes on past the place of the item, copies of it follow.
proof fn lemma_inserted_repeats<V>(head: Seq<V>, item: V, tail: Seq<V>, p: int)
    requires
        head.len() <= p <= head.len() + tail.len(),
        forall|j: int| 0 <= j < p ==> (head + tail)[j] == (head.push(item) + tail)[j],
    ensures
        (head.push(item) + tail)[p] == item,
    decreases p,
{
    if p > head.len() {
        lemma_inserted_repeats(head, item, tail, p - 1);
        assert((head + tail)[p - 1] == (head.push(item) + tail)[p - 1]);
    }
}

pub(crate) proof fn lemma_changed_empty<T: Drawn>(prev: Seq<T::V>, next: Seq<T::V>)
    ensures
        changed::<T>(prev, next).len() == 0 <==> prev == next,
{
    let (head, tail) = lemma_window_splits(prev, next);
    if changed::<T>(prev, next).len() == 0 {
        assert(window(prev, next) =~= window(next, prev));
    }
    if prev == next {
        lemma_common_prefix(prev, next, prev.len());
    }
}

proof fn lemma_gathered_some(
    region: Option<Bounds<ScaledPixels>>,
    list: Seq<Bounds<ScaledPixels>>,
)
    ensures
        gathered(region, list) is Some <==> region is Some || list.len() > 0,
{
}

/// Where no changed item of a kind paints, the kind paints the same as before.
proof fn lemma_untouched<T: Drawn>(prev: Seq<T::V>, next: Seq<T::V>, at: Point<ScaledPixels>)
    requires
        each(changed::<T>(prev, next), |region: Bounds<ScaledPixels>| !region.holds(at)),
    ensures
        painters::<T>(prev, at) == painters::<T>(next, at),
{
    let (head, tail) = lemma_window_splits(prev, next);
    let before = window(prev, next);
    let after = window(next, prev);
    let pred = |item: T::V| T::painted(item).holds(at);
    let clear = |region: Bounds<ScaledPixels>| !region.holds(at);
    let regions = changed::<T>(prev, next);
    assert forall|i: int| 0 <= i < before.len() implies !pred(#[trigger] before[i]) by {
        assert(regions[i] == T::painted(before[i]));
        assert(clear(regions[i]));
    }
    assert forall|i: int| 0 <= i < after.len() implies !pred(#[trigger] after[i]) by {
        assert(regions[before.len() + i] == T::painted(after[i]));
        assert(clear(regions[before.len() + i]));
    }
    before.lemma_all_neg_filter_empty(pred);
    after.lemma_all_neg_filter_empty(pred);
    Seq::filter_distributes_over_add(head + before, tail, pred);
    Seq::filter_distributes_over_add(head, before, pred);
    Seq::filter_distributes_over_add(head + after, tail, pred);
    Seq::filter_distributes_over_add(head, after, pred);
    assert(head.filter(pred) + before.filter(pred) =~= head.filter(pred) + after.filter(pred));
}

proof fn lemma_changed_aligned<T: Drawn>(prev: Seq<T::V>, next: Seq<T::V>, k: nat)
    requires
        all_aligned::<T>(prev, k),
        all_aligned::<T>(next, k),
    ensures
        each(changed::<T>(prev, next), |region: Bounds<ScaledPixels>| region.aligned(k)),
{
    let (head, tail) = lemma_window_splits(prev, next);
    let before = window(prev, next);
    let after = window(next, prev);
    let regions = changed::<T>(prev, next);
    assert forall|i: int| 0 <= i < regions.len() implies (#[trigger] regions[i]).aligned(k) by {
        if i < before.len() {
            assert(prev[head.len() + i] == before[i]);
        } else {
            assert(next[head.len() + (i - before.len())] == after[i - before.len()]);
        }
    }
}

/// What changes between scenes on a grid is on the grid.
proof fn lemma_grid_regions(prev: SceneModel, next: SceneModel, k: nat)
    requires
        scene_aligned(prev, k),
        scene_aligned(next, k),
    ensures
        forall|i: int|
            0 <= i < changed_regions(prev, next).len() ==> (#[trigger] changed_regions(
                prev,
                next,
            )[i]).aligned(k),
{
    let pred = |region: Bounds<ScaledPixels>| region.aligned(k);
    lemma_changed_aligned::<Quad>(prev.quads, next.quads, k);
    lemma_changed_aligned::<Shadow>(prev.shadows, next.shadows, k);
    lemma_changed_aligned::<Underline>(prev.underlines, next.underlines, k);
    lemma_changed_aligned::<MonochromeSprite>(prev.monochrome_sprites, next.monochrome_sprites, k);
    lemma_changed_aligned::<SubpixelSprite>(prev.subpixel_sprites, next.subpixel_sprites, k);
    lemma_changed_aligned::<PolychromeSprite>(prev.polychrome_sprites, next.polychrome_sprites, k);
    lemma_changed_aligned::<Path<ScaledPixels>>(prev.paths, next.paths, k);
    lemma_changed_aligned::<PaintSurface>(prev.surfaces, next.surfaces, k);
    lemma_by_kind(prev, next);
    let regions = changed_regions(prev, next);
    assert(each(regions, pred));
    assert forall|i: int| 0 <= i < regions.len() implies (#[trigger] regions[i]).aligned(k) by {
        assert(pred(regions[i]));
    }
}

/// On a grid all sides make exact spans.
proof fn lemma_grid_exact(regions: Seq<Bounds<ScaledPixels>>, k: nat)
    requires
        k <= 252,
        forall|i: int| 0 <= i < regions.len() ==> (#[trigger] regions[i]).aligned(k),
    ensures
        exact_together(regions),
{
    assert forall|i: int, j: int| 0 <= i < regions.len() && 0 <= j < regions.len() implies rejoins(
        (#[trigger] regions[i]).left(),
        (#[trigger] regions[j]).right(),
    ) && rejoins(regions[i].top(), regions[j].bottom()) by {
        law_grid_side_survives(regions[i].left(), regions[j].right(), k);
        law_grid_side_survives(regions[i].top(), regions[j].bottom(), k);
    }
}

/// What hugs regions on a grid is on the grid.
proof fn lemma_hugs_aligned(
    bounds: Bounds<ScaledPixels>,
    regions: Seq<Bounds<ScaledPixels>>,
    k: nat,
)
    requires
        hugs(bounds, regions),
        forall|i: int| 0 <= i < regions.len() ==> (#[trigger] regions[i]).aligned(k),
    ensures
        bounds.aligned(k),
{
    let r: int = choose|i: int|
        0 <= i < regions.len() && same_number(bounds.right(), (#[trigger] regions[i]).right());
    let b: int = choose|i: int|
        0 <= i < regions.len() && same_number(bounds.bottom(), (#[trigger] regions[i]).bottom());
    lemma_same_on_grid(bounds.right(), regions[r].right(), k);
    lemma_same_on_grid(bounds.bottom(), regions[b].bottom(), k);
}

proof fn lemma_same_on_grid(a: Single, b: Single, k: nat)
    requires
        same_number(a, b),
        on_grid(b, k),
    ensures
        on_grid(a, k),
{
    law_order_is_numeric(a, b);
    law_order_is_numeric(b, a);
}

} // verus!
