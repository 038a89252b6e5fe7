//! Occlusion culling: drops primitives that are entirely hidden behind an opaque quad,
//! so that no backend spends time drawing them.

use crate::depth::{all_up_to, is_opaque_quad, some_at};
use crate::geometry::{
    covers, far, law_encloses_is_transitive, law_encloses_keeps_inside, law_grid_side_survives,
    survives, Bounds, Point, ScaledPixels,
};
use crate::scene::{
    models, visible, DrawOrder, Drawn, MonochromeSprite, PaintSurface, Path, PolychromeSprite,
    Quad, Scene, SceneModel, Shadow, SubpixelSprite, Underline,
};
use crate::single::{lemma_whole_16384, Single};
use vstd::prelude::*;

verus! {

/// Maximum number of occluders considered by [`Scene::cull_occluded`], keeping
/// the cull pass O(primitives x MAX_OCCLUDERS).
pub const MAX_OCCLUDERS: usize = 16;

/// The bit pattern of 128 x 128. Occluders smaller than this (in square scaled pixels)
/// are ignored; tiny occluders cost more to test against than they could ever save.
pub const MIN_OCCLUDER_AREA: u32 = 0x4680_0000;

/// Whether a quad is opaque, and large enough to be worth testing against.
pub open spec fn candidate(quad: Quad) -> bool {
    &&& Single::at_most(Single { bits: MIN_OCCLUDER_AREA }, quad.bounds.area_of())
    &&& quad.hides()
}

/// Whether the quad at `j` is tested before that at `i`: the larger one first, and of
/// two that are equally large the one that comes first in the scene.
pub open spec fn ahead(quads: Seq<Quad>, j: int, i: int) -> bool {
    let a: int = quads[j].bounds.area_of().rank();
    let b: int = quads[i].bounds.area_of().rank();
    a > b || (a == b && j < i)
}

/// The candidates that are tested before the quad at `i`.
pub open spec fn ahead_of(quads: Seq<Quad>, i: int) -> Set<int> {
    Set::new(|j: int| 0 <= j < quads.len() && candidate(quads[j]) && ahead(quads, j, i))
}

/// Whether the quad at `i` is one of the largest candidates, which are the occluders.
pub open spec fn occluder(quads: Seq<Quad>, i: int) -> bool {
    0 <= i < quads.len() && candidate(quads[i]) && ahead_of(quads, i).len() < MAX_OCCLUDERS
}

/// Whether an occluder drawn later than `order` covers `bounds`.
pub open spec fn hidden(quads: Seq<Quad>, order: DrawOrder, bounds: Bounds<ScaledPixels>) -> bool {
    exists|i: int| #[trigger]
        occluder(quads, i) && quads[i].order > order && quads[i].bounds.encloses(bounds)
}

/// The items of a list that are not hidden.
pub open spec fn unhidden<T: Drawn>(quads: Seq<Quad>, list: Seq<T::V>) -> Seq<T::V> {
    list.filter(
        |item: T::V| !hidden(quads, T::order_of(item), visible::<T>(item)),
    )
}

impl SceneModel {
    /// The scene without what its occluders hide.
    pub open spec fn culled(self) -> SceneModel {
        SceneModel {
            quads: unhidden::<Quad>(self.quads, self.quads),
            shadows: unhidden::<Shadow>(self.quads, self.shadows),
            underlines: unhidden::<Underline>(self.quads, self.underlines),
            monochrome_sprites: unhidden::<MonochromeSprite>(self.quads, self.monochrome_sprites),
            subpixel_sprites: unhidden::<SubpixelSprite>(self.quads, self.subpixel_sprites),
            polychrome_sprites: unhidden::<PolychromeSprite>(self.quads, self.polychrome_sprites),
            paths: unhidden::<Path<ScaledPixels>>(self.quads, self.paths),
            surfaces: unhidden::<PaintSurface>(self.quads, self.surfaces),
            ..self
        }
    }
}

/// Whether an occluder of a list, drawn later than `order`, covers `bounds`.
pub open spec fn covered(
    occluders: Seq<(DrawOrder, Bounds<ScaledPixels>)>,
    order: DrawOrder,
    bounds: Bounds<ScaledPixels>,
) -> bool {
    exists|p: int|
        0 <= p < occluders.len() && (#[trigger] occluders[p]).0 > order && occluders[p].1.encloses(
            bounds,
        )
}

/// The items of a list that no occluder covers.
pub open spec fn uncovered<T: Drawn>(
    occluders: Seq<(DrawOrder, Bounds<ScaledPixels>)>,
    list: Seq<T>,
) -> Seq<T> {
    list.filter(|item: T| !covered(occluders, T::order_of(item@), visible::<T>(item@)))
}

/// The first entries of a ranking, as many as are tested.
spec fn leading(
    list: Seq<(DrawOrder, Bounds<ScaledPixels>)>,
) -> Seq<(DrawOrder, Bounds<ScaledPixels>)> {
    if list.len() < MAX_OCCLUDERS {
        list
    } else {
        list.take(MAX_OCCLUDERS as int)
    }
}

/// Whether a list holds the candidates among the first `n` quads, which stand at
/// `indices`, in the order in which they are tested.
spec fn ranked(
    list: Seq<(DrawOrder, Bounds<ScaledPixels>)>,
    quads: Seq<Quad>,
    indices: Seq<int>,
    n: int,
) -> bool {
    &&& list.len() == indices.len()
    &&& forall|p: int|
        0 <= p < indices.len() ==> 0 <= #[trigger] indices[p] < n && candidate(quads[indices[p]])
            && list[p] == (quads[indices[p]].order, quads[indices[p]].bounds)
    &&& forall|p: int, q: int|
        0 <= p < q < indices.len() ==> ahead(quads, #[trigger] indices[p], #[trigger] indices[q])
    &&& forall|i: int| 0 <= i < n && candidate(#[trigger] quads[i]) ==> indices.contains(i)
}

impl Scene {
    /// Removes primitives that are entirely hidden behind a single opaque quad
    /// with a higher draw order, so no backend spends GPU time on them.
    ///
    /// This is the CPU counterpart to a GPU depth pre-pass: coarser (whole
    /// primitives instead of fragments; a union of occluders doesn't count) but
    /// platform-agnostic and also saves vertex and upload work. Call before
    /// [`Scene::finish`] so the sort shrinks too.
    pub fn cull_occluded(&mut self)
        ensures
            final(self)@ == old(self)@.culled(),
    {
        let occluders = collect_occluders(&self.quads);
        let ghost whole = *self;
        let ghost scene = self@;
        let ghost quads = self.quads@;
        assert(models(quads) =~= quads);
        if occluders.len() == 0 {
            proof {
                lemma_nothing_covered::<Quad>(occluders@, quads, scene.quads);
                lemma_nothing_covered::<Shadow>(occluders@, quads, scene.shadows);
                lemma_nothing_covered::<Underline>(occluders@, quads, scene.underlines);
                lemma_nothing_covered::<MonochromeSprite>(
                    occluders@,
                    quads,
                    scene.monochrome_sprites,
                );
                lemma_nothing_covered::<SubpixelSprite>(occluders@, quads, scene.subpixel_sprites);
                lemma_nothing_covered::<PolychromeSprite>(
                    occluders@,
                    quads,
                    scene.polychrome_sprites,
                );
                lemma_nothing_covered::<Path<ScaledPixels>>(occluders@, quads, scene.paths);
                lemma_nothing_covered::<PaintSurface>(occluders@, quads, scene.surfaces);
            }
            return;
        }
        retain_visible(&mut self.quads, occluders.as_slice());
        retain_visible(&mut self.shadows, occluders.as_slice());
        retain_visible(&mut self.underlines, occluders.as_slice());
        retain_visible(&mut self.monochrome_sprites, occluders.as_slice());
        retain_visible(&mut self.subpixel_sprites, occluders.as_slice());
        retain_visible(&mut self.polychrome_sprites, occluders.as_slice());
        retain_visible(&mut self.paths, occluders.as_slice());
        retain_visible(&mut self.surfaces, occluders.as_slice());
        proof {
            lemma_uncovered_models(occluders@, quads, whole.quads@);
            lemma_uncovered_models(occluders@, quads, whole.shadows@);
            lemma_uncovered_models(occluders@, quads, whole.underlines@);
            lemma_uncovered_models(occluders@, quads, whole.monochrome_sprites@);
            lemma_uncovered_models(occluders@, quads, whole.subpixel_sprites@);
            lemma_uncovered_models(occluders@, quads, whole.polychrome_sprites@);
            lemma_uncovered_models(occluders@, quads, whole.paths@);
            lemma_uncovered_models(occluders@, quads, whole.surfaces@);
        }
    }
}

/// The largest opaque quads, the largest first.
fn collect_occluders(quads: &Vec<Quad>) -> (occluders: Vec<(DrawOrder, Bounds<ScaledPixels>)>)
    ensures
        occluders.len() <= MAX_OCCLUDERS,
        forall|order: DrawOrder, bounds: Bounds<ScaledPixels>|
            #![trigger covered(occluders@, order, bounds)]
            #![trigger hidden(quads@, order, bounds)]
            covered(occluders@, order, bounds) == hidden(quads@, order, bounds),
{
    let mut occluders: Vec<(DrawOrder, Bounds<ScaledPixels>)> = Vec::new();
    let ghost mut ranking: Seq<(DrawOrder, Bounds<ScaledPixels>)> = Seq::empty();
    let ghost mut indices: Seq<int> = Seq::empty();
    let least = Single { bits: MIN_OCCLUDER_AREA };
    let mut i: usize = 0;
    while i < quads.len()
        invariant
            i <= quads.len(),
            least == (Single { bits: MIN_OCCLUDER_AREA }),
            ranked(ranking, quads@, indices, i as int),
            occluders@ == leading(ranking),
        decreases quads.len() - i,
    {
        let quad = &quads[i];
        let area = quad.bounds.area();
        if least.le(area) && is_opaque_quad(quad) {
            // Behind all that are as large: the largest are the most likely to cover.
            let mut at: usize = occluders.len();
            while at > 0 && occluders[at - 1].1.area().lt(area)
                invariant
                    at <= occluders.len(),
                    i < quads.len(),
                    area == quads@[i as int].bounds.area_of(),
                    candidate(quads@[i as int]),
                    ranked(ranking, quads@, indices, i as int),
                    occluders@ == leading(ranking),
                    forall|p: int|
                        at <= p < occluders.len() ==> ahead(
                            quads@,
                            i as int,
                            #[trigger] indices[p],
                        ),
                decreases at,
            {
                assert(candidate(quads@[indices[at - 1]]));
                at = at - 1;
            }
            proof {
                if at > 0 {
                    assert(candidate(quads@[indices[at - 1]]));
                    assert(ahead(quads@, indices[at - 1], i as int));
                }
                let place: int = lemma_leading_insert(
                    ranking,
                    quads@,
                    indices,
                    i as int,
                    at as int,
                );
                lemma_ranked_insert(ranking, quads@, indices, i as int, place);
                lemma_leading_grows(ranking, place, at as int, (quad.order, quad.bounds));
                ranking = ranking.insert(place, (quad.order, quad.bounds));
                indices = indices.insert(place, i as int);
            }
            if at < MAX_OCCLUDERS {
                occluders.insert(at, (quad.order, quad.bounds));
                if occluders.len() > MAX_OCCLUDERS {
                    occluders.pop();
                }
            }
        }
        i = i + 1;
    }
    proof {
        lemma_ranked_occluders(ranking, quads@, indices);
        assert forall|order: DrawOrder, bounds: Bounds<ScaledPixels>| covered(
            occluders@,
            order,
            bounds,
        ) == hidden(quads@, order, bounds) by {
            if covered(occluders@, order, bounds) {
                let p: int = choose|p: int|
                    0 <= p < occluders@.len() && (#[trigger] occluders@[p]).0 > order
                        && occluders@[p].1.encloses(bounds);
                assert(occluder(quads@, indices[p]));
            }
            if hidden(quads@, order, bounds) {
                let k: int = choose|k: int| #[trigger]
                    occluder(quads@, k) && quads@[k].order > order && quads@[k].bounds.encloses(
                        bounds,
                    );
                assert(candidate(quads@[k]));
                let p: int = choose|p: int| 0 <= p < indices.len() && indices[p] == k;
                assert(occluder(quads@, indices[p]));
                assert(occluders@[p] == (quads@[k].order, quads@[k].bounds));
            }
        }
    }
    occluders
}

/// Keeps only primitives whose visible bounds aren't fully covered by an
/// occluder with a strictly higher draw order.
pub fn retain_visible<T: Drawn>(
    primitives: &mut Vec<T>,
    occluders: &[(DrawOrder, Bounds<ScaledPixels>)],
)
    ensures
        final(primitives)@ == uncovered(occluders@, old(primitives)@),
{
    let ghost whole = primitives@;
    let ghost shown = |item: T| !covered(occluders@, T::order_of(item@), visible::<T>(item@));
    let mut rest: Vec<T> = Vec::new();
    while primitives.len() > 0
        invariant
            whole == primitives@ + rest@.reverse(),
        decreases primitives.len(),
    {
        let ghost before = primitives@;
        let ghost later = rest@;
        match primitives.pop() {
            Some(primitive) => {
                rest.push(primitive);
                assert(before + later.reverse() =~= primitives@ + rest@.reverse());
            },
            None => {},
        }
    }
    assert(whole =~= rest@.reverse());
    let ghost mut done: int = 0;
    proof {
        reveal(Seq::filter);
        assert(whole.take(0).filter(shown) =~= primitives@);
    }
    while rest.len() > 0
        invariant
            0 <= done <= whole.len(),
            rest@.reverse() == whole.skip(done),
            shown == (|item: T|
                !covered(occluders@, T::order_of(item@), visible::<T>(item@))),
            primitives@ == whole.take(done).filter(shown),
        decreases rest.len(),
    {
        let ghost ahead_of_it = rest@.reverse();
        match rest.pop() {
            Some(primitive) => {
                proof {
                    assert(ahead_of_it.len() == whole.skip(done).len());
                    assert(ahead_of_it[0] == primitive);
                    assert(whole.skip(done)[0] == whole[done]);
                    assert(rest@.reverse() =~= ahead_of_it.skip(1));
                    assert(whole.skip(done).skip(1) =~= whole.skip(done + 1));
                    assert(whole.take(done + 1).drop_last() =~= whole.take(done));
                    reveal(Seq::filter);
                }
                if !is_covered(occluders, primitive.draw_order(), &primitive.visible_bounds()) {
                    primitives.push(primitive);
                }
                proof {
                    done = done + 1;
                }
            },
            None => {},
        }
    }
    assert(done == whole.len()) by {
        assert(rest@.reverse().len() == whole.skip(done).len());
    }
    assert(whole.take(done) =~= whole);
}

/// Whether an occluder drawn later than `order` covers `bounds`.
fn is_covered(
    occluders: &[(DrawOrder, Bounds<ScaledPixels>)],
    order: DrawOrder,
    bounds: &Bounds<ScaledPixels>,
) -> (found: bool)
    ensures
        found == covered(occluders@, order, *bounds),
{
    let mut p: usize = 0;
    while p < occluders.len()
        invariant
            p <= occluders.len(),
            forall|q: int|
                0 <= q < p ==> !((#[trigger] occluders@[q]).0 > order && occluders@[q].1.encloses(
                    *bounds,
                )),
        decreases occluders.len() - p,
    {
        if occluders[p].0 > order && covers(&occluders[p].1, bounds) {
            assert(occluders@[p as int].0 > order);
            return true;
        }
        p = p + 1;
    }
    false
}

/// The leading entries once one more is put in, which may push the last of them off.
proof fn lemma_leading_grows(
    list: Seq<(DrawOrder, Bounds<ScaledPixels>)>,
    place: int,
    at: int,
    entry: (DrawOrder, Bounds<ScaledPixels>),
)
    requires
        0 <= place <= list.len(),
        0 <= at <= leading(list).len(),
        at < MAX_OCCLUDERS ==> place == at,
        at == MAX_OCCLUDERS ==> place >= at,
    ensures
        leading(list.insert(place, entry)) == {
            let longer = leading(list).insert(at, entry);
            if at == MAX_OCCLUDERS {
                leading(list)
            } else if longer.len() > MAX_OCCLUDERS {
                longer.drop_last()
            } else {
                longer
            }
        },
{
    let longer = leading(list).insert(at, entry);
    if at == MAX_OCCLUDERS {
        assert(leading(list.insert(place, entry)) =~= leading(list));
    } else if longer.len() > MAX_OCCLUDERS {
        assert(leading(list.insert(place, entry)) =~= longer.drop_last());
    } else {
        assert(leading(list.insert(place, entry)) =~= longer);
    }
}

/// The place of one more candidate in the ranking, where its place among the leading
/// entries is known.
proof fn lemma_leading_insert(
    list: Seq<(DrawOrder, Bounds<ScaledPixels>)>,
    quads: Seq<Quad>,
    indices: Seq<int>,
    i: int,
    at: int,
) -> (place: int)
    requires
        0 <= i < quads.len(),
        ranked(list, quads, indices, i),
        0 <= at <= leading(list).len(),
        forall|p: int|
            at <= p < leading(list).len() ==> ahead(quads, i, #[trigger] indices[p]),
        at > 0 ==> ahead(quads, indices[at - 1], i),
    ensures
        0 <= place <= indices.len(),
        forall|p: int| place <= p < indices.len() ==> ahead(quads, i, #[trigger] indices[p]),
        place > 0 ==> ahead(quads, indices[place - 1], i),
        at < MAX_OCCLUDERS ==> place == at,
        at == MAX_OCCLUDERS ==> place >= at,
{
    let n: int = leading(list).len() as int;
    if at < MAX_OCCLUDERS {
        assert forall|p: int| at <= p < indices.len() implies ahead(
            quads,
            i,
            #[trigger] indices[p],
        ) by {
            if p >= n {
                assert(ahead(quads, i, indices[at]));
                assert(ahead(quads, indices[at], indices[p]));
            }
        }
        at
    } else {
        let place: int = lemma_place(list, quads, indices, i, indices.len() as int);
        if place < at {
            assert(ahead(quads, i, indices[at - 1]));
        }
        place
    }
}

#[verifier::rlimit(30)]
proof fn lemma_ranked_insert(
    list: Seq<(DrawOrder, Bounds<ScaledPixels>)>,
    quads: Seq<Quad>,
    indices: Seq<int>,
    i: int,
    at: int,
)
    requires
        0 <= i < quads.len(),
        0 <= at <= indices.len(),
        candidate(quads[i]),
        ranked(list, quads, indices, i),
        forall|p: int| at <= p < indices.len() ==> ahead(quads, i, #[trigger] indices[p]),
        at > 0 ==> ahead(quads, indices[at - 1], i),
    ensures
        ranked(
            list.insert(at, (quads[i].order, quads[i].bounds)),
            quads,
            indices.insert(at, i),
            i + 1,
        ),
{
    let longer = indices.insert(at, i);
    assert forall|p: int, q: int| 0 <= p < q < longer.len() implies ahead(
        quads,
        #[trigger] longer[p],
        #[trigger] longer[q],
    ) by {
        if q == at {
            if p < at - 1 {
                assert(ahead(quads, indices[p], indices[at - 1]));
            }
        } else if p == at {
            assert(longer[q] == indices[q - 1]);
        } else {
            let a: int = if p < at {
                p
            } else {
                p - 1
            };
            let b: int = if q < at {
                q
            } else {
                q - 1
            };
            assert(ahead(quads, indices[a], indices[b]));
        }
    }
    assert forall|k: int| 0 <= k < i + 1 && candidate(#[trigger] quads[k]) implies longer.contains(
        k,
    ) by {
        if k == i {
            assert(longer[at] == i);
        } else {
            let p: int = choose|p: int| 0 <= p < indices.len() && indices[p] == k;
            let q: int = if p < at {
                p
            } else {
                p + 1
            };
            assert(longer[q] == k);
        }
    }
}

/// A candidate's place in the ranking is the number of candidates ahead of it.
proof fn lemma_ranked_occluders(
    list: Seq<(DrawOrder, Bounds<ScaledPixels>)>,
    quads: Seq<Quad>,
    indices: Seq<int>,
)
    requires
        ranked(list, quads, indices, quads.len() as int),
    ensures
        forall|p: int|
            0 <= p < indices.len() ==> #[trigger] occluder(quads, indices[p]) == (p
                < MAX_OCCLUDERS),
{
    assert forall|p: int| 0 <= p < indices.len() implies #[trigger] occluder(quads, indices[p]) == (p
        < MAX_OCCLUDERS) by {
        let first = indices.take(p);
        assert forall|j: int| ahead_of(quads, indices[p]).contains(j) implies first.to_set().contains(
            j,
        ) by {
            assert(candidate(quads[j]));
            let q: int = choose|q: int| 0 <= q < indices.len() && indices[q] == j;
            if q > p {
                assert(ahead(quads, indices[p], indices[q]));
            }
            assert(first[q] == j);
        }
        assert forall|j: int| first.to_set().contains(j) implies ahead_of(
            quads,
            indices[p],
        ).contains(j) by {
            let q: int = choose|q: int| 0 <= q < first.len() && first[q] == j;
            assert(ahead(quads, indices[q], indices[p]));
        }
        assert(ahead_of(quads, indices[p]) =~= first.to_set());
        assert forall|a: int, b: int| 0 <= a < b < first.len() implies first[a] != first[b] by {
            assert(ahead(quads, indices[a], indices[b]));
        }
        assert(first.no_duplicates());
        first.unique_seq_to_set();
    }
}

proof fn lemma_unhidden<T: Drawn>(
    occluders: Seq<(DrawOrder, Bounds<ScaledPixels>)>,
    quads: Seq<Quad>,
    list: Seq<T::V>,
)
    requires
        forall|order: DrawOrder, bounds: Bounds<ScaledPixels>|
            #![trigger covered(occluders, order, bounds)]
            #![trigger hidden(quads, order, bounds)]
            covered(occluders, order, bounds) == hidden(quads, order, bounds),
    ensures
        unhidden::<T>(quads, list) == list.filter(
            |item: T::V| !covered(occluders, T::order_of(item), visible::<T>(item)),
        ),
{
    let a = |item: T::V| !hidden(quads, T::order_of(item), visible::<T>(item));
    let b = |item: T::V| !covered(occluders, T::order_of(item), visible::<T>(item));
    assert(a =~= b);
}

/// Of the views of a list those stay whose items do.
proof fn lemma_uncovered_models<T: Drawn>(
    occluders: Seq<(DrawOrder, Bounds<ScaledPixels>)>,
    quads: Seq<Quad>,
    list: Seq<T>,
)
    requires
        forall|order: DrawOrder, bounds: Bounds<ScaledPixels>|
            #![trigger covered(occluders, order, bounds)]
            #![trigger hidden(quads, order, bounds)]
            covered(occluders, order, bounds) == hidden(quads, order, bounds),
    ensures
        models(uncovered(occluders, list)) == unhidden::<T>(quads, models(list)),
    decreases list.len(),
{
    lemma_unhidden::<T>(occluders, quads, models(list));
    reveal(Seq::filter);
    if list.len() == 0 {
        assert(models(uncovered(occluders, list)) =~= unhidden::<T>(quads, models(list)));
    } else {
        let rest = list.drop_last();
        lemma_uncovered_models(occluders, quads, rest);
        lemma_unhidden::<T>(occluders, quads, models(rest));
        assert(models(list).drop_last() =~= models(rest));
        let kept = uncovered(occluders, rest);
        assert(models(kept.push(list.last())) =~= models(kept).push(list.last()@));
    }
}

proof fn lemma_nothing_covered<T: Drawn>(
    occluders: Seq<(DrawOrder, Bounds<ScaledPixels>)>,
    quads: Seq<Quad>,
    list: Seq<T::V>,
)
    requires
        occluders.len() == 0,
        forall|order: DrawOrder, bounds: Bounds<ScaledPixels>|
            #![trigger covered(occluders, order, bounds)]
            #![trigger hidden(quads, order, bounds)]
            covered(occluders, order, bounds) == hidden(quads, order, bounds),
    ensures
        unhidden::<T>(quads, list) == list,
{
    lemma_unhidden::<T>(occluders, quads, list);
    let b = |item: T::V| !covered(occluders, T::order_of(item), visible::<T>(item));
    lemma_filter_everything(list, b);
}

proof fn lemma_filter_everything<V>(list: Seq<V>, pred: spec_fn(V) -> bool)
    requires
        forall|i: int| 0 <= i < list.len() ==> pred(#[trigger] list[i]),
    ensures
        list.filter(pred) == list,
    decreases list.len(),
{
    reveal(Seq::filter);
    if list.len() > 0 {
        let rest = list.drop_last();
        assert forall|i: int| 0 <= i < rest.len() implies pred(#[trigger] rest[i]) by {
            assert(rest[i] == list[i]);
        }
        lemma_filter_everything(rest, pred);
        assert(pred(list[list.len() - 1]));
        assert(rest.push(list.last()) =~= list);
    }
}

/// To test against two lists of occluders one after the other is to test against both
/// at once.
pub proof fn law_occluders_add_up<T: Drawn>(
    a: Seq<(DrawOrder, Bounds<ScaledPixels>)>,
    b: Seq<(DrawOrder, Bounds<ScaledPixels>)>,
    list: Seq<T>,
)
    ensures
        uncovered(a + b, list) == uncovered(b, uncovered(a, list)),
    decreases list.len(),
{
    reveal(Seq::filter);
    if list.len() > 0 {
        let item = list.last();
        let kept = uncovered(a, list.drop_last());
        law_occluders_add_up(a, b, list.drop_last());
        lemma_covered_by_either(a, b, T::order_of(item@), visible::<T>(item@));
        assert(kept.push(item).drop_last() =~= kept);
    } else {
        assert(uncovered(a + b, list) =~= uncovered(b, uncovered(a, list)));
    }
}

/// What stays does not depend on the order in which the occluders stand, nor on how
/// often one of them does.
pub proof fn law_occluder_order_is_free<T: Drawn>(
    a: Seq<(DrawOrder, Bounds<ScaledPixels>)>,
    b: Seq<(DrawOrder, Bounds<ScaledPixels>)>,
    list: Seq<T>,
)
    requires
        a.to_set() == b.to_set(),
    ensures
        uncovered(a, list) == uncovered(b, list),
{
    let with_a = |item: T| !covered(a, T::order_of(item@), visible::<T>(item@));
    let with_b = |item: T| !covered(b, T::order_of(item@), visible::<T>(item@));
    assert forall|order: DrawOrder, bounds: Bounds<ScaledPixels>| covered(a, order, bounds)
        == covered(b, order, bounds) by {
        if covered(a, order, bounds) {
            lemma_covered_within(a, b, order, bounds);
        }
        if covered(b, order, bounds) {
            lemma_covered_within(b, a, order, bounds);
        }
    }
    assert(with_a =~= with_b);
}

/// Without occluders everything stays.
pub proof fn law_no_occluders_keep_all<T: Drawn>(list: Seq<T>)
    ensures
        uncovered(Seq::empty(), list) == list,
{
    let none: Seq<(DrawOrder, Bounds<ScaledPixels>)> = Seq::empty();
    lemma_filter_everything(
        list,
        |item: T| !covered(none, T::order_of(item@), visible::<T>(item@)),
    );
}

proof fn lemma_covered_within(
    a: Seq<(DrawOrder, Bounds<ScaledPixels>)>,
    b: Seq<(DrawOrder, Bounds<ScaledPixels>)>,
    order: DrawOrder,
    bounds: Bounds<ScaledPixels>,
)
    requires
        a.to_set() == b.to_set(),
        covered(a, order, bounds),
    ensures
        covered(b, order, bounds),
{
    let p: int = choose|p: int|
        0 <= p < a.len() && (#[trigger] a[p]).0 > order && a[p].1.encloses(bounds);
    assert(a.to_set().contains(a[p]));
    assert(b.to_set().contains(a[p]));
    let q: int = choose|q: int| 0 <= q < b.len() && b[q] == a[p];
    assert(b[q].0 > order);
}

proof fn lemma_covered_by_either(
    a: Seq<(DrawOrder, Bounds<ScaledPixels>)>,
    b: Seq<(DrawOrder, Bounds<ScaledPixels>)>,
    order: DrawOrder,
    bounds: Bounds<ScaledPixels>,
)
    ensures
        covered(a + b, order, bounds) == (covered(a, order, bounds) || covered(b, order, bounds)),
{
    let both = a + b;
    if covered(both, order, bounds) {
        let p: int = choose|p: int|
            0 <= p < both.len() && (#[trigger] both[p]).0 > order && both[p].1.encloses(bounds);
        if p < a.len() {
            assert(a[p] == both[p]);
        } else {
            assert(b[p - a.len()] == both[p]);
        }
    }
    if covered(a, order, bounds) {
        let p: int = choose|p: int|
            0 <= p < a.len() && (#[trigger] a[p]).0 > order && a[p].1.encloses(bounds);
        assert(both[p] == a[p]);
    }
    if covered(b, order, bounds) {
        let p: int = choose|p: int|
            0 <= p < b.len() && (#[trigger] b[p]).0 > order && b[p].1.encloses(bounds);
        assert(both[a.len() + p] == b[p]);
    }
}

impl Quad {
    /// Whether rounding leaves the far sides in place when the quad is clipped.
    pub open spec fn clips_soundly(self) -> bool {
        let clipped = self.bounds.clipped(self.content_mask.bounds);
        &&& survives(clipped.left(), self.bounds.right())
        &&& survives(clipped.top(), self.bounds.bottom())
    }
}

/// Something is hidden exactly where one of the occluders has a higher order and contains
/// it: more of them together hide no more than each does alone.
pub proof fn law_hidden_means_one_occluder_contains_it(
    quads: Seq<Quad>,
    order: DrawOrder,
    bounds: Bounds<ScaledPixels>,
)
    ensures
        hidden(quads, order, bounds) <==> exists|i: int| #[trigger]
            occluders_of(quads).contains(i) && quads[i].order > order
                && quads[i].bounds.encloses(bounds),
{
    if hidden(quads, order, bounds) {
        let i: int = choose|i: int| #[trigger]
            occluder(quads, i) && quads[i].order > order && quads[i].bounds.encloses(bounds);
        assert(occluders_of(quads).contains(i));
    }
    if exists|i: int| #[trigger]
        occluders_of(quads).contains(i) && quads[i].order > order && quads[i].bounds.encloses(
            bounds,
        ) {
        let i: int = choose|i: int| #[trigger]
            occluders_of(quads).contains(i) && quads[i].order > order
                && quads[i].bounds.encloses(bounds);
        assert(occluder(quads, i));
    }
}

/// A primitive is removed exactly where a single occluder, drawn strictly later, covers
/// all of it that is visible; nothing else is removed.
pub proof fn law_cull_removes_only_hidden<T: Drawn>(quads: Seq<Quad>, list: Seq<T::V>, item: T::V)
    ensures
        unhidden::<T>(quads, list).contains(item) <==> (list.contains(item) && !hidden(
            quads,
            T::order_of(item),
            visible::<T>(item),
        )),
{
    let pred = |item: T::V| !hidden(quads, T::order_of(item), visible::<T>(item));
    list.filter_lemma(pred);
    if list.filter(pred).contains(item) {
        list.lemma_filter_contains_rev(pred, item);
        let i: int = choose|i: int|
            0 <= i < list.filter(pred).len() && list.filter(pred)[i] == item;
        assert(pred(list.filter(pred)[i]));
    }
}

/// What is removed stays hidden: the scene keeps an opaque quad, drawn later, that
/// covers it.
pub proof fn law_removed_stays_covered(
    quads: Seq<Quad>,
    order: DrawOrder,
    bounds: Bounds<ScaledPixels>,
) -> (cover: Quad)
    requires
        hidden(quads, order, bounds),
        forall|i: int| occluder(quads, i) ==> (#[trigger] quads[i]).clips_soundly(),
    ensures
        unhidden::<Quad>(quads, quads).contains(cover),
        cover.hides(),
        cover.order > order,
        cover.bounds.encloses(bounds),
    decreases DrawOrder::MAX - order,
{
    let i: int = choose|i: int| #[trigger]
        occluder(quads, i) && quads[i].order > order && quads[i].bounds.encloses(bounds);
    let quad = quads[i];
    let clipped = visible::<Quad>(quad);
    if hidden(quads, quad.order, clipped) {
        let cover = law_removed_stays_covered(quads, quad.order, clipped);
        lemma_clip_keeps_sides(cover.bounds, quad);
        law_encloses_is_transitive(cover.bounds, quad.bounds, bounds);
        cover
    } else {
        law_cull_removes_only_hidden::<Quad>(quads, quads, quad);
        assert(quads.contains(quads[i]));
        quad
    }
}

/// Wherever a removed primitive would be visible, the scene that is kept has an opaque
/// quad painted over it.
pub proof fn law_removed_is_painted_over<T: Drawn>(
    scene: SceneModel,
    item: T::V,
    at: Point<ScaledPixels>,
) -> (cover: Quad)
    requires
        hidden(scene.quads, T::order_of(item), visible::<T>(item)),
        visible::<T>(item).holds(at),
        forall|i: int| occluder(scene.quads, i) ==> (#[trigger] scene.quads[i]).clips_soundly(),
    ensures
        scene.culled().quads.contains(cover),
        cover.hides(),
        cover.order > T::order_of(item),
        cover.bounds.holds(at),
{
    let cover = law_removed_stays_covered(scene.quads, T::order_of(item), visible::<T>(item));
    law_encloses_keeps_inside(cover.bounds, visible::<T>(item), at);
    cover
}

/// On a grid that the significand can hold no condition is left: what is removed stays
/// hidden by an opaque quad that is kept.
pub proof fn law_grid_removed_stays_covered(
    quads: Seq<Quad>,
    order: DrawOrder,
    bounds: Bounds<ScaledPixels>,
    k: nat,
) -> (cover: Quad)
    requires
        k <= 252,
        hidden(quads, order, bounds),
        forall|i: int| 0 <= i < quads.len() ==> (#[trigger] quads[i]).bounds.aligned(k),
        forall|i: int|
            0 <= i < quads.len() ==> (#[trigger] quads[i]).content_mask.bounds.aligned(k),
    ensures
        unhidden::<Quad>(quads, quads).contains(cover),
        cover.hides(),
        cover.order > order,
        cover.bounds.encloses(bounds),
{
    assert forall|i: int| occluder(quads, i) implies (#[trigger] quads[i]).clips_soundly() by {
        let quad = quads[i];
        let mask = quad.content_mask.bounds;
        law_grid_side_survives(
            far(quad.bounds.left(), mask.left()),
            quad.bounds.right(),
            k,
        );
        law_grid_side_survives(
            far(quad.bounds.top(), mask.top()),
            quad.bounds.bottom(),
            k,
        );
    }
    law_removed_stays_covered(quads, order, bounds)
}

/// What covers the visible part of an occluder covers all of it.
proof fn lemma_clip_keeps_sides(outer: Bounds<ScaledPixels>, quad: Quad)
    requires
        quad.hides(),
        quad.clips_soundly(),
        outer.encloses(visible::<Quad>(quad)),
    ensures
        outer.encloses(quad.bounds),
{
}

/// The occluders are the largest candidates.
pub proof fn law_occluders_are_largest(quads: Seq<Quad>, i: int, j: int)
    requires
        occluder(quads, i),
        0 <= j < quads.len(),
        candidate(quads[j]),
        !occluder(quads, j),
    ensures
        quads[i].bounds.area_of().rank() >= quads[j].bounds.area_of().rank(),
{
    if quads[i].bounds.area_of().rank() < quads[j].bounds.area_of().rank() {
        let (list, indices) = lemma_ranking(quads, quads.len() as int);
        lemma_ranked_occluders(list, quads, indices);
        let p: int = choose|p: int| 0 <= p < indices.len() && indices[p] == i;
        let q: int = choose|q: int| 0 <= q < indices.len() && indices[q] == j;
        assert(occluder(quads, indices[p]));
        assert(!occluder(quads, indices[q]));
        assert(ahead(quads, indices[p], indices[q]));
    }
}

/// A quad may hide others exactly where it is opaque and its area, as single precision
/// holds it, is 128 times 128 or more.
pub proof fn law_candidates_are_large_and_opaque(quad: Quad)
    ensures
        candidate(quad) <==> quad.hides() && Single::at_most(
            Single::whole(16384),
            Single::product(quad.bounds.size.width.0, quad.bounds.size.height.0),
        ),
{
    lemma_whole_16384();
}

/// Where the quads stand that are opaque and large enough.
pub open spec fn candidates(quads: Seq<Quad>) -> Set<int> {
    Set::new(|i: int| 0 <= i < quads.len() && candidate(quads[i]))
}

/// Where the occluders stand.
pub open spec fn occluders_of(quads: Seq<Quad>) -> Set<int> {
    Set::new(|i: int| occluder(quads, i))
}

/// There are as many occluders as candidates, up to the maximum number, which is sixteen.
pub proof fn law_occluders_are_capped(quads: Seq<Quad>)
    ensures
        candidates(quads).finite(),
        occluders_of(quads).finite(),
        occluders_of(quads).subset_of(candidates(quads)),
        candidates(quads).len() <= 16 ==> occluders_of(quads) == candidates(quads),
        candidates(quads).len() > 16 ==> occluders_of(quads).len() == 16,
        candidates(quads).len() <= MAX_OCCLUDERS ==> occluders_of(quads) == candidates(quads),
        candidates(quads).len() > MAX_OCCLUDERS ==> occluders_of(quads).len() == MAX_OCCLUDERS,
{
    let (list, indices) = lemma_ranking(quads, quads.len() as int);
    lemma_ranked_occluders(list, quads, indices);
    let n: int = if indices.len() < MAX_OCCLUDERS {
        indices.len() as int
    } else {
        MAX_OCCLUDERS as int
    };
    let first = indices.take(n);
    assert forall|i: int| #[trigger] occluder(quads, i) implies first.to_set().contains(i) by {
        assert(candidate(quads[i]));
        let p: int = choose|p: int| 0 <= p < indices.len() && indices[p] == i;
        assert(occluder(quads, indices[p]));
        assert(first[p] == i);
    }
    assert forall|i: int| first.to_set().contains(i) implies #[trigger] occluder(quads, i) by {
        let p: int = choose|p: int| 0 <= p < first.len() && first[p] == i;
        assert(occluder(quads, indices[p]));
    }
    assert(occluders_of(quads) =~= first.to_set());
    assert(candidates(quads) =~= indices.to_set());
    assert forall|a: int, b: int| 0 <= a < b < indices.len() implies indices[a] != indices[b] by {
        assert(ahead(quads, indices[a], indices[b]));
    }
    assert(indices.no_duplicates());
    indices.unique_seq_to_set();
    first.unique_seq_to_set();
    vstd::seq_lib::seq_to_set_is_finite(indices);
    vstd::seq_lib::seq_to_set_is_finite(first);
    if candidates(quads).len() <= MAX_OCCLUDERS {
        assert(first =~= indices);
    }
}

/// As long as every candidate is an occluder, culling a second time changes nothing.
pub proof fn law_culling_again_changes_nothing(scene: SceneModel)
    requires
        candidates(scene.quads).len() <= MAX_OCCLUDERS,
    ensures
        scene.culled().culled() == scene.culled(),
{
    let kept = scene.culled().quads;
    law_occluders_are_capped(scene.quads);
    assert forall|order: DrawOrder, bounds: Bounds<ScaledPixels>| #[trigger]
        hidden(kept, order, bounds) implies hidden(scene.quads, order, bounds) by {
        let i: int = choose|i: int| #[trigger]
            occluder(kept, i) && kept[i].order > order && kept[i].bounds.encloses(bounds);
        assert(kept.contains(kept[i]));
        law_cull_removes_only_hidden::<Quad>(scene.quads, scene.quads, kept[i]);
        let j: int = choose|j: int| 0 <= j < scene.quads.len() && scene.quads[j] == kept[i];
        assert(candidates(scene.quads).contains(j));
        assert(occluders_of(scene.quads).contains(j));
        assert(occluder(scene.quads, j));
    }
    lemma_nothing_more::<Quad>(scene.quads, kept, scene.quads);
    lemma_nothing_more::<Shadow>(scene.quads, kept, scene.shadows);
    lemma_nothing_more::<Underline>(scene.quads, kept, scene.underlines);
    lemma_nothing_more::<MonochromeSprite>(scene.quads, kept, scene.monochrome_sprites);
    lemma_nothing_more::<SubpixelSprite>(scene.quads, kept, scene.subpixel_sprites);
    lemma_nothing_more::<PolychromeSprite>(scene.quads, kept, scene.polychrome_sprites);
    lemma_nothing_more::<Path<ScaledPixels>>(scene.quads, kept, scene.paths);
    lemma_nothing_more::<PaintSurface>(scene.quads, kept, scene.surfaces);
}

proof fn lemma_nothing_more<T: Drawn>(quads: Seq<Quad>, kept: Seq<Quad>, list: Seq<T::V>)
    requires
        forall|order: DrawOrder, bounds: Bounds<ScaledPixels>| #[trigger]
            hidden(kept, order, bounds) ==> hidden(quads, order, bounds),
    ensures
        unhidden::<T>(kept, unhidden::<T>(quads, list)) == unhidden::<T>(quads, list),
{
    let left = unhidden::<T>(quads, list);
    let pred = |item: T::V| !hidden(kept, T::order_of(item), visible::<T>(item));
    assert forall|i: int| 0 <= i < left.len() implies pred(#[trigger] left[i]) by {
        assert(left.contains(left[i]));
        law_cull_removes_only_hidden::<T>(quads, list, left[i]);
    }
    lemma_filter_everything(left, pred);
}

/// Culling leaves the highest draw order as it is: what is drawn last is never hidden.
pub proof fn law_cull_keeps_highest_order(scene: SceneModel, order: DrawOrder)
    requires
        scene.highest(order),
    ensures
        scene.culled().highest(order),
{
    assert forall|bounds: Bounds<ScaledPixels>| !#[trigger] hidden(
        scene.quads,
        order,
        bounds,
    ) by {
        if hidden(scene.quads, order, bounds) {
            let i: int = choose|i: int| #[trigger]
                occluder(scene.quads, i) && scene.quads[i].order > order
                    && scene.quads[i].bounds.encloses(bounds);
            assert(Quad::order_of(scene.quads[i]) <= order);
        }
    }
    lemma_highest_stays::<Quad>(scene.quads, scene.quads, order);
    lemma_highest_stays::<Shadow>(scene.quads, scene.shadows, order);
    lemma_highest_stays::<Underline>(scene.quads, scene.underlines, order);
    lemma_highest_stays::<MonochromeSprite>(scene.quads, scene.monochrome_sprites, order);
    lemma_highest_stays::<SubpixelSprite>(scene.quads, scene.subpixel_sprites, order);
    lemma_highest_stays::<PolychromeSprite>(scene.quads, scene.polychrome_sprites, order);
    lemma_highest_stays::<Path<ScaledPixels>>(scene.quads, scene.paths, order);
    lemma_highest_stays::<PaintSurface>(scene.quads, scene.surfaces, order);
}

proof fn lemma_highest_stays<T: Drawn>(quads: Seq<Quad>, list: Seq<T::V>, order: DrawOrder)
    requires
        all_up_to::<T>(list, order),
        forall|bounds: Bounds<ScaledPixels>| !#[trigger] hidden(quads, order, bounds),
    ensures
        all_up_to::<T>(unhidden::<T>(quads, list), order),
        some_at::<T>(list, order) ==> some_at::<T>(unhidden::<T>(quads, list), order),
        list.len() == 0 ==> unhidden::<T>(quads, list).len() == 0,
{
    let kept = unhidden::<T>(quads, list);
    assert forall|i: int| 0 <= i < kept.len() implies T::order_of(#[trigger] kept[i])
        <= order by {
        assert(kept.contains(kept[i]));
        law_cull_removes_only_hidden::<T>(quads, list, kept[i]);
        let j: int = choose|j: int| 0 <= j < list.len() && list[j] == kept[i];
        assert(T::order_of(list[j]) <= order);
    }
    if some_at::<T>(list, order) {
        let i: int = choose|i: int|
            0 <= i < list.len() && T::order_of(#[trigger] list[i]) == order;
        assert(list.contains(list[i]));
        law_cull_removes_only_hidden::<T>(quads, list, list[i]);
        let j: int = choose|j: int| 0 <= j < kept.len() && kept[j] == list[i];
        assert(T::order_of(kept[j]) == order);
    }
    if list.len() == 0 {
        reveal(Seq::filter);
    }
}

/// The candidates can be ranked.
proof fn lemma_ranking(quads: Seq<Quad>, n: int) -> (ranking: (
    Seq<(DrawOrder, Bounds<ScaledPixels>)>,
    Seq<int>,
))
    requires
        0 <= n <= quads.len(),
    ensures
        ranked(ranking.0, quads, ranking.1, n),
    decreases n,
{
    if n == 0 {
        (Seq::empty(), Seq::empty())
    } else {
        let i: int = n - 1;
        let (list, indices) = lemma_ranking(quads, i);
        if candidate(quads[i]) {
            let at: int = lemma_place(list, quads, indices, i, indices.len() as int);
            lemma_ranked_insert(list, quads, indices, i, at);
            (list.insert(at, (quads[i].order, quads[i].bounds)), indices.insert(at, i))
        } else {
            (list, indices)
        }
    }
}

/// There is a place for one more candidate.
proof fn lemma_place(
    list: Seq<(DrawOrder, Bounds<ScaledPixels>)>,
    quads: Seq<Quad>,
    indices: Seq<int>,
    i: int,
    from: int,
) -> (at: int)
    requires
        0 <= from <= indices.len(),
        ranked(list, quads, indices, i),
        forall|p: int| from <= p < indices.len() ==> ahead(quads, i, #[trigger] indices[p]),
    ensures
        0 <= at <= indices.len(),
        forall|p: int| at <= p < indices.len() ==> ahead(quads, i, #[trigger] indices[p]),
        at > 0 ==> ahead(quads, indices[at - 1], i),
    decreases from,
{
    if from > 0 && !ahead(quads, indices[from - 1], i) {
        lemma_place(list, quads, indices, i, from - 1)
    } else {
        from
    }
}

} // verus!
