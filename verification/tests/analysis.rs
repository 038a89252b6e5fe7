use scene_analysis::damage::{diff_paths, diff_primitives, diff_with, union_into, SceneDamage};
use scene_analysis::depth::is_opaque_quad;
use scene_analysis::geometry::{covers, Bounds, ContentMask, Point, ScaledPixels, Size};
use scene_analysis::occlusion::{retain_visible, MAX_OCCLUDERS, MIN_OCCLUDER_AREA};
use scene_analysis::scene::{
    Background, BackgroundTag, Drawn, Hsla, MonochromeSprite, PaintSurface, Path, PathVertex,
    PolychromeSprite, Primitive, Quad, Scene, Shadow, SubpixelSprite, Underline,
};
use scene_analysis::single::Single;
use scene_analysis::transform::{transformed_bounds, RotationScale, TransformationMatrix};

fn single(value: f32) -> Single {
    Single { bits: value.to_bits() }
}

fn px(value: f32) -> ScaledPixels {
    ScaledPixels(single(value))
}

fn rect(x: f32, y: f32, w: f32, h: f32) -> Bounds<ScaledPixels> {
    Bounds {
        origin: Point { x: px(x), y: px(y) },
        size: Size { width: px(w), height: px(h) },
    }
}

fn mask() -> ContentMask<ScaledPixels> {
    ContentMask { bounds: rect(0., 0., 1000., 1000.) }
}

fn solid(lightness: f32, alpha: f32) -> Background {
    Hsla {
        h: single(0.),
        s: single(0.),
        l: single(lightness),
        a: single(alpha),
    }
    .into()
}

fn quad(order: u32, bounds: Bounds<ScaledPixels>) -> Quad {
    Quad {
        order,
        bounds,
        content_mask: mask(),
        background: solid(0.5, 1.),
        ..Default::default()
    }
}

fn quarter_turn() -> TransformationMatrix {
    TransformationMatrix {
        rotation_scale: RotationScale {
            m00: single(0.),
            m01: single(1.),
            m10: single(-1.),
            m11: single(0.),
        },
        translation: Point { x: single(100.), y: single(0.) },
    }
}

fn identity() -> TransformationMatrix {
    TransformationMatrix {
        rotation_scale: RotationScale {
            m00: single(1.),
            m01: single(0.),
            m10: single(0.),
            m11: single(1.),
        },
        translation: Point { x: single(0.), y: single(0.) },
    }
}

fn expect_rect(damage: SceneDamage, want: Bounds<ScaledPixels>) {
    match damage {
        SceneDamage::Rect(got) => assert_eq!(got, want),
        other => panic!("expected rect damage, got {other:?}"),
    }
}

fn expect_unchanged(damage: SceneDamage) {
    assert!(matches!(damage, SceneDamage::Unchanged), "got {damage:?}");
}

/// A scene with one primitive of each kind, all at draw order 1.
fn one_of_each() -> Scene {
    let mut scene = Scene::default();
    let bounds = rect(10., 10., 20., 20.);
    scene.quads.push(quad(1, bounds));
    scene.shadows.push(Shadow {
        order: 1,
        blur_radius: px(2.),
        bounds,
        content_mask: mask(),
        ..Default::default()
    });
    scene.paths.push(Path {
        order: 1,
        bounds,
        content_mask: mask(),
        vertices: vec![PathVertex::default()],
        color: solid(0.5, 1.),
    });
    scene.underlines.push(Underline {
        order: 1,
        bounds,
        content_mask: mask(),
        ..Default::default()
    });
    scene.monochrome_sprites.push(MonochromeSprite {
        order: 1,
        bounds,
        content_mask: mask(),
        transformation: identity(),
        ..Default::default()
    });
    scene.subpixel_sprites.push(SubpixelSprite {
        order: 1,
        bounds,
        content_mask: mask(),
        transformation: identity(),
        ..Default::default()
    });
    scene.polychrome_sprites.push(PolychromeSprite {
        order: 1,
        bounds,
        content_mask: mask(),
        ..Default::default()
    });
    scene.surfaces.push(PaintSurface {
        order: 1,
        bounds,
        content_mask: mask(),
        image_buffer: 7,
    });
    scene
}

#[test]
fn union_intersection_and_dilation_of_rectangles() {
    let a = rect(0., 0., 10., 10.);
    let b = rect(5., -5., 10., 8.);
    assert_eq!(a.union(&b), rect(0., -5., 15., 15.));
    assert_eq!(a.intersect(&b), rect(5., 0., 5., 3.));
    assert_eq!(a.dilate(px(2.5)), rect(-2.5, -2.5, 15., 15.));
    assert_eq!(a.bottom_right(), Point { x: px(10.), y: px(10.) });
    assert_eq!(b.area(), single(80.));
    assert!(a.intersects(&b));
    assert!(!a.intersects(&rect(10., 0., 5., 5.)));
    assert!(!a.is_empty());
    assert!(a.intersect(&rect(10., 0., 5., 5.)).is_empty());
}

#[test]
fn covering_reaches_every_side() {
    let outer = rect(0., 0., 10., 10.);
    assert!(covers(&outer, &outer));
    assert!(covers(&outer, &rect(1., 2., 9., 8.)));
    assert!(!covers(&outer, &rect(-1., 0., 5., 5.)));
    assert!(!covers(&outer, &rect(0., -1., 5., 5.)));
    assert!(!covers(&outer, &rect(6., 0., 5., 5.)));
    assert!(!covers(&outer, &rect(0., 6., 5., 5.)));
    assert!(!covers(&outer, &rect(f32::NAN, 0., 5., 5.)));
}

#[test]
fn union_covers_both_on_the_pixel_grid() {
    let a = rect(-4000000., 0.5, 1., 1.);
    let b = rect(4000000., -8.25, 1., 100.);
    let both = a.union(&b);
    assert!(covers(&both, &a) && covers(&both, &b));
}

#[test]
fn union_loses_a_far_side_that_rounding_takes() {
    let a = rect(-100000000., 0., 1., 1.);
    let b = rect(0., 0., 1., 1.);
    assert!(!covers(&a.union(&b), &b));
}

#[test]
fn rotated_bounds_reach_the_full_extent() {
    let moved = transformed_bounds(rect(10., 20., 30., 40.), &quarter_turn());
    assert_eq!(moved, rect(40., 10., 40., 30.));
    let same = transformed_bounds(rect(10., 20., 30., 40.), &identity());
    assert_eq!(same, rect(10., 20., 30., 40.));
}

#[test]
fn every_position_of_a_rotated_sprite_stays_inside() {
    let bounds = rect(10., 20., 30., 40.);
    for step in 0..24 {
        let angle = step as f32 * 0.2617994;
        let (m00, m01, m10, m11) = (angle.cos(), angle.sin(), -angle.sin(), angle.cos());
        let turned = TransformationMatrix {
            rotation_scale: RotationScale {
                m00: single(m00),
                m01: single(m01),
                m10: single(m10),
                m11: single(m11),
            },
            translation: Point { x: single(100.), y: single(50.) },
        };
        let around = transformed_bounds(bounds, &turned);
        let corner = around.bottom_right();
        for i in 0..31 {
            for j in 0..41 {
                let (x, y) = (10. + i as f32, 20. + j as f32);
                let moved_x = single(m00 * x + m10 * y + 100.);
                let moved_y = single(m01 * x + m11 * y + 50.);
                // The far sides are stored as an extent, which rounds by a last place.
                let slack = single(0.0001);
                assert!(around.origin.x.0.le(moved_x) && moved_x.le(corner.x.0.plus(slack)));
                assert!(around.origin.y.0.le(moved_y) && moved_y.le(corner.y.0.plus(slack)));
            }
        }
    }
}

#[test]
fn translation_moves_transformed_bounds() {
    let bounds = rect(10., 20., 30., 40.);
    let still = transformed_bounds(bounds, &quarter_turn());
    let mut further = quarter_turn();
    further.translation = Point { x: single(107.5), y: single(-3.25) };
    let moved = transformed_bounds(bounds, &further);
    assert_eq!(still, rect(40., 10., 40., 30.));
    assert_eq!(moved, rect(47.5, 6.75, 40., 30.));
    assert_eq!(moved.size, still.size);
}

#[test]
fn identity_gives_bounds_back() {
    for bounds in [
        rect(0., 0., 0., 0.),
        rect(10.5, -20.25, 30., 40.125),
        rect(-8., -4., 8., 4.),
    ] {
        assert_eq!(transformed_bounds(bounds, &identity()), bounds);
    }
    // A negative zero comes back as the positive one.
    assert_eq!(transformed_bounds(rect(-0., 1., 2., 3.), &identity()), rect(0., 1., 2., 3.));
}

#[test]
fn mirrored_and_scaled_pixels_are_exact() {
    let mut mirror = identity();
    mirror.rotation_scale.m00 = single(-2.);
    mirror.rotation_scale.m11 = single(3.);
    mirror.translation = Point { x: single(5.), y: single(-1.) };
    let moved = transformed_bounds(rect(0., 2., 10., 4.), &mirror);
    assert_eq!(moved, rect(-15., 5., 20., 12.));
}

#[test]
fn bounds_moved_to_no_number_are_inside_out() {
    let mut nowhere = identity();
    nowhere.translation.x = single(f32::NAN);
    let moved = transformed_bounds(rect(0., 0., 1., 1.), &nowhere);
    assert_eq!(moved.origin.x, px(f32::MAX));
    assert_eq!(moved.size.width, px(f32::NEG_INFINITY));
    assert_eq!(moved.origin.y, px(0.));
    assert_eq!(moved.size.height, px(1.));
}

#[test]
fn scenes_with_every_kind_are_unchanged_when_alike() {
    expect_unchanged(SceneDamage::between(&one_of_each(), &one_of_each()));
    expect_unchanged(SceneDamage::between(&Scene::default(), &Scene::default()));
}

#[test]
fn each_kind_is_compared() {
    let before = one_of_each();
    let own = rect(10., 10., 20., 20.);

    let mut after = one_of_each();
    after.quads[0].border_color.l = single(0.25);
    expect_rect(SceneDamage::between(&before, &after), own);

    let mut after = one_of_each();
    after.shadows[0].color.l = single(0.25);
    expect_rect(SceneDamage::between(&before, &after), rect(4., 4., 32., 32.));

    let mut after = one_of_each();
    after.underlines[0].wavy = true;
    expect_rect(SceneDamage::between(&before, &after), own);

    let mut after = one_of_each();
    after.monochrome_sprites[0].transformation = quarter_turn();
    expect_rect(SceneDamage::between(&before, &after), rect(10., 10., 80., 20.));

    let mut after = one_of_each();
    after.subpixel_sprites[0].tile.padding = 1;
    expect_rect(SceneDamage::between(&before, &after), own);

    let mut after = one_of_each();
    after.polychrome_sprites[0].grayscale = true;
    expect_rect(SceneDamage::between(&before, &after), own);

    let mut after = one_of_each();
    after.surfaces[0].image_buffer = 8;
    expect_rect(SceneDamage::between(&before, &after), own);
}

#[test]
fn everything_of_a_path_is_compared() {
    let before = one_of_each();
    let own = rect(10., 10., 20., 20.);

    let mut after = one_of_each();
    after.paths[0].order = 2;
    expect_rect(SceneDamage::between(&before, &after), own);

    let mut after = one_of_each();
    after.paths[0].color = solid(0.25, 1.);
    expect_rect(SceneDamage::between(&before, &after), own);

    let mut after = one_of_each();
    after.paths[0].content_mask.bounds = rect(0., 0., 15., 15.);
    expect_rect(SceneDamage::between(&before, &after), own);

    let mut after = one_of_each();
    after.paths[0].vertices[0].st_position.x = single(1.);
    expect_rect(SceneDamage::between(&before, &after), own);

    let mut after = one_of_each();
    after.paths[0].vertices.push(PathVertex::default());
    expect_rect(SceneDamage::between(&before, &after), own);

    let mut after = one_of_each();
    after.paths[0].bounds = rect(10., 10., 25., 20.);
    expect_rect(SceneDamage::between(&before, &after), rect(10., 10., 25., 20.));
}

#[test]
fn comparison_is_bit_for_bit() {
    let before = one_of_each();
    let mut after = one_of_each();
    after.quads[0].border_color.h = single(-0.0);
    expect_rect(SceneDamage::between(&before, &after), rect(10., 10., 20., 20.));

    let mut a = one_of_each();
    let mut b = one_of_each();
    a.quads[0].border_color.h = single(f32::NAN);
    b.quads[0].border_color.h = single(f32::NAN);
    expect_unchanged(SceneDamage::between(&a, &b));
}

#[test]
fn distant_changes_are_gathered() {
    let mut before = Scene::default();
    let mut after = Scene::default();
    before.quads.push(quad(1, rect(0., 0., 10., 10.)));
    before.quads.push(quad(2, rect(300., 300., 10., 10.)));
    before.quads.push(quad(3, rect(100., 50., 10., 10.)));
    after.quads.push(quad(1, rect(0., 0., 20., 10.)));
    after.quads.push(quad(2, rect(300., 300., 10., 10.)));
    after.quads.push(quad(3, rect(100., 50., 10., 20.)));
    // The quad in the middle is the same, but lies within the window.
    expect_rect(SceneDamage::between(&before, &after), rect(0., 0., 310., 310.));
}

#[test]
fn an_item_repeated_is_still_isolated() {
    let a = quad(1, rect(0., 0., 10., 10.));
    let b = quad(1, rect(50., 0., 10., 10.));
    let mut without = Scene::default();
    let mut with = Scene::default();
    without.quads = vec![a, b, b];
    with.quads = vec![a, b, b, b];
    expect_rect(SceneDamage::between(&without, &with), rect(50., 0., 10., 10.));
    expect_rect(SceneDamage::between(&with, &without), rect(50., 0., 10., 10.));
}

#[test]
fn differing_windows_grow_what_was_gathered() {
    let a = quad(1, rect(0., 0., 10., 10.));
    let b = quad(1, rect(50., 0., 10., 10.));
    let c = quad(1, rect(90., 0., 10., 10.));
    let mut region = None;
    diff_with(&[a, c], &[a, c], &mut region);
    assert_eq!(region, None);
    diff_with(&[a, c], &[a, b, c], &mut region);
    assert_eq!(region, Some(rect(50., 0., 10., 10.)));
    union_into(&mut region, rect(0., 5., 1., 10.));
    assert_eq!(region, Some(rect(0., 0., 60., 15.)));
    diff_primitives(&[a, b, c], &[a, b], &mut region);
    assert_eq!(region, Some(rect(0., 0., 100., 15.)));
    let paths = one_of_each().paths;
    diff_paths(&paths, &[], &mut region);
    assert_eq!(region, Some(rect(0., 0., 100., 30.)));
}

/// What every primitive of a scene paints, the kind and the primitive as text beside it.
fn extents(scene: &Scene) -> Vec<(String, Bounds<ScaledPixels>)> {
    let mut all = Vec::new();
    all.extend(scene.quads.iter().map(|item| (format!("{item:?}"), item.painted_bounds())));
    all.extend(scene.shadows.iter().map(|item| (format!("{item:?}"), item.painted_bounds())));
    all.extend(scene.underlines.iter().map(|item| (format!("{item:?}"), item.painted_bounds())));
    all.extend(
        scene.monochrome_sprites.iter().map(|item| (format!("{item:?}"), item.painted_bounds())),
    );
    all.extend(
        scene.subpixel_sprites.iter().map(|item| (format!("{item:?}"), item.painted_bounds())),
    );
    all.extend(
        scene.polychrome_sprites.iter().map(|item| (format!("{item:?}"), item.painted_bounds())),
    );
    all.extend(scene.paths.iter().map(|item| (format!("{item:?}"), item.painted_bounds())));
    all.extend(scene.surfaces.iter().map(|item| (format!("{item:?}"), item.painted_bounds())));
    all
}

/// A scene with quads, shadows, underlines and turned sprites on a grid.
fn scattered_scene(state: &mut u32) -> Scene {
    let mut scene = Scene::default();
    scene.quads = scattered_quads(state, 3);
    for quad in scattered_quads(state, 3) {
        scene.shadows.push(Shadow {
            order: quad.order,
            blur_radius: px(draw(state, 5) as f32),
            bounds: quad.bounds,
            ..Default::default()
        });
        scene.underlines.push(Underline { bounds: quad.bounds, ..Default::default() });
        scene.monochrome_sprites.push(MonochromeSprite {
            bounds: quad.bounds,
            transformation: quarter_turn(),
            ..Default::default()
        });
    }
    scene
}

fn covered_by(damage: SceneDamage, bounds: &Bounds<ScaledPixels>) -> bool {
    match damage {
        SceneDamage::Full => true,
        SceneDamage::Rect(outer) => covers(&outer, bounds),
        SceneDamage::Unchanged => false,
    }
}

/// The extents of the primitives that only one of two scenes has.
fn differing(a: &Scene, b: &Scene) -> Vec<Bounds<ScaledPixels>> {
    let (mine, theirs) = (extents(a), extents(b));
    let mut found = Vec::new();
    for (item, bounds) in mine.iter() {
        if !theirs.iter().any(|(other, _)| other == item) {
            found.push(*bounds);
        }
    }
    for (item, bounds) in theirs.iter() {
        if !mine.iter().any(|(other, _)| other == item) {
            found.push(*bounds);
        }
    }
    found
}

#[test]
fn damage_covers_every_differing_primitive() {
    let mut state: u32 = 71;
    for _ in 0..40 {
        let a = scattered_scene(&mut state);
        let mut b = a.clone();
        b.shadows[1].blur_radius = px(9.);
        b.monochrome_sprites.remove(draw(&mut state, 3) as usize);
        let mut c = b.clone();
        c.quads.push(scattered_quads(&mut state, 1)[0]);
        let first = SceneDamage::between(&a, &b);
        let second = SceneDamage::between(&b, &c);
        let changed = differing(&a, &b);
        assert!(changed.len() >= 2);
        assert!(changed.iter().all(|bounds| covered_by(first, bounds)));
        let union = first.union(second);
        let changed = differing(&a, &c);
        assert!(changed.len() >= 3);
        assert!(changed.iter().all(|bounds| covered_by(union, bounds)));
        assert!(!covered_by(SceneDamage::Unchanged, &changed[0]));
    }
}

#[test]
fn damage_is_no_larger_than_the_changes() {
    let mut before = one_of_each();
    before.quads.push(quad(1, rect(500., 500., 50., 50.)));
    let mut after = before.clone();
    after.quads.insert(0, quad(3, rect(40., 7., 10., 10.)));
    after.shadows[0].bounds = rect(20., 30., 10., 10.);
    // The shadow's blur of 2 reaches out by 6.
    let want = rect(4., 4., 46., 42.);
    expect_rect(SceneDamage::between(&before, &after), want);
    expect_rect(SceneDamage::between(&after, &before), want);
    expect_unchanged(SceneDamage::between(&after, &after));
}

#[test]
fn a_region_without_sides_leaves_the_others() {
    let mut before = Scene::default();
    before.quads.push(quad(1, rect(f32::NAN, 0., 10., 10.)));
    let mut after = Scene::default();
    after.quads.push(quad(1, rect(30., 40., 10., 10.)));
    let damage = SceneDamage::between(&before, &after);
    assert!(covered_by(damage, &rect(30., 40., 10., 10.)));
}

#[test]
fn damage_united_with_itself_stays() {
    let bounds = rect(1.5, -2., 3.25, 4.);
    let damage = SceneDamage::Rect(bounds);
    expect_rect(damage.union(damage), bounds);
    expect_unchanged(SceneDamage::Unchanged.union(SceneDamage::Unchanged));
    // An extent that rounding takes is not found again.
    let lost = SceneDamage::Rect(rect(16777216., 0., 0.5, 1.));
    expect_rect(lost.union(lost), rect(16777216., 0., 0., 1.));
}

#[test]
fn no_change_is_lost_over_several_frames() {
    let mut state: u32 = 41;
    for _ in 0..30 {
        let mut frames = vec![Scene::default()];
        frames[0].quads = scattered_quads(&mut state, 8);
        let mut damage = SceneDamage::Unchanged;
        for _ in 0..3 {
            let mut next = frames[frames.len() - 1].clone();
            let at = draw(&mut state, 8) as usize;
            next.quads[at] = scattered_quads(&mut state, 1)[0];
            damage = damage.union(SceneDamage::between(&frames[frames.len() - 1], &next));
            frames.push(next);
        }
        let last = &frames[frames.len() - 1];
        for x in 0..41 {
            for y in 0..41 {
                let (x, y) = (x as f32 * 20. + 5., y as f32 * 20. + 5.);
                let redrawn = match damage {
                    SceneDamage::Full => true,
                    SceneDamage::Rect(bounds) => holds(&bounds, x, y),
                    SceneDamage::Unchanged => false,
                };
                if !redrawn {
                    assert_eq!(painters(&frames[0], x, y), painters(last, x, y));
                }
            }
        }
    }
}

#[test]
fn damage_unites_in_any_order() {
    let (a, b, c) = (
        SceneDamage::Rect(rect(10., 0., 5., 5.)),
        SceneDamage::Rect(rect(0., 20., 5., 5.)),
        SceneDamage::Rect(rect(-4., 2., 1., 1.)),
    );
    let all = rect(-4., 0., 19., 25.);
    expect_rect(a.union(b).union(c), all);
    expect_rect(a.union(b.union(c)), all);
    expect_rect(c.union(a).union(b), all);
    expect_rect(b.union(a), rect(0., 0., 15., 25.));
}

#[test]
fn a_step_damages_the_same_forwards_and_back() {
    let mut state: u32 = 23;
    for _ in 0..40 {
        let mut before = Scene::default();
        let mut after = Scene::default();
        before.quads = scattered_quads(&mut state, 6);
        after.quads = scattered_quads(&mut state, 7);
        match SceneDamage::between(&before, &after) {
            SceneDamage::Rect(bounds) => {
                expect_rect(SceneDamage::between(&after, &before), bounds)
            }
            other => panic!("expected rect damage, got {other:?}"),
        }
    }
}

#[test]
fn union_keeps_what_nothing_was_added_to() {
    let damage = SceneDamage::Rect(rect(1., 2., 3., 4.));
    expect_rect(damage.union(SceneDamage::Unchanged), rect(1., 2., 3., 4.));
    expect_rect(SceneDamage::Unchanged.union(damage), rect(1., 2., 3., 4.));
    assert!(matches!(damage.union(SceneDamage::Full), SceneDamage::Full));
    assert!(matches!(SceneDamage::Full.union(SceneDamage::Full), SceneDamage::Full));
    assert!(matches!(
        SceneDamage::Unchanged.union(SceneDamage::Full),
        SceneDamage::Full
    ));
}

#[test]
fn highest_order_is_found_in_every_kind() {
    assert_eq!(Scene::default().max_order(), 0);
    assert_eq!(one_of_each().max_order(), 1);
    let mut scene = one_of_each();
    scene.quads[0].order = 2;
    assert_eq!(scene.max_order(), 2);
    scene.shadows[0].order = 3;
    assert_eq!(scene.max_order(), 3);
    scene.paths[0].order = 4;
    assert_eq!(scene.max_order(), 4);
    scene.underlines[0].order = 5;
    assert_eq!(scene.max_order(), 5);
    scene.monochrome_sprites[0].order = 6;
    assert_eq!(scene.max_order(), 6);
    scene.subpixel_sprites[0].order = 7;
    assert_eq!(scene.max_order(), 7);
    scene.polychrome_sprites[0].order = 8;
    assert_eq!(scene.max_order(), 8);
    scene.surfaces[0].order = 9;
    assert_eq!(scene.max_order(), 9);
}

#[test]
fn finishing_sorts_by_order_and_keeps_ties() {
    let mut scene = Scene::default();
    for (order, x) in [(3, 0.), (1, 1.), (2, 2.), (1, 3.), (3, 4.)] {
        scene.quads.push(quad(order, rect(x, 0., 10., 10.)));
    }
    scene.finish();
    let sorted: Vec<(u32, f32)> = scene
        .quads
        .iter()
        .map(|quad| (quad.order, f32::from_bits(quad.bounds.origin.x.0.bits)))
        .collect();
    assert_eq!(sorted, vec![(1, 1.), (1, 3.), (2, 2.), (3, 0.), (3, 4.)]);
    assert_eq!(scene.max_order(), 3);
}

#[test]
fn primitives_are_painted_above_what_they_overlap() {
    let mut scene = Scene::default();
    scene.insert_primitive(Primitive::Quad(quad(0, rect(0., 0., 100., 100.))));
    scene.insert_primitive(Primitive::Underline(Underline {
        bounds: rect(50., 50., 100., 2.),
        content_mask: mask(),
        ..Default::default()
    }));
    scene.insert_primitive(Primitive::Surface(PaintSurface {
        bounds: rect(120., 0., 50., 100.),
        content_mask: mask(),
        ..Default::default()
    }));
    scene.insert_primitive(Primitive::Shadow(Shadow {
        bounds: rect(500., 500., 10., 10.),
        content_mask: mask(),
        ..Default::default()
    }));
    assert_eq!(scene.quads[0].order, 1);
    assert_eq!(scene.underlines[0].order, 2);
    assert_eq!(scene.surfaces[0].order, 3);
    assert_eq!(scene.shadows[0].order, 1);
    assert_eq!(scene.max_order(), 3);
}

#[test]
fn primitives_that_are_clipped_away_are_left_out() {
    let mut scene = Scene::default();
    scene.insert_primitive(Primitive::Quad(quad(0, rect(2000., 0., 10., 10.))));
    scene.insert_primitive(Primitive::Quad(quad(0, rect(0., 0., 10., 0.))));
    assert!(scene.quads.is_empty());
    assert!(scene.primitive_bounds.is_empty());
}

#[test]
fn opaque_quads_are_plain_solid_and_unclipped() {
    let plain = quad(1, rect(0., 0., 10., 10.));
    assert!(is_opaque_quad(&plain));

    let mut translucent = plain;
    translucent.background = solid(0.5, 0.99);
    let mut gradient = plain;
    gradient.background.tag = BackgroundTag::LinearGradient;
    let mut rounded = plain;
    rounded.corner_radii.bottom_left = px(0.5);
    let mut bordered = plain;
    bordered.border_widths.left = px(1.);
    let mut clipped = plain;
    clipped.content_mask.bounds = rect(0., 0., 9., 10.);
    let mut negative_zero = quad(2, rect(5., 5., 10., 10.));
    negative_zero.corner_radii.top_left = px(-0.0);
    for other in [translucent, gradient, rounded, bordered, clipped] {
        assert!(!is_opaque_quad(&other));
    }
    assert!(is_opaque_quad(&negative_zero));

    let mut scene = Scene::default();
    scene.quads = vec![translucent, plain, gradient, rounded, negative_zero, clipped];
    let found: Vec<u32> = scene.opaque_quads().iter().map(|quad| quad.order).collect();
    assert_eq!(found, vec![1, 2]);
    let back_to_front: Vec<u32> = scene.opaque_quads().iter().rev().map(|quad| quad.order).collect();
    assert_eq!(back_to_front, vec![2, 1]);
}

#[test]
fn every_kind_is_culled_behind_an_occluder() {
    let mut scene = one_of_each();
    scene.quads.push(quad(2, rect(0., 0., 500., 500.)));
    scene.cull_occluded();
    assert_eq!(scene.quads.len(), 1);
    assert_eq!(scene.quads[0].order, 2);
    assert!(scene.shadows.is_empty());
    assert!(scene.paths.is_empty());
    assert!(scene.underlines.is_empty());
    assert!(scene.monochrome_sprites.is_empty());
    assert!(scene.subpixel_sprites.is_empty());
    assert!(scene.polychrome_sprites.is_empty());
    assert!(scene.surfaces.is_empty());
}

#[test]
fn a_shadow_that_reaches_out_is_kept() {
    let mut scene = one_of_each();
    // The blur reaches to (4, 4); the bounds begin at (10, 10).
    scene.quads.push(quad(2, rect(5., 5., 500., 500.)));
    scene.cull_occluded();
    assert_eq!(scene.shadows.len(), 1);
    assert!(scene.underlines.is_empty());
}

#[test]
fn only_the_visible_part_must_be_covered() {
    let mut scene = Scene::default();
    let mut wide = quad(1, rect(10., 10., 900., 900.));
    wide.content_mask.bounds = rect(0., 0., 100., 100.);
    scene.quads.push(wide);
    scene.quads.push(quad(2, rect(0., 0., 200., 200.)));
    scene.cull_occluded();
    assert_eq!(scene.quads.len(), 1);
}

#[test]
fn occluders_of_the_same_order_hide_nothing() {
    let mut scene = one_of_each();
    scene.quads.push(quad(1, rect(0., 0., 500., 500.)));
    scene.cull_occluded();
    assert_eq!(scene.quads.len(), 2);
    assert_eq!(scene.shadows.len(), 1);
}

#[test]
fn the_least_area_of_an_occluder_counts() {
    assert_eq!(f32::from_bits(MIN_OCCLUDER_AREA), 128.0 * 128.0);
    let mut scene = one_of_each();
    scene.quads.push(quad(2, rect(0., 0., 128., 128.)));
    scene.cull_occluded();
    assert_eq!(scene.quads.len(), 1);

    let mut scene = one_of_each();
    scene.quads.push(quad(2, rect(0., 0., 128., 127.)));
    scene.cull_occluded();
    assert_eq!(scene.quads.len(), 2);
}

#[test]
fn only_the_largest_occluders_are_tested() {
    for others in [MAX_OCCLUDERS - 1, MAX_OCCLUDERS] {
        let mut scene = Scene::default();
        scene.quads.push(quad(1, rect(10., 10., 20., 20.)));
        scene.quads.push(quad(2, rect(0., 0., 130., 130.)));
        for i in 0..others {
            scene.quads.push(quad(2, rect(200. + i as f32, 200., 140., 140.)));
        }
        scene.cull_occluded();
        let kept = if others < MAX_OCCLUDERS { others + 1 } else { others + 2 };
        assert_eq!(scene.quads.len(), kept);
    }
}

#[test]
fn the_largest_occluders_are_found_wherever_they_stand() {
    // Whatever the order, the smallest of all the candidates is the one left out.
    let count = MAX_OCCLUDERS + 1;
    for turn in 0..count {
        let mut scene = Scene::default();
        for i in 0..count {
            scene.quads.push(quad(1, rect(300. * i as f32, 0., 20., 20.)));
        }
        for i in 0..count {
            let which = (i * 5 + turn) % count;
            let side = 130. + which as f32;
            let bounds = rect(300. * which as f32, 0., side, side);
            scene.quads.push(Quad {
                content_mask: ContentMask { bounds },
                ..quad(2, bounds)
            });
        }
        for quad in scene.quads.iter_mut() {
            quad.content_mask.bounds = rect(0., 0., 10000., 1000.);
        }
        scene.cull_occluded();
        let small: Vec<_> = scene.quads.iter().filter(|quad| quad.order == 1).collect();
        assert_eq!(small.len(), 1);
        assert_eq!(small[0].bounds, rect(0., 0., 20., 20.));
        assert_eq!(scene.quads.len(), count + 1);
    }
}

#[test]
fn of_equally_large_occluders_the_first_count() {
    let mut scene = Scene::default();
    let count = MAX_OCCLUDERS + 2;
    for i in 0..count {
        scene.quads.push(Quad {
            content_mask: ContentMask { bounds: rect(0., 0., 10000., 1000.) },
            ..quad(1, rect(300. * i as f32, 0., 20., 20.))
        });
    }
    for i in 0..count {
        scene.quads.push(Quad {
            content_mask: ContentMask { bounds: rect(0., 0., 10000., 1000.) },
            ..quad(2, rect(300. * i as f32, 0., 140., 140.))
        });
    }
    scene.cull_occluded();
    let small: Vec<_> = scene.quads.iter().filter(|quad| quad.order == 1).collect();
    assert_eq!(small.len(), 2);
    assert_eq!(small[0].bounds, rect(300. * MAX_OCCLUDERS as f32, 0., 20., 20.));
}

#[test]
fn occluders_add_up_in_any_order() {
    let mut state: u32 = 17;
    for _ in 0..40 {
        let all = scattered_quads(&mut state, 30);
        let a: Vec<_> = scattered_quads(&mut state, 4).iter().map(|q| (q.order, q.bounds)).collect();
        let b: Vec<_> = scattered_quads(&mut state, 4).iter().map(|q| (q.order, q.bounds)).collect();
        let both: Vec<_> = a.iter().chain(b.iter()).copied().collect();
        let turned: Vec<_> = both.iter().rev().copied().collect();
        let mut at_once = all.clone();
        retain_visible(&mut at_once, &both);
        let mut one_by_one = all.clone();
        retain_visible(&mut one_by_one, &a);
        retain_visible(&mut one_by_one, &b);
        assert_eq!(at_once, one_by_one);
        let mut backwards = all.clone();
        retain_visible(&mut backwards, &turned);
        assert_eq!(at_once, backwards);
        let mut untouched = all.clone();
        retain_visible(&mut untouched, &[]);
        assert_eq!(untouched, all);
    }
}

#[test]
fn only_what_is_drawn_earlier_and_covered_goes() {
    let occluders = [(2, rect(0., 0., 100., 100.)), (3, rect(200., 0., 50., 50.))];
    let inside = rect(10., 10., 20., 20.);
    let mut quads = vec![
        quad(1, inside),
        quad(2, inside),
        quad(1, rect(90., 90., 20., 20.)),
        quad(2, rect(210., 10., 20., 20.)),
        quad(3, rect(210., 10., 20., 20.)),
    ];
    let kept = vec![quads[1], quads[2], quads[4]];
    retain_visible(&mut quads, &occluders);
    assert_eq!(quads, kept);
}

#[test]
fn culling_again_changes_nothing() {
    let mut state: u32 = 5;
    for _ in 0..60 {
        let mut scene = Scene::default();
        scene.quads = scattered_quads(&mut state, MAX_OCCLUDERS as u32);
        scene.cull_occluded();
        let once = scene.quads.clone();
        scene.cull_occluded();
        assert_eq!(scene.quads, once);
    }
}

#[test]
fn culling_leaves_the_highest_order() {
    let mut state: u32 = 11;
    for _ in 0..60 {
        let mut scene = Scene::default();
        scene.quads = scattered_quads(&mut state, 40);
        let highest = scene.quads.iter().map(|quad| quad.order).max();
        scene.cull_occluded();
        scene.finish();
        assert_eq!(Some(scene.max_order()), highest);
    }
}

#[test]
fn what_hides_may_itself_be_hidden() {
    let mut scene = Scene::default();
    scene.quads.push(quad(1, rect(10., 10., 20., 20.)));
    scene.quads.push(quad(2, rect(0., 0., 200., 200.)));
    scene.quads.push(quad(3, rect(0., 0., 300., 300.)));
    scene.cull_occluded();
    // What is left still covers all that went.
    assert_eq!(scene.quads.len(), 1);
    assert_eq!(scene.quads[0].bounds, rect(0., 0., 300., 300.));
}

/// A small source of numbers below `bound`.
fn draw(state: &mut u32, bound: u32) -> u32 {
    *state = state.wrapping_mul(1_664_525).wrapping_add(1_013_904_223);
    (*state >> 8) % bound
}

fn scattered_quads(state: &mut u32, count: u32) -> Vec<Quad> {
    (0..count)
        .map(|_| {
            let order = 1 + draw(state, 6);
            let x = draw(state, 40) as f32 * 10.;
            let y = draw(state, 40) as f32 * 10.;
            let w = (1 + draw(state, 40)) as f32 * 10.;
            let h = (1 + draw(state, 40)) as f32 * 10.;
            let mut quad = quad(order, rect(x, y, w, h));
            if draw(state, 3) == 0 {
                quad.background = solid(0.5, 0.5);
            }
            quad
        })
        .collect()
}

fn holds(bounds: &Bounds<ScaledPixels>, x: f32, y: f32) -> bool {
    let corner = bounds.bottom_right();
    bounds.origin.x.0.le(single(x))
        && single(x).lt(corner.x.0)
        && bounds.origin.y.0.le(single(y))
        && single(y).lt(corner.y.0)
}

fn painters(scene: &Scene, x: f32, y: f32) -> Vec<Quad> {
    scene
        .quads
        .iter()
        .filter(|quad| holds(&quad.bounds, x, y))
        .copied()
        .collect()
}

#[test]
fn nothing_changes_outside_the_damage() {
    let mut state: u32 = 7;
    for _ in 0..60 {
        let mut before = Scene::default();
        before.quads = scattered_quads(&mut state, 8);
        let mut after = before.clone();
        match draw(&mut state, 3) {
            0 => {
                let at = draw(&mut state, 8) as usize;
                after.quads.remove(at);
            }
            1 => {
                let at = draw(&mut state, 8) as usize;
                after.quads[at].border_color.l = single(0.75);
            }
            _ => {
                let at = draw(&mut state, 9) as usize;
                let added = scattered_quads(&mut state, 1)[0];
                after.quads.insert(at, added);
            }
        }
        let damage = SceneDamage::between(&before, &after);
        for x in 0..41 {
            for y in 0..41 {
                let (x, y) = (x as f32 * 20. + 5., y as f32 * 20. + 5.);
                let redrawn = match damage {
                    SceneDamage::Full => true,
                    SceneDamage::Rect(bounds) => holds(&bounds, x, y),
                    SceneDamage::Unchanged => false,
                };
                if !redrawn {
                    assert_eq!(painters(&before, x, y), painters(&after, x, y));
                }
            }
        }
    }
}

#[test]
fn what_is_culled_stays_covered() {
    let mut state: u32 = 99;
    let mut removed: usize = 0;
    for _ in 0..200 {
        let mut scene = Scene::default();
        scene.quads = scattered_quads(&mut state, 40);
        let all = scene.quads.clone();
        scene.cull_occluded();
        removed += all.len() - scene.quads.len();
        for quad in all.iter().filter(|quad| !scene.quads.contains(quad)) {
            let visible = quad.bounds.intersect(&quad.content_mask.bounds);
            assert!(scene.quads.iter().any(|cover| {
                cover.order > quad.order && is_opaque_quad(cover) && covers(&cover.bounds, &visible)
            }));
        }
    }
    assert!(removed > 0);
}

#[test]
fn opaque_quads_of_a_finished_scene_ascend() {
    let mut state: u32 = 3;
    let mut scene = Scene::default();
    scene.quads = scattered_quads(&mut state, 60);
    scene.finish();
    let orders: Vec<u32> = scene.opaque_quads().iter().map(|quad| quad.order).collect();
    assert!(!orders.is_empty());
    assert!(orders.windows(2).all(|pair| pair[0] <= pair[1]));
    assert!(scene.quads.iter().all(|quad| quad.order <= scene.max_order()));
}

#[test]
fn coverage_is_transitive() {
    let a = rect(0., 0., 100., 100.);
    let b = rect(10., 0., 90., 50.);
    let c = rect(20., 10., 30., 40.);
    assert!(covers(&a, &b) && covers(&b, &c) && covers(&a, &c));
    assert!(covers(&a, &a) && !covers(&b, &a));
    let nowhere = rect(f32::NAN, 0., 1., 1.);
    assert!(!covers(&nowhere, &nowhere));
    let endless = rect(f32::INFINITY, 0., f32::NEG_INFINITY, 1.);
    assert!(!covers(&endless, &endless));
    assert!(holds(&c, 25., 25.) && holds(&b, 25., 25.) && holds(&a, 25., 25.));
}

#[test]
fn multiples_of_a_step_add_up_exactly() {
    for (a, b) in [(8388608., 8388608.), (-2097151.75, 0.25), (12345.5, -54321.25)] {
        let sum: f64 = a + b;
        assert_eq!(single(a as f32).plus(single(b as f32)), single(sum as f32));
        assert_eq!(sum, (sum as f32) as f64);
    }
}
