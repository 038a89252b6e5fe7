use scene_analysis::damage::SceneDamage;
use scene_analysis::geometry::{Bounds, ContentMask, Point, ScaledPixels, Size};
use scene_analysis::scene::{Hsla, Primitive, Quad, Scene};
use scene_analysis::single::Single;

fn single(value: f32) -> Single {
    Single { bits: value.to_bits() }
}

fn rect(x: f32, y: f32, w: f32, h: f32) -> Bounds<ScaledPixels> {
    Bounds {
        origin: Point {
            x: ScaledPixels(single(x)),
            y: ScaledPixels(single(y)),
        },
        size: Size {
            width: ScaledPixels(single(w)),
            height: ScaledPixels(single(h)),
        },
    }
}

fn hsla(h: f32, s: f32, l: f32, a: f32) -> Hsla {
    Hsla {
        h: single(h),
        s: single(s),
        l: single(l),
        a: single(a),
    }
}

fn quad(bounds: Bounds<ScaledPixels>, lightness: f32) -> Quad {
    Quad {
        bounds,
        content_mask: ContentMask {
            bounds: rect(0., 0., 1000., 1000.),
        },
        background: hsla(0., 0., lightness, 1.).into(),
        ..Default::default()
    }
}

fn scene_of(quads: &[Quad]) -> Scene {
    let mut scene = Scene::default();
    for q in quads {
        scene.insert_primitive(Primitive::Quad(*q));
    }
    scene.finish();
    scene
}

#[test]
fn identical_scenes_are_unchanged() {
    let a = scene_of(&[quad(rect(0., 0., 100., 100.), 0.5)]);
    let b = scene_of(&[quad(rect(0., 0., 100., 100.), 0.5)]);
    assert!(matches!(
        SceneDamage::between(&a, &b),
        SceneDamage::Unchanged
    ));
}

#[test]
fn changed_quad_damages_its_bounds() {
    let unchanged = quad(rect(0., 0., 100., 100.), 0.1);
    let before = scene_of(&[unchanged, quad(rect(200., 200., 10., 20.), 0.5)]);
    let after = scene_of(&[unchanged, quad(rect(200., 200., 10., 20.), 0.9)]);
    match SceneDamage::between(&before, &after) {
        SceneDamage::Rect(damage) => assert_eq!(damage, rect(200., 200., 10., 20.)),
        other => panic!("expected rect damage, got {other:?}"),
    }
}

#[test]
fn inserted_quad_damages_only_itself() {
    // Mirrors the cursor blinking on: one primitive appears mid-scene,
    // shifting the index of everything after it.
    let a = quad(rect(0., 0., 50., 50.), 0.1);
    let cursor = quad(rect(60., 0., 2., 20.), 0.5);
    let c = quad(rect(100., 0., 50., 50.), 0.9);
    let before = scene_of(&[a, c]);
    let after = scene_of(&[a, cursor, c]);
    match SceneDamage::between(&before, &after) {
        SceneDamage::Rect(damage) => assert_eq!(damage, rect(60., 0., 2., 20.)),
        other => panic!("expected rect damage, got {other:?}"),
    }
}

#[test]
fn removed_quad_damages_only_itself() {
    // The cursor blinking off.
    let a = quad(rect(0., 0., 50., 50.), 0.1);
    let cursor = quad(rect(60., 0., 2., 20.), 0.5);
    let c = quad(rect(100., 0., 50., 50.), 0.9);
    let before = scene_of(&[a, cursor, c]);
    let after = scene_of(&[a, c]);
    match SceneDamage::between(&before, &after) {
        SceneDamage::Rect(damage) => assert_eq!(damage, rect(60., 0., 2., 20.)),
        other => panic!("expected rect damage, got {other:?}"),
    }
}

#[test]
fn scene_damage_culls_quad_fully_covered_by_higher_order_opaque_quad() {
    let mut scene = Scene::default();
    scene.insert_primitive(Primitive::Quad(quad(rect(10., 10., 50., 50.), 0.3)));
    // Overlaps the first quad, so it gets a higher draw order.
    scene.insert_primitive(Primitive::Quad(quad(rect(0., 0., 500., 500.), 0.6)));
    scene.cull_occluded();
    assert_eq!(scene.quads.len(), 1);
    assert_eq!(scene.quads[0].bounds, rect(0., 0., 500., 500.));
}

#[test]
fn scene_damage_keeps_partially_covered_quad() {
    let mut scene = Scene::default();
    // Extends past the occluder's right/bottom edge.
    scene.insert_primitive(Primitive::Quad(quad(rect(400., 400., 200., 200.), 0.3)));
    scene.insert_primitive(Primitive::Quad(quad(rect(0., 0., 500., 500.), 0.6)));
    scene.cull_occluded();
    assert_eq!(scene.quads.len(), 2);
}

#[test]
fn scene_damage_keeps_quad_in_front_of_occluder() {
    let mut scene = Scene::default();
    // The big opaque quad is painted first, so it's *behind* the small one.
    scene.insert_primitive(Primitive::Quad(quad(rect(0., 0., 500., 500.), 0.6)));
    scene.insert_primitive(Primitive::Quad(quad(rect(10., 10., 50., 50.), 0.3)));
    scene.cull_occluded();
    assert_eq!(scene.quads.len(), 2);
}

#[test]
fn scene_damage_transparent_or_small_quads_do_not_occlude() {
    let mut scene = Scene::default();
    scene.insert_primitive(Primitive::Quad(quad(rect(10., 10., 50., 50.), 0.3)));
    // Fully covers, but is translucent.
    let mut translucent = quad(rect(0., 0., 500., 500.), 0.6);
    translucent.background = hsla(0., 0., 0.6, 0.5).into();
    scene.insert_primitive(Primitive::Quad(translucent));
    // Fully covers and is opaque, but is below the size threshold.
    scene.insert_primitive(Primitive::Quad(quad(rect(0., 0., 100., 100.), 0.9)));
    scene.cull_occluded();
    assert_eq!(scene.quads.len(), 3);
}

#[test]
fn union_combines_damage() {
    assert!(matches!(
        SceneDamage::Full.union(SceneDamage::Rect(rect(0., 0., 1., 1.))),
        SceneDamage::Full
    ));
    assert!(matches!(
        SceneDamage::Unchanged.union(SceneDamage::Unchanged),
        SceneDamage::Unchanged
    ));
    match SceneDamage::Rect(rect(0., 0., 10., 10.))
        .union(SceneDamage::Rect(rect(20., 20., 10., 10.)))
    {
        SceneDamage::Rect(damage) => assert_eq!(damage, rect(0., 0., 30., 30.)),
        other => panic!("expected rect damage, got {other:?}"),
    }
}
