# Scene analysis

Platform-agnostic analysis of a scene before it is rendered, with every function proved
against its contract by Verus:

- `src/damage.rs`: the region that changed between two frames, and how regions combine;
- `src/occlusion.rs`: removing primitives that an opaque quad hides;
- `src/depth.rs`: the highest draw order and the quads for an opaque depth pre-pass;
- `src/scene.rs`: the scene, its primitives, their placing and sorting;
- `src/geometry.rs`: rectangles in device pixels;
- `src/transform.rs`: transformations of the plane, and the rectangles around what they
  move;
- `src/single.rs`, `src/rounding.rs`: single-precision numbers by their bit patterns,
  with correctly rounded arithmetic.

Public proof functions whose names begin with `law_` state what holds of the library as a
whole: that outside the damage two frames paint the same, that no change is lost over
frames that are never presented, that what is culled stays covered by an opaque quad that
is kept, that a rotated sprite stays inside its transformed bounds, and that rectangles of
whole pixels are exact.

`app/` reads the switch for occlusion culling from the environment and converts between
the library's numbers and machine floats. `tests/` holds the arithmetic against that of
the machine.
