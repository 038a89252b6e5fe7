//! The scene: what is drawn in one frame, kind by kind.

use crate::geometry::{Bounds, ContentMask, Corners, DevicePixels, Edges, Point, ScaledPixels};
use crate::single::Single;
use crate::transform::{transformed_bounds, TransformationMatrix};
use vstd::prelude::*;

verus! {

/// The place of a primitive in the painting order; higher is nearer to the viewer.
pub type DrawOrder = u32;

/// The bit pattern of one.
pub const ONE: u32 = 0x3f80_0000;

/// The bit pattern of three, the reach of a shadow in blur radii.
pub const SHADOW_REACH: u32 = 0x4040_0000;

/// A colour by hue, saturation, lightness and opacity.
#[derive(Clone, Copy, Debug, Default, PartialEq, Eq, Structural)]
pub struct Hsla {
    pub h: Single,
    pub s: Single,
    pub l: Single,
    pub a: Single,
}

impl Hsla {
    /// Whether nothing shows through the colour.
    pub open spec fn opaque(self) -> bool {
        !self.a.nan() && self.a.rank() == ONE
    }

    /// Whether nothing shows through the colour.
    pub fn is_opaque(&self) -> (opaque: bool)
        ensures
            opaque == self.opaque(),
    {
        self.a.equals(Single { bits: ONE })
    }
}

/// How a background is filled.
#[derive(Clone, Copy, Debug, Default, PartialEq, Eq, Structural)]
pub enum BackgroundTag {
    #[default]
    Solid,
    LinearGradient,
    PatternSlash,
}

/// The space in which the colours of a gradient are mixed.
#[derive(Clone, Copy, Debug, Default, PartialEq, Eq, Structural)]
pub enum ColorSpace {
    #[default]
    Srgb,
    Oklab,
}

/// A colour at a place along a gradient.
#[derive(Clone, Copy, Debug, Default, PartialEq, Eq, Structural)]
pub struct LinearColorStop {
    pub color: Hsla,
    pub percentage: Single,
}

/// A fill.
#[derive(Clone, Copy, Debug, Default, PartialEq, Eq, Structural)]
pub struct Background {
    pub tag: BackgroundTag,
    pub color_space: ColorSpace,
    pub solid: Hsla,
    pub gradient_angle_or_pattern_height: Single,
    pub first_stop: LinearColorStop,
    pub last_stop: LinearColorStop,
}

impl Background {
    /// The colour of a solid fill.
    pub open spec fn solid_color(self) -> Option<Hsla> {
        if self.tag == BackgroundTag::Solid {
            Some(self.solid)
        } else {
            None
        }
    }

    /// The fill with one colour.
    pub open spec fn of_color(color: Hsla) -> Background {
        let zero = Single { bits: 0 };
        let clear = Hsla { h: zero, s: zero, l: zero, a: zero };
        let stop = LinearColorStop { color: clear, percentage: zero };
        Background {
            tag: BackgroundTag::Solid,
            color_space: ColorSpace::Srgb,
            solid: color,
            gradient_angle_or_pattern_height: zero,
            first_stop: stop,
            last_stop: stop,
        }
    }

    /// The colour of a solid fill.
    pub fn as_solid(&self) -> (color: Option<Hsla>)
        ensures
            color == self.solid_color(),
    {
        if self.tag == BackgroundTag::Solid {
            Some(self.solid)
        } else {
            None
        }
    }
}

/// The fill with one colour is solid and has that colour; all else about it is as in a fill
/// that nothing was set of. The colour of a fill can be asked for exactly where it is solid.
pub proof fn law_solid_fill_has_its_colour(color: Hsla, other: Background)
    ensures
        ({
            let fill = Background::of_color(color);
            let zero = Single { bits: 0 };
            &&& fill.tag == BackgroundTag::Solid
            &&& fill.solid == color
            &&& fill.color_space == ColorSpace::Srgb
            &&& fill.gradient_angle_or_pattern_height == zero
            &&& fill.first_stop == fill.last_stop
            &&& fill.first_stop.percentage == zero
            &&& fill.first_stop.color == (Hsla { h: zero, s: zero, l: zero, a: zero })
            &&& fill.solid_color() == Some(color)
        }),
        other.solid_color() is Some <==> other.tag == BackgroundTag::Solid,
        other.solid_color() is Some ==> other.solid_color()->Some_0 == other.solid,
{
}

impl From<Hsla> for Background {
    fn from(color: Hsla) -> (background: Background) {
        let zero = Single { bits: 0 };
        let clear = Hsla { h: zero, s: zero, l: zero, a: zero };
        let stop = LinearColorStop { color: clear, percentage: zero };
        Background {
            tag: BackgroundTag::Solid,
            color_space: ColorSpace::Srgb,
            solid: color,
            gradient_angle_or_pattern_height: zero,
            first_stop: stop,
            last_stop: stop,
        }
    }
}

impl vstd::std_specs::convert::FromSpecImpl<Hsla> for Background {
    open spec fn obeys_from_spec() -> bool {
        true
    }

    open spec fn from_spec(color: Hsla) -> Background {
        Background::of_color(color)
    }
}

/// How a border is stroked.
#[derive(Clone, Copy, Debug, Default, PartialEq, Eq, Structural)]
pub enum BorderStyle {
    #[default]
    Solid,
    Dashed,
}

/// What the tiles of an atlas texture hold.
#[derive(Clone, Copy, Debug, Default, PartialEq, Eq, Structural)]
pub enum AtlasTextureKind {
    #[default]
    Monochrome,
    Subpixel,
    Polychrome,
}

/// A texture of the atlas.
#[derive(Clone, Copy, Debug, Default, PartialEq, Eq, Structural)]
pub struct AtlasTextureId {
    pub index: u32,
    pub kind: AtlasTextureKind,
}

/// A tile within a texture.
#[derive(Clone, Copy, Debug, Default, PartialEq, Eq, Structural)]
pub struct TileId(pub u32);

/// Where in the atlas a sprite is found.
#[derive(Clone, Copy, Debug, Default, PartialEq, Eq, Structural)]
pub struct AtlasTile {
    pub texture_id: AtlasTextureId,
    pub tile_id: TileId,
    pub padding: u32,
    pub bounds: Bounds<DevicePixels>,
}

/// A filled rectangle with a border.
#[derive(Clone, Copy, Debug, Default, PartialEq, Eq, Structural)]
pub struct Quad {
    pub order: DrawOrder,
    pub border_style: BorderStyle,
    pub bounds: Bounds<ScaledPixels>,
    pub content_mask: ContentMask<ScaledPixels>,
    pub background: Background,
    pub border_color: Hsla,
    pub corner_radii: Corners<ScaledPixels>,
    pub border_widths: Edges<ScaledPixels>,
}

/// The blurred shadow of a rectangle.
#[derive(Clone, Copy, Debug, Default, PartialEq, Eq, Structural)]
pub struct Shadow {
    pub order: DrawOrder,
    pub blur_radius: ScaledPixels,
    pub bounds: Bounds<ScaledPixels>,
    pub corner_radii: Corners<ScaledPixels>,
    pub content_mask: ContentMask<ScaledPixels>,
    pub color: Hsla,
}

/// A line below text.
#[derive(Clone, Copy, Debug, Default, PartialEq, Eq, Structural)]
pub struct Underline {
    pub order: DrawOrder,
    pub bounds: Bounds<ScaledPixels>,
    pub content_mask: ContentMask<ScaledPixels>,
    pub color: Hsla,
    pub thickness: ScaledPixels,
    pub wavy: bool,
}

/// An atlas tile painted in one colour.
#[derive(Clone, Copy, Debug, Default, PartialEq, Eq, Structural)]
pub struct MonochromeSprite {
    pub order: DrawOrder,
    pub bounds: Bounds<ScaledPixels>,
    pub content_mask: ContentMask<ScaledPixels>,
    pub color: Hsla,
    pub tile: AtlasTile,
    pub transformation: TransformationMatrix,
}

/// An atlas tile painted in one colour with coverage per subpixel.
#[derive(Clone, Copy, Debug, Default, PartialEq, Eq, Structural)]
pub struct SubpixelSprite {
    pub order: DrawOrder,
    pub bounds: Bounds<ScaledPixels>,
    pub content_mask: ContentMask<ScaledPixels>,
    pub color: Hsla,
    pub tile: AtlasTile,
    pub transformation: TransformationMatrix,
}

/// An atlas tile painted in its own colours.
#[derive(Clone, Copy, Debug, Default, PartialEq, Eq, Structural)]
pub struct PolychromeSprite {
    pub order: DrawOrder,
    pub grayscale: bool,
    pub opacity: Single,
    pub bounds: Bounds<ScaledPixels>,
    pub content_mask: ContentMask<ScaledPixels>,
    pub corner_radii: Corners<ScaledPixels>,
    pub tile: AtlasTile,
}

/// A surface that is painted from outside of the scene, such as a video frame.
#[derive(Clone, Copy, Debug, Default, PartialEq, Eq, Structural)]
pub struct PaintSurface {
    pub order: DrawOrder,
    pub bounds: Bounds<ScaledPixels>,
    pub content_mask: ContentMask<ScaledPixels>,
    /// Tells the buffers that surfaces show apart.
    pub image_buffer: u64,
}

/// A corner of one of the triangles of a path.
#[derive(Clone, Copy, Debug, Default, PartialEq, Eq, Structural)]
pub struct PathVertex<P> {
    pub xy_position: Point<P>,
    pub st_position: Point<Single>,
    pub content_mask: ContentMask<P>,
}

/// A filled outline.
#[derive(Clone, Debug, Default)]
pub struct Path<P> {
    pub order: DrawOrder,
    pub bounds: Bounds<P>,
    pub content_mask: ContentMask<P>,
    pub vertices: Vec<PathVertex<P>>,
    pub color: Background,
}

/// What a path is, with its vertices as a sequence.
#[verifier::ext_equal]
pub struct PathModel {
    pub order: DrawOrder,
    pub bounds: Bounds<ScaledPixels>,
    pub content_mask: ContentMask<ScaledPixels>,
    pub vertices: Seq<PathVertex<ScaledPixels>>,
    pub color: Background,
}

/// A kind of primitive.
pub trait Drawn: View {
    /// The place in the painting order.
    spec fn order_of(model: Self::V) -> DrawOrder;

    /// Everything that the primitive may paint, were it not clipped.
    spec fn painted(model: Self::V) -> Bounds<ScaledPixels>;

    /// The rectangle that painting is clipped to.
    spec fn mask_of(model: Self::V) -> Bounds<ScaledPixels>;

    /// The place in the painting order.
    fn draw_order(&self) -> (order: DrawOrder)
        ensures
            order == Self::order_of(self@),
    ;

    /// Everything that the primitive may paint, were it not clipped.
    fn painted_bounds(&self) -> (bounds: Bounds<ScaledPixels>)
        ensures
            bounds == Self::painted(self@),
    ;

    /// What of the primitive is not clipped away.
    fn visible_bounds(&self) -> (bounds: Bounds<ScaledPixels>)
        ensures
            bounds == Self::painted(self@).clipped(Self::mask_of(self@)),
    ;

    /// Whether the two primitives are the same, bit for bit.
    fn same(&self, other: &Self) -> (same: bool)
        ensures
            same == (self@ == other@),
    ;
}

/// What of a primitive is not clipped away.
pub open spec fn visible<T: Drawn>(model: T::V) -> Bounds<ScaledPixels> {
    T::painted(model).clipped(T::mask_of(model))
}

impl View for Quad {
    type V = Quad;

    open spec fn view(&self) -> Quad {
        *self
    }
}

impl Drawn for Quad {
    open spec fn order_of(model: Quad) -> DrawOrder {
        model.order
    }

    open spec fn painted(model: Quad) -> Bounds<ScaledPixels> {
        model.bounds
    }

    open spec fn mask_of(model: Quad) -> Bounds<ScaledPixels> {
        model.content_mask.bounds
    }

    fn draw_order(&self) -> (order: DrawOrder) {
        self.order
    }

    fn painted_bounds(&self) -> (bounds: Bounds<ScaledPixels>) {
        self.bounds
    }

    fn visible_bounds(&self) -> (bounds: Bounds<ScaledPixels>) {
        self.painted_bounds().intersect(&self.content_mask.bounds)
    }

    fn same(&self, other: &Self) -> (same: bool) {
        *self == *other
    }
}

impl View for Shadow {
    type V = Shadow;

    open spec fn view(&self) -> Shadow {
        *self
    }
}

impl Drawn for Shadow {
    open spec fn order_of(model: Shadow) -> DrawOrder {
        model.order
    }

    open spec fn painted(model: Shadow) -> Bounds<ScaledPixels> {
        model.bounds.grown(Single::product(model.blur_radius.0, Single { bits: SHADOW_REACH }))
    }

    open spec fn mask_of(model: Shadow) -> Bounds<ScaledPixels> {
        model.content_mask.bounds
    }

    fn draw_order(&self) -> (order: DrawOrder) {
        self.order
    }

    fn painted_bounds(&self) -> (bounds: Bounds<ScaledPixels>) {
        self.bounds.dilate(ScaledPixels(self.blur_radius.0.times(Single { bits: SHADOW_REACH })))
    }

    fn visible_bounds(&self) -> (bounds: Bounds<ScaledPixels>) {
        self.painted_bounds().intersect(&self.content_mask.bounds)
    }

    fn same(&self, other: &Self) -> (same: bool) {
        *self == *other
    }
}

impl View for Underline {
    type V = Underline;

    open spec fn view(&self) -> Underline {
        *self
    }
}

impl Drawn for Underline {
    open spec fn order_of(model: Underline) -> DrawOrder {
        model.order
    }

    open spec fn painted(model: Underline) -> Bounds<ScaledPixels> {
        model.bounds
    }

    open spec fn mask_of(model: Underline) -> Bounds<ScaledPixels> {
        model.content_mask.bounds
    }

    fn draw_order(&self) -> (order: DrawOrder) {
        self.order
    }

    fn painted_bounds(&self) -> (bounds: Bounds<ScaledPixels>) {
        self.bounds
    }

    fn visible_bounds(&self) -> (bounds: Bounds<ScaledPixels>) {
        self.painted_bounds().intersect(&self.content_mask.bounds)
    }

    fn same(&self, other: &Self) -> (same: bool) {
        *self == *other
    }
}

impl View for MonochromeSprite {
    type V = MonochromeSprite;

    open spec fn view(&self) -> MonochromeSprite {
        *self
    }
}

impl Drawn for MonochromeSprite {
    open spec fn order_of(model: MonochromeSprite) -> DrawOrder {
        model.order
    }

    open spec fn painted(model: MonochromeSprite) -> Bounds<ScaledPixels> {
        model.bounds.transformed(model.transformation)
    }

    open spec fn mask_of(model: MonochromeSprite) -> Bounds<ScaledPixels> {
        model.content_mask.bounds
    }

    fn draw_order(&self) -> (order: DrawOrder) {
        self.order
    }

    fn painted_bounds(&self) -> (bounds: Bounds<ScaledPixels>) {
        transformed_bounds(self.bounds, &self.transformation)
    }

    fn visible_bounds(&self) -> (bounds: Bounds<ScaledPixels>) {
        self.painted_bounds().intersect(&self.content_mask.bounds)
    }

    fn same(&self, other: &Self) -> (same: bool) {
        *self == *other
    }
}

impl View for SubpixelSprite {
    type V = SubpixelSprite;

    open spec fn view(&self) -> SubpixelSprite {
        *self
    }
}

impl Drawn for SubpixelSprite {
    open spec fn order_of(model: SubpixelSprite) -> DrawOrder {
        model.order
    }

    open spec fn painted(model: SubpixelSprite) -> Bounds<ScaledPixels> {
        model.bounds.transformed(model.transformation)
    }

    open spec fn mask_of(model: SubpixelSprite) -> Bounds<ScaledPixels> {
        model.content_mask.bounds
    }

    fn draw_order(&self) -> (order: DrawOrder) {
        self.order
    }

    fn painted_bounds(&self) -> (bounds: Bounds<ScaledPixels>) {
        transformed_bounds(self.bounds, &self.transformation)
    }

    fn visible_bounds(&self) -> (bounds: Bounds<ScaledPixels>) {
        self.painted_bounds().intersect(&self.content_mask.bounds)
    }

    fn same(&self, other: &Self) -> (same: bool) {
        *self == *other
    }
}

impl View for PolychromeSprite {
    type V = PolychromeSprite;

    open spec fn view(&self) -> PolychromeSprite {
        *self
    }
}

impl Drawn for PolychromeSprite {
    open spec fn order_of(model: PolychromeSprite) -> DrawOrder {
        model.order
    }

    open spec fn painted(model: PolychromeSprite) -> Bounds<ScaledPixels> {
        model.bounds
    }

    open spec fn mask_of(model: PolychromeSprite) -> Bounds<ScaledPixels> {
        model.content_mask.bounds
    }

    fn draw_order(&self) -> (order: DrawOrder) {
        self.order
    }

    fn painted_bounds(&self) -> (bounds: Bounds<ScaledPixels>) {
        self.bounds
    }

    fn visible_bounds(&self) -> (bounds: Bounds<ScaledPixels>) {
        self.painted_bounds().intersect(&self.content_mask.bounds)
    }

    fn same(&self, other: &Self) -> (same: bool) {
        *self == *other
    }
}

impl View for PaintSurface {
    type V = PaintSurface;

    open spec fn view(&self) -> PaintSurface {
        *self
    }
}

impl Drawn for PaintSurface {
    open spec fn order_of(model: PaintSurface) -> DrawOrder {
        model.order
    }

    open spec fn painted(model: PaintSurface) -> Bounds<ScaledPixels> {
        model.bounds
    }

    open spec fn mask_of(model: PaintSurface) -> Bounds<ScaledPixels> {
        model.content_mask.bounds
    }

    fn draw_order(&self) -> (order: DrawOrder) {
        self.order
    }

    fn painted_bounds(&self) -> (bounds: Bounds<ScaledPixels>) {
        self.bounds
    }

    fn visible_bounds(&self) -> (bounds: Bounds<ScaledPixels>) {
        self.painted_bounds().intersect(&self.content_mask.bounds)
    }

    fn same(&self, other: &Self) -> (same: bool) {
        *self == *other
    }
}

impl View for Path<ScaledPixels> {
    type V = PathModel;

    open spec fn view(&self) -> PathModel {
        PathModel {
            order: self.order,
            bounds: self.bounds,
            content_mask: self.content_mask,
            vertices: self.vertices@,
            color: self.color,
        }
    }
}

impl Drawn for Path<ScaledPixels> {
    open spec fn order_of(model: PathModel) -> DrawOrder {
        model.order
    }

    open spec fn painted(model: PathModel) -> Bounds<ScaledPixels> {
        model.bounds
    }

    open spec fn mask_of(model: PathModel) -> Bounds<ScaledPixels> {
        model.content_mask.bounds
    }

    fn draw_order(&self) -> (order: DrawOrder) {
        self.order
    }

    fn painted_bounds(&self) -> (bounds: Bounds<ScaledPixels>) {
        self.bounds
    }

    fn visible_bounds(&self) -> (bounds: Bounds<ScaledPixels>) {
        self.clipped_bounds()
    }

    fn same(&self, other: &Self) -> (same: bool) {
        self.order == other.order && self.bounds == other.bounds && self.content_mask
            == other.content_mask && self.color == other.color && same_vertices(
            &self.vertices,
            &other.vertices,
        )
    }
}

impl Path<ScaledPixels> {
    /// The bounds without what the content mask clips away.
    pub fn clipped_bounds(&self) -> (bounds: Bounds<ScaledPixels>)
        ensures
            bounds == self.bounds.clipped(self.content_mask.bounds),
    {
        self.bounds.intersect(&self.content_mask.bounds)
    }
}

/// Whether two lists of vertices are the same, bit for bit.
fn same_vertices(
    a: &Vec<PathVertex<ScaledPixels>>,
    b: &Vec<PathVertex<ScaledPixels>>,
) -> (same: bool)
    ensures
        same == (a@ == b@),
{
    if a.len() != b.len() {
        return false;
    }
    let mut i: usize = 0;
    while i < a.len()
        invariant
            a.len() == b.len(),
            i <= a.len(),
            forall|j: int| 0 <= j < i ==> a@[j] == b@[j],
        decreases a.len() - i,
    {
        if a[i] != b[i] {
            assert(a@[i as int] != b@[i as int]);
            return false;
        }
        i = i + 1;
    }
    assert(a@ =~= b@);
    true
}

/// A primitive of any kind.
#[derive(Clone, Debug)]
pub enum Primitive {
    Shadow(Shadow),
    Quad(Quad),
    Path(Path<ScaledPixels>),
    Underline(Underline),
    MonochromeSprite(MonochromeSprite),
    SubpixelSprite(SubpixelSprite),
    PolychromeSprite(PolychromeSprite),
    Surface(PaintSurface),
}

impl Primitive {
    /// The rectangle that the primitive was given.
    pub open spec fn extent(self) -> Bounds<ScaledPixels> {
        match self {
            Primitive::Shadow(p) => p.bounds,
            Primitive::Quad(p) => p.bounds,
            Primitive::Path(p) => p.bounds,
            Primitive::Underline(p) => p.bounds,
            Primitive::MonochromeSprite(p) => p.bounds,
            Primitive::SubpixelSprite(p) => p.bounds,
            Primitive::PolychromeSprite(p) => p.bounds,
            Primitive::Surface(p) => p.bounds,
        }
    }

    /// The rectangle that the primitive is clipped to.
    pub open spec fn mask(self) -> Bounds<ScaledPixels> {
        match self {
            Primitive::Shadow(p) => p.content_mask.bounds,
            Primitive::Quad(p) => p.content_mask.bounds,
            Primitive::Path(p) => p.content_mask.bounds,
            Primitive::Underline(p) => p.content_mask.bounds,
            Primitive::MonochromeSprite(p) => p.content_mask.bounds,
            Primitive::SubpixelSprite(p) => p.content_mask.bounds,
            Primitive::PolychromeSprite(p) => p.content_mask.bounds,
            Primitive::Surface(p) => p.content_mask.bounds,
        }
    }

    /// The rectangle that the primitive was given.
    pub fn bounds(&self) -> (bounds: Bounds<ScaledPixels>)
        ensures
            bounds == self.extent(),
    {
        match self {
            Primitive::Shadow(p) => p.bounds,
            Primitive::Quad(p) => p.bounds,
            Primitive::Path(p) => p.bounds,
            Primitive::Underline(p) => p.bounds,
            Primitive::MonochromeSprite(p) => p.bounds,
            Primitive::SubpixelSprite(p) => p.bounds,
            Primitive::PolychromeSprite(p) => p.bounds,
            Primitive::Surface(p) => p.bounds,
        }
    }

    /// The rectangle that the primitive is clipped to.
    pub fn content_mask(&self) -> (mask: ContentMask<ScaledPixels>)
        ensures
            mask.bounds == self.mask(),
    {
        match self {
            Primitive::Shadow(p) => p.content_mask,
            Primitive::Quad(p) => p.content_mask,
            Primitive::Path(p) => p.content_mask,
            Primitive::Underline(p) => p.content_mask,
            Primitive::MonochromeSprite(p) => p.content_mask,
            Primitive::SubpixelSprite(p) => p.content_mask,
            Primitive::PolychromeSprite(p) => p.content_mask,
            Primitive::Surface(p) => p.content_mask,
        }
    }
}

/// Where a primitive was painted, and at which place in the order.
#[derive(Clone, Copy, Debug, Default, PartialEq, Eq, Structural)]
pub struct Placed {
    pub order: DrawOrder,
    pub bounds: Bounds<ScaledPixels>,
}

/// What is drawn in one frame.
#[derive(Clone, Debug)]
pub struct Scene {
    pub shadows: Vec<Shadow>,
    pub quads: Vec<Quad>,
    pub paths: Vec<Path<ScaledPixels>>,
    pub underlines: Vec<Underline>,
    pub monochrome_sprites: Vec<MonochromeSprite>,
    pub subpixel_sprites: Vec<SubpixelSprite>,
    pub polychrome_sprites: Vec<PolychromeSprite>,
    pub surfaces: Vec<PaintSurface>,
    /// Where primitives were painted so far, clipped.
    pub primitive_bounds: Vec<Placed>,
}

/// What a scene holds.
#[verifier::ext_equal]
pub struct SceneModel {
    pub shadows: Seq<Shadow>,
    pub quads: Seq<Quad>,
    pub paths: Seq<PathModel>,
    pub underlines: Seq<Underline>,
    pub monochrome_sprites: Seq<MonochromeSprite>,
    pub subpixel_sprites: Seq<SubpixelSprite>,
    pub polychrome_sprites: Seq<PolychromeSprite>,
    pub surfaces: Seq<PaintSurface>,
    pub primitive_bounds: Seq<Placed>,
}

/// A list of primitives, each by its view.
pub open spec fn models<T: View>(list: Seq<T>) -> Seq<T::V> {
    list.map_values(|item: T| item@)
}

impl View for Scene {
    type V = SceneModel;

    open spec fn view(&self) -> SceneModel {
        SceneModel {
            shadows: models(self.shadows@),
            quads: models(self.quads@),
            paths: models(self.paths@),
            underlines: models(self.underlines@),
            monochrome_sprites: models(self.monochrome_sprites@),
            subpixel_sprites: models(self.subpixel_sprites@),
            polychrome_sprites: models(self.polychrome_sprites@),
            surfaces: models(self.surfaces@),
            primitive_bounds: self.primitive_bounds@,
        }
    }
}

/// The highest place among what was painted across `bounds`, or 0.
pub open spec fn topmost(placed: Seq<Placed>, bounds: Bounds<ScaledPixels>) -> DrawOrder
    decreases placed.len(),
{
    if placed.len() == 0 {
        0
    } else {
        let below = topmost(placed.drop_last(), bounds);
        if placed.last().bounds.overlaps(bounds) && placed.last().order > below {
            placed.last().order
        } else {
            below
        }
    }
}

/// The place above another, as long as there is one.
pub open spec fn order_above(order: DrawOrder) -> DrawOrder {
    if order < DrawOrder::MAX {
        (order + 1) as DrawOrder
    } else {
        order
    }
}

impl SceneModel {
    /// The scene with nothing in it.
    pub open spec fn empty() -> SceneModel {
        SceneModel {
            shadows: Seq::empty(),
            quads: Seq::empty(),
            paths: Seq::empty(),
            underlines: Seq::empty(),
            monochrome_sprites: Seq::empty(),
            subpixel_sprites: Seq::empty(),
            polychrome_sprites: Seq::empty(),
            surfaces: Seq::empty(),
            primitive_bounds: Seq::empty(),
        }
    }

    /// The scene with one more primitive, painted above what it meets.
    pub open spec fn with(self, primitive: Primitive) -> SceneModel {
        let clipped = primitive.extent().clipped(primitive.mask());
        let order = order_above(topmost(self.primitive_bounds, clipped));
        let primitive_bounds = self.primitive_bounds.push(Placed { order, bounds: clipped });
        if clipped.empty() {
            self
        } else {
            match primitive {
                Primitive::Shadow(p) => SceneModel {
                    shadows: self.shadows.push(Shadow { order, ..p }),
                    primitive_bounds,
                    ..self
                },
                Primitive::Quad(p) => SceneModel {
                    quads: self.quads.push(Quad { order, ..p }),
                    primitive_bounds,
                    ..self
                },
                Primitive::Path(p) => SceneModel {
                    paths: self.paths.push(PathModel { order, ..p@ }),
                    primitive_bounds,
                    ..self
                },
                Primitive::Underline(p) => SceneModel {
                    underlines: self.underlines.push(Underline { order, ..p }),
                    primitive_bounds,
                    ..self
                },
                Primitive::MonochromeSprite(p) => SceneModel {
                    monochrome_sprites: self.monochrome_sprites.push(MonochromeSprite { order, ..p }),
                    primitive_bounds,
                    ..self
                },
                Primitive::SubpixelSprite(p) => SceneModel {
                    subpixel_sprites: self.subpixel_sprites.push(SubpixelSprite { order, ..p }),
                    primitive_bounds,
                    ..self
                },
                Primitive::PolychromeSprite(p) => SceneModel {
                    polychrome_sprites: self.polychrome_sprites.push(PolychromeSprite { order, ..p }),
                    primitive_bounds,
                    ..self
                },
                Primitive::Surface(p) => SceneModel {
                    surfaces: self.surfaces.push(PaintSurface { order, ..p }),
                    primitive_bounds,
                    ..self
                },
            }
        }
    }

    /// The scene with every kind sorted by draw order.
    pub open spec fn sorted(self) -> SceneModel {
        SceneModel {
            shadows: in_order::<Shadow>(self.shadows),
            quads: in_order::<Quad>(self.quads),
            paths: in_order::<Path<ScaledPixels>>(self.paths),
            underlines: in_order::<Underline>(self.underlines),
            monochrome_sprites: in_order::<MonochromeSprite>(self.monochrome_sprites),
            subpixel_sprites: in_order::<SubpixelSprite>(self.subpixel_sprites),
            polychrome_sprites: in_order::<PolychromeSprite>(self.polychrome_sprites),
            surfaces: in_order::<PaintSurface>(self.surfaces),
            ..self
        }
    }

    /// Whether every kind is sorted by draw order.
    pub open spec fn finished(self) -> bool {
        &&& ascending::<Shadow>(self.shadows)
        &&& ascending::<Quad>(self.quads)
        &&& ascending::<Path<ScaledPixels>>(self.paths)
        &&& ascending::<Underline>(self.underlines)
        &&& ascending::<MonochromeSprite>(self.monochrome_sprites)
        &&& ascending::<SubpixelSprite>(self.subpixel_sprites)
        &&& ascending::<PolychromeSprite>(self.polychrome_sprites)
        &&& ascending::<PaintSurface>(self.surfaces)
    }
}

/// Whether the draw order does not fall along a list.
pub open spec fn ascending<T: Drawn>(list: Seq<T::V>) -> bool {
    forall|i: int, j: int|
        0 <= i <= j < list.len() ==> T::order_of(#[trigger] list[i]) <= T::order_of(
            #[trigger] list[j],
        )
}

/// A list sorted by draw order, those of one order in the order they came.
pub open spec fn in_order<T: Drawn>(list: Seq<T::V>) -> Seq<T::V>
    decreases list.len(),
{
    if list.len() == 0 {
        list
    } else {
        inserted::<T>(in_order::<T>(list.drop_last()), list.last())
    }
}

/// A sorted list with one more item, behind those of its own order.
pub open spec fn inserted<T: Drawn>(list: Seq<T::V>, item: T::V) -> Seq<T::V>
    decreases list.len(),
{
    if list.len() > 0 && T::order_of(list.last()) > T::order_of(item) {
        inserted::<T>(list.drop_last(), item).push(list.last())
    } else {
        list.push(item)
    }
}

impl Default for Scene {
    fn default() -> (scene: Scene)
        ensures
            scene@ == SceneModel::empty(),
            scene.shadows@.len() == 0 && scene.quads@.len() == 0 && scene.paths@.len() == 0,
            scene.underlines@.len() == 0 && scene.monochrome_sprites@.len() == 0,
            scene.subpixel_sprites@.len() == 0 && scene.polychrome_sprites@.len() == 0,
            scene.surfaces@.len() == 0 && scene.primitive_bounds@.len() == 0,
    {
        let scene = Scene {
            shadows: Vec::new(),
            quads: Vec::new(),
            paths: Vec::new(),
            underlines: Vec::new(),
            monochrome_sprites: Vec::new(),
            subpixel_sprites: Vec::new(),
            polychrome_sprites: Vec::new(),
            surfaces: Vec::new(),
            primitive_bounds: Vec::new(),
        };
        assert(scene@ =~= SceneModel::empty());
        scene
    }
}

impl Scene {
    /// The highest place among what was painted across `bounds`, or 0.
    fn topmost_below(&self, bounds: &Bounds<ScaledPixels>) -> (order: DrawOrder)
        ensures
            order == topmost(self@.primitive_bounds, *bounds),
    {
        let mut order: DrawOrder = 0;
        let mut i: usize = 0;
        let ghost placed = self.primitive_bounds@;
        while i < self.primitive_bounds.len()
            invariant
                i <= self.primitive_bounds.len(),
                placed == self.primitive_bounds@,
                order == topmost(placed.take(i as int), *bounds),
            decreases self.primitive_bounds.len() - i,
        {
            assert(placed.take(i + 1).drop_last() =~= placed.take(i as int));
            let entry = self.primitive_bounds[i];
            if entry.bounds.intersects(bounds) && entry.order > order {
                order = entry.order;
            }
            i = i + 1;
        }
        assert(placed.take(placed.len() as int) =~= placed);
        order
    }

    /// Adds a primitive above everything it overlaps; one that is clipped away is left out.
    pub fn insert_primitive(&mut self, primitive: Primitive)
        ensures
            final(self)@ == old(self)@.with(primitive),
    {
        let clipped = primitive.bounds().intersect(&primitive.content_mask().bounds);
        if clipped.is_empty() {
            return;
        }
        let order: DrawOrder = self.topmost_below(&clipped).saturating_add(1);
        let ghost before = self@;
        self.primitive_bounds.push(Placed { order, bounds: clipped });
        match primitive {
            Primitive::Shadow(p) => {
                let mut p = p;
                p.order = order;
                self.shadows.push(p);
                assert(self@.shadows =~= before.shadows.push(p@));
            },
            Primitive::Quad(p) => {
                let mut p = p;
                p.order = order;
                self.quads.push(p);
                assert(self@.quads =~= before.quads.push(p@));
            },
            Primitive::Path(p) => {
                let mut p = p;
                p.order = order;
                self.paths.push(p);
                assert(self@.paths =~= before.paths.push(p@));
            },
            Primitive::Underline(p) => {
                let mut p = p;
                p.order = order;
                self.underlines.push(p);
                assert(self@.underlines =~= before.underlines.push(p@));
            },
            Primitive::MonochromeSprite(p) => {
                let mut p = p;
                p.order = order;
                self.monochrome_sprites.push(p);
                assert(self@.monochrome_sprites =~= before.monochrome_sprites.push(p@));
            },
            Primitive::SubpixelSprite(p) => {
                let mut p = p;
                p.order = order;
                self.subpixel_sprites.push(p);
                assert(self@.subpixel_sprites =~= before.subpixel_sprites.push(p@));
            },
            Primitive::PolychromeSprite(p) => {
                let mut p = p;
                p.order = order;
                self.polychrome_sprites.push(p);
                assert(self@.polychrome_sprites =~= before.polychrome_sprites.push(p@));
            },
            Primitive::Surface(p) => {
                let mut p = p;
                p.order = order;
                self.surfaces.push(p);
                assert(self@.surfaces =~= before.surfaces.push(p@));
            },
        }
        assert(self@ =~= before.with(primitive));
    }

    /// Sorts every kind by draw order, which makes the scene ready to be rendered.
    pub fn finish(&mut self)
        ensures
            final(self)@ == old(self)@.sorted(),
    {
        sort_by_order(&mut self.shadows);
        sort_by_order(&mut self.quads);
        sort_by_order(&mut self.paths);
        sort_by_order(&mut self.underlines);
        sort_by_order(&mut self.monochrome_sprites);
        sort_by_order(&mut self.subpixel_sprites);
        sort_by_order(&mut self.polychrome_sprites);
        sort_by_order(&mut self.surfaces);
    }
}

/// Sorts a list by draw order, keeping those of one order as they came.
fn sort_by_order<T: Drawn>(list: &mut Vec<T>)
    ensures
        models(final(list)@) == in_order::<T>(models(old(list)@)),
{
    let ghost whole = models(list@);
    let mut i: usize = 0;
    assert(models(list@).take(0) =~= in_order::<T>(whole.take(0)));
    while i < list.len()
        invariant
            i <= list.len(),
            list.len() == whole.len(),
            models(list@).take(i as int) == in_order::<T>(whole.take(i as int)),
            models(list@).skip(i as int) == whole.skip(i as int),
        decreases list.len() - i,
    {
        let ghost before = models(list@);
        let ghost sorted = before.take(i as int);
        let ghost item = before[i as int];
        assert(item == whole[i as int]) by {
            assert(before.skip(i as int)[0] == whole.skip(i as int)[0]);
        }
        assert(whole.take(i + 1).drop_last() =~= whole.take(i as int));
        let order: DrawOrder = list[i].draw_order();
        let mut at: usize = i;
        while at > 0 && list[at - 1].draw_order() > order
            invariant
                at <= i < list.len(),
                before == models(list@),
                sorted == before.take(i as int),
                order == T::order_of(item),
                forall|k: int| at <= k < i ==> T::order_of(#[trigger] sorted[k]) > order,
            decreases at,
        {
            assert(sorted[at - 1] == list@[at - 1]@);
            at = at - 1;
        }
        proof {
            if at > 0 {
                assert(sorted[at - 1] == list@[at - 1]@);
            }
            lemma_inserted::<T>(sorted, item, at as int);
        }
        if at < i {
            let moved = list.remove(i);
            list.insert(at, moved);
        }
        proof {
            assert(models(list@).take(i + 1) =~= sorted.insert(at as int, item));
            assert(models(list@).skip(i + 1) =~= whole.skip(i + 1)) by {
                assert forall|k: int| i + 1 <= k < whole.len() implies models(list@)[k] == whole[k] by {
                    assert(before.skip(i as int)[k - i] == whole.skip(i as int)[k - i]);
                }
            }
        }
        i = i + 1;
    }
    assert(models(list@).take(i as int) =~= models(list@));
    assert(whole.take(i as int) =~= whole);
}

/// An item goes behind the last one that does not come after it.
proof fn lemma_inserted<T: Drawn>(list: Seq<T::V>, item: T::V, at: int)
    requires
        0 <= at <= list.len(),
        forall|k: int| at <= k < list.len() ==> T::order_of(#[trigger] list[k]) > T::order_of(item),
        at > 0 ==> T::order_of(list[at - 1]) <= T::order_of(item),
    ensures
        inserted::<T>(list, item) == list.insert(at, item),
    decreases list.len(),
{
    if at < list.len() {
        lemma_inserted::<T>(list.drop_last(), item, at);
        assert(list.drop_last().insert(at, item).push(list.last()) =~= list.insert(at, item));
    } else {
        assert(list.insert(at, item) =~= list.push(item));
    }
}

/// A primitive is painted above everything that it overlaps.
pub proof fn law_topmost_is_above(placed: Seq<Placed>, bounds: Bounds<ScaledPixels>, i: int)
    requires
        0 <= i < placed.len(),
        placed[i].bounds.overlaps(bounds),
    ensures
        placed[i].order <= topmost(placed, bounds),
    decreases placed.len(),
{
    if i < placed.len() - 1 {
        law_topmost_is_above(placed.drop_last(), bounds, i);
    }
}

/// Sorting a scene finishes it.
pub proof fn law_sorted_is_finished(scene: SceneModel)
    ensures
        scene.sorted().finished(),
{
    law_in_order_sorts::<Shadow>(scene.shadows);
    law_in_order_sorts::<Quad>(scene.quads);
    law_in_order_sorts::<Path<ScaledPixels>>(scene.paths);
    law_in_order_sorts::<Underline>(scene.underlines);
    law_in_order_sorts::<MonochromeSprite>(scene.monochrome_sprites);
    law_in_order_sorts::<SubpixelSprite>(scene.subpixel_sprites);
    law_in_order_sorts::<PolychromeSprite>(scene.polychrome_sprites);
    law_in_order_sorts::<PaintSurface>(scene.surfaces);
}

/// Sorting by draw order does what it says, and moves nothing in or out.
pub proof fn law_in_order_sorts<T: Drawn>(list: Seq<T::V>)
    ensures
        ascending::<T>(in_order::<T>(list)),
        in_order::<T>(list).to_multiset() == list.to_multiset(),
    decreases list.len(),
{
    broadcast use vstd::seq_lib::group_to_multiset_ensures;
    if list.len() > 0 {
        let sorted = in_order::<T>(list.drop_last());
        law_in_order_sorts::<T>(list.drop_last());
        lemma_inserted_ascending::<T>(sorted, list.last());
        assert(list.drop_last().push(list.last()) =~= list);
    }
}

proof fn lemma_inserted_ascending<T: Drawn>(list: Seq<T::V>, item: T::V)
    requires
        ascending::<T>(list),
    ensures
        ascending::<T>(inserted::<T>(list, item)),
        inserted::<T>(list, item).to_multiset() == list.to_multiset().insert(item),
        forall|k: int| 0 <= k < inserted::<T>(list, item).len() ==> (
            #[trigger] inserted::<T>(list, item)[k] == item || exists|j: int|
                0 <= j < list.len() && list[j] == inserted::<T>(list, item)[k]),
        inserted::<T>(list, item).len() == list.len() + 1,
    decreases list.len(),
{
    broadcast use vstd::seq_lib::group_to_multiset_ensures;
    if list.len() > 0 && T::order_of(list.last()) > T::order_of(item) {
        let rest = list.drop_last();
        lemma_inserted_ascending::<T>(rest, item);
        let low = inserted::<T>(rest, item);
        assert(rest.push(list.last()) =~= list);
        assert forall|k: int| 0 <= k < low.len() implies T::order_of(#[trigger] low[k])
            <= T::order_of(list.last()) by {
            if low[k] != item {
                let j = choose|j: int| 0 <= j < rest.len() && rest[j] == low[k];
                assert(list[j] == low[k]);
            }
        }
        assert(low.push(list.last()).to_multiset() =~= list.to_multiset().insert(item));
        assert forall|k: int| 0 <= k < low.push(list.last()).len() implies (
            #[trigger] low.push(list.last())[k] == item || exists|j: int|
                0 <= j < list.len() && list[j] == low.push(list.last())[k]) by {
            if k < low.len() {
                if low[k] != item {
                    let j = choose|j: int| 0 <= j < rest.len() && rest[j] == low[k];
                    assert(list[j] == low[k]);
                }
            } else {
                assert(list[list.len() - 1] == list.last());
            }
        }
    } else {
        assert forall|k: int| 0 <= k < list.push(item).len() implies (
            #[trigger] list.push(item)[k] == item || exists|j: int|
                0 <= j < list.len() && list[j] == list.push(item)[k]) by {
            if k < list.len() {
                assert(list[k] == list.push(item)[k]);
            }
        }
    }
}

} // verus!
