//! Common data models and the spec functions that describe them.
use vstd::prelude::*;

verus! {

/// Message of the error for a zero unit size.
pub const UNIT_SIZE_ZERO: &'static str = "Unit size can't be zero.";

/// Message of the error for a padding wider than the unit size.
pub const PADDING_ABOVE_UNIT: &'static str = "Unit size can't be above atlas size limit.";

/// Message of the error for a zero atlas size limit.
pub const LIMIT_ZERO: &'static str = "Atlas size limit can't be zero.";

/// Message of the error for a unit size above the atlas size limit.
pub const UNIT_ABOVE_LIMIT: &'static str = "Unit size can't be above atlas size limit.";

/// Message of the error for a group of textures that admits none of them.
pub const CANT_FIT: &'static str = "Can't fit any texture; increase atlas size.";

/// Message of the error for a file extension that names no known image format.
pub const UNKNOWN_FORMAT: &'static str = "Failed to resolve texture format.";

/// Error occurred in a dicing operation.
#[derive(Debug)]
pub enum Error {
    /// An issue with the preferences and/or the input data.
    Spec(&'static str),
    /// An issue with texture decoding or encoding.
    Image(image::ImageError),
}

impl Error {
    /// Human-readable message of the error.
    pub fn to_string(&self) -> (r: String)
        ensures
            self matches Error::Spec(m) ==> r@ == m@,
    {
        match self {
            Error::Spec(m) => String::from_str(m),
            Error::Image(e) => crate::codec::image_error_message(e),
        }
    }
}

/// Preferences of a dicing operation that shape the units, the atlases and the meshes.
#[derive(Debug, Clone, Copy)]
pub struct Prefs {
    /// The size of a single diced unit, in pixels.
    pub unit_size: u32,
    /// The size of the border, in pixels, added around each unit inside atlas textures.
    pub padding: u32,
    /// Discards fully-transparent units; the sprite rect then encloses the kept units only.
    pub trim_transparent: bool,
    /// Maximum width and height of a single generated atlas texture.
    pub atlas_size_limit: u32,
    /// Generated atlas textures are always square.
    pub atlas_square: bool,
    /// Generated atlas textures always have a power of two for width and height.
    pub atlas_pot: bool,
}

impl Prefs {
    /// The padded side of a unit inside an atlas.
    pub open spec fn padded_unit(&self) -> int {
        self.unit_size + 2 * self.padding
    }

    /// A padded unit side fits in `u32`, and the pixels of an atlas, whose side may reach
    /// twice the limit when rounded up to a power of two, fit in memory indices.
    pub open spec fn fits_machine(&self) -> bool {
        &&& self.padding <= self.unit_size ==> self.padded_unit() <= u32::MAX
        &&& 4 * self.atlas_size_limit * self.atlas_size_limit <= usize::MAX
    }
}

impl Default for Prefs {
    fn default() -> (r: Prefs)
        ensures
            r.unit_size == 64,
            r.padding == 2,
            r.trim_transparent,
            r.atlas_size_limit == 2048,
            !r.atlas_square,
            !r.atlas_pot,
    {
        Prefs {
            unit_size: 64,
            padding: 2,
            trim_transparent: true,
            atlas_size_limit: 2048,
            atlas_square: false,
            atlas_pot: false,
        }
    }
}

/// A texture pixel represented as 8-bit RGBA components.
#[derive(Debug, Clone, Copy, PartialEq, Eq, Structural, Hash)]
pub struct Pixel {
    pub r: u8,
    pub g: u8,
    pub b: u8,
    pub a: u8,
}

impl Pixel {
    pub fn new(r: u8, g: u8, b: u8, a: u8) -> (p: Pixel)
        ensures
            p == (Pixel { r, g, b, a }),
    {
        Pixel { r, g, b, a }
    }

    pub fn from_raw(raw: [u8; 4]) -> (p: Pixel)
        ensures
            p == (Pixel { r: raw@[0], g: raw@[1], b: raw@[2], a: raw@[3] }),
    {
        Pixel { r: raw[0], g: raw[1], b: raw[2], a: raw[3] }
    }

    pub fn r(&self) -> (v: u8)
        ensures
            v == self.r,
    {
        self.r
    }

    pub fn g(&self) -> (v: u8)
        ensures
            v == self.g,
    {
        self.g
    }

    pub fn b(&self) -> (v: u8)
        ensures
            v == self.b,
    {
        self.b
    }

    pub fn a(&self) -> (v: u8)
        ensures
            v == self.a,
    {
        self.a
    }

    pub fn to_raw(self) -> (raw: [u8; 4])
        ensures
            raw@ == seq![self.r, self.g, self.b, self.a],
    {
        let raw = [self.r, self.g, self.b, self.a];
        assert(raw@ =~= seq![self.r, self.g, self.b, self.a]);
        raw
    }

    /// Whether the pixel is fully transparent.
    pub open spec fn is_clear(&self) -> bool {
        self.a == 0
    }
}

/// The fully transparent black pixel that fills unused atlas space.
pub open spec fn clear_pixel() -> Pixel {
    Pixel { r: 0, g: 0, b: 0, a: 0 }
}

/// Clamps `n` into `0..=max`.
pub open spec fn clamp(n: int, max: int) -> int {
    if n < 0 {
        0
    } else if n > max {
        max
    } else {
        n
    }
}

/// A set of pixels forming a sprite texture, indexed left to right, top to bottom.
#[derive(Debug, Clone)]
pub struct Texture {
    /// Width of the texture, in pixels.
    pub width: u32,
    /// Height of the texture, in pixels.
    pub height: u32,
    /// Pixel content of the texture, row after row.
    pub pixels: Vec<Pixel>,
}

impl Texture {
    /// The pixel buffer holds exactly one pixel per cell.
    pub open spec fn wf(&self) -> bool {
        self.pixels@.len() == self.width * self.height
    }

    /// The pixel at column `x` and row `y`.
    pub open spec fn at(&self, x: int, y: int) -> Pixel {
        self.pixels@[x + y * self.width]
    }

    /// The pixel at `(x, y)`, with coordinates outside the texture clamped to the nearest edge.
    pub open spec fn sample(&self, x: int, y: int) -> Pixel {
        self.at(clamp(x, self.width - 1), clamp(y, self.height - 1))
    }

    /// The `w`×`h` block of samples whose top-left corner is `(x, y)`, row after row.
    pub open spec fn region(&self, x: int, y: int, w: nat, h: nat) -> Seq<Pixel> {
        Seq::new(w * h, |i: int| self.sample(x + i % (w as int), y + i / (w as int)))
    }
}

/// A rectangle in unsigned integer space.
#[derive(Debug, Clone, Copy, PartialEq, Eq, Structural)]
pub struct URect {
    pub x: u32,
    pub y: u32,
    pub width: u32,
    pub height: u32,
}

impl URect {
    pub fn new(x: u32, y: u32, width: u32, height: u32) -> (r: URect)
        ensures
            r == (URect { x, y, width, height }),
    {
        URect { x, y, width, height }
    }
}

/// A rectangle in signed integer space; its corner may lie left of or above the origin.
#[derive(Debug, Clone, Copy, PartialEq, Eq, Structural)]
pub struct IRect {
    pub x: i64,
    pub y: i64,
    pub width: u32,
    pub height: u32,
}

impl IRect {
    pub fn new(x: i64, y: i64, width: u32, height: u32) -> (r: IRect)
        ensures
            r == (IRect { x, y, width, height }),
    {
        IRect { x, y, width, height }
    }
}

/// A size in unsigned integer space.
#[derive(Debug, Clone, Copy, PartialEq, Eq, Structural)]
pub struct USize {
    pub width: u32,
    pub height: u32,
}

impl USize {
    pub fn new(width: u32, height: u32) -> (r: USize)
        ensures
            r == (USize { width, height }),
    {
        USize { width, height }
    }
}

/// A point in pixel space.
#[derive(Debug, Clone, Copy, PartialEq, Eq, Structural)]
pub struct Point {
    pub x: u64,
    pub y: u64,
}

/// A sprite given as input to a dicing operation.
#[derive(Debug, Clone)]
pub struct SourceSprite {
    /// Unique identifier of the sprite among others in a dicing operation.
    pub id: String,
    /// Texture containing all the pixels of the sprite.
    pub texture: Texture,
}

/// A chunk diced from a source texture.
#[derive(Debug, Clone)]
pub struct DicedUnit {
    /// Position and dimensions of the unit inside the source texture.
    pub rect: URect,
    /// Unit pixels sampled from the source texture, padding included.
    pub pixels: Vec<Pixel>,
    /// Content hash of the unit's unpadded pixels.
    pub hash: u64,
}

impl View for DicedUnit {
    type V = (URect, Seq<Pixel>, u64);

    open spec fn view(&self) -> (URect, Seq<Pixel>, u64) {
        (self.rect, self.pixels@, self.hash)
    }
}

/// Product of dicing a source sprite's texture.
#[derive(Debug, Clone)]
pub struct DicedTexture {
    /// Identifier of the source sprite.
    pub id: String,
    /// Index of the source sprite among the inputs of the dicing operation.
    pub source: usize,
    /// Dimensions of the source texture.
    pub size: USize,
    /// Diced units in scan order: columns left to right, each column top to bottom.
    pub units: Vec<DicedUnit>,
    /// Distinct hashes of the units.
    pub unique: Vec<u64>,
}

impl DicedTexture {
    /// The units, each seen through its view.
    pub open spec fn units_view(&self) -> Seq<(URect, Seq<Pixel>, u64)> {
        self.units@.map_values(|u: DicedUnit| u@)
    }

    /// The hashes of the units, in unit order.
    pub open spec fn hashes(&self) -> Seq<u64> {
        self.units@.map_values(|u: DicedUnit| u.hash)
    }

    /// `unique` holds the hashes of the units, each once, in order of first appearance.
    pub open spec fn unique_in_order(&self) -> bool {
        self.unique@ == first_occurrences(self.hashes())
    }

    /// `unique` holds each hash of a unit exactly once.
    pub open spec fn unique_wf(&self) -> bool {
        &&& self.unique@.no_duplicates()
        &&& self.unique@.to_set() == self.hashes().to_set()
    }
}

/// The distinct values of `s`, each at its first appearance.
pub open spec fn first_occurrences(s: Seq<u64>) -> Seq<u64>
    decreases s.len(),
{
    if s.len() == 0 {
        seq![]
    } else {
        let p = first_occurrences(s.drop_last());
        if p.contains(s.last()) {
            p
        } else {
            p.push(s.last())
        }
    }
}

} // verus!
