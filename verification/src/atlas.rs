//! CPU-side texture atlas.
//!
//! Rasterised glyphs and decoded pictures are placed into one square texture
//! per kind. The rectangles come from etagere's bucketed shelf allocator; the
//! atlas keeps the CPU copy of each texture, remembers which regions changed
//! since the renderer last uploaded them, and decides when a texture has to
//! grow and which tile may give its space back.

use vstd::prelude::*;
use std::collections::HashMap;
use vstd::std_specs::iter::IteratorSpec;
use etagere::{AllocId, BucketedAtlasAllocator, size2};

verus! {

broadcast use vstd::std_specs::hash::group_hash_axioms;

// ---------------------------------------------------------------------------
// The allocator, as far as its source shows it
// ---------------------------------------------------------------------------

#[verifier::external_type_specification]
#[verifier::external_body]
pub struct ExBucketedAtlasAllocator(BucketedAtlasAllocator);

/// The regions etagere's bucketed allocator currently hands out, by serialized
/// allocation id, as `(min_x, min_y, max_x, max_y)`.
pub uninterp spec fn allocated_regions(allocator: BucketedAtlasAllocator) -> Map<u32, (i32, i32, i32, i32)>;

/// The side lengths the allocator was created or last grown with.
pub uninterp spec fn allocator_extent(allocator: BucketedAtlasAllocator) -> (i32, i32);

/// Which allocation `BucketedAtlasAllocator::allocate` picks for a request: a
/// function of the allocator's whole internal state and the requested size.
pub uninterp spec fn allocation_choice(allocator: BucketedAtlasAllocator, width: i32, height: i32) -> Option<(u32, (i32, i32, i32, i32))>;

/// Largest side any allocator of this module is created or grown with.
pub const ALLOCATOR_SIDE_LIMIT: i32 = 16384;

/// `BucketedAtlasAllocator::new` with a square size: nothing is allocated and
/// the extent is the size it was made with.
#[verifier::external_body]
fn allocator_new(side: i32) -> (allocator: BucketedAtlasAllocator)
    requires
        0 < side <= ALLOCATOR_SIDE_LIMIT,
    ensures
        allocated_regions(allocator).dom() == Set::<u32>::empty(),
        allocator_extent(allocator) == (side, side),
{
    BucketedAtlasAllocator::new(size2(side, side))
}

/// Whether two regions `(min_x, min_y, max_x, max_y)` share no pixel.
pub open spec fn rects_apart(a: (i32, i32, i32, i32), b: (i32, i32, i32, i32)) -> bool {
    a.2 <= b.0 || b.2 <= a.0 || a.3 <= b.1 || b.3 <= a.1
}

/// Whether the live regions of an allocator are pairwise apart.
pub open spec fn regions_apart(regions: Map<u32, (i32, i32, i32, i32)>) -> bool {
    forall|a: u32, b: u32| #[trigger] regions.contains_key(a) && #[trigger] regions.contains_key(b) && a != b
        ==> rects_apart(regions[a], regions[b])
}

/// `BucketedAtlasAllocator::allocate`. A request that is empty or wider or
/// taller than the allocator gets nothing; a granted region is exactly as wide
/// as asked, at least as tall (it spans its shelf), lies inside the extent,
/// shares no pixel with a live region (it is cut from free shelf space), and
/// carries an id no live region has. The allocator's extent does not change.
#[verifier::external_body]
fn allocator_allocate(allocator: &mut BucketedAtlasAllocator, width: i32, height: i32) -> (result: Option<(u32, (i32, i32, i32, i32))>)
    ensures
        result == allocation_choice(*old(allocator), width, height),
        allocator_extent(*final(allocator)) == allocator_extent(*old(allocator)),
        (width <= 0 || height <= 0 || width > allocator_extent(*old(allocator)).0 || height > allocator_extent(*old(allocator)).1) ==> result is None,
        result is None ==> allocated_regions(*final(allocator)) == allocated_regions(*old(allocator)),
        result is Some ==> ({
            let (id, rect) = result->0;
            &&& !allocated_regions(*old(allocator)).contains_key(id)
            &&& allocated_regions(*final(allocator)) == allocated_regions(*old(allocator)).insert(id, rect)
            &&& 0 <= rect.0 && 0 <= rect.1
            &&& rect.2 - rect.0 == width
            &&& rect.3 - rect.1 >= height
            &&& rect.2 <= allocator_extent(*old(allocator)).0
            &&& rect.3 <= allocator_extent(*old(allocator)).1
            &&& forall|other: u32| #[trigger] allocated_regions(*old(allocator)).contains_key(other)
                ==> rects_apart(rect, allocated_regions(*old(allocator))[other])
        }),
{
    match allocator.allocate(size2(width, height)) {
        Some(allocation) => Some((
            allocation.id.serialize(),
            (allocation.rectangle.min.x, allocation.rectangle.min.y, allocation.rectangle.max.x, allocation.rectangle.max.y),
        )),
        None => None,
    }
}

/// `BucketedAtlasAllocator::deallocate` of a live region: the region is gone
/// and nothing else changes. (An id that is not live makes it panic.)
#[verifier::external_body]
fn allocator_deallocate(allocator: &mut BucketedAtlasAllocator, id: u32)
    requires
        allocated_regions(*old(allocator)).contains_key(id),
    ensures
        allocated_regions(*final(allocator)) == allocated_regions(*old(allocator)).remove(id),
        allocator_extent(*final(allocator)) == allocator_extent(*old(allocator)),
{
    allocator.deallocate(AllocId::deserialize(id))
}

/// `BucketedAtlasAllocator::grow` to a larger square: the regions already
/// handed out keep their coordinates and the extent becomes the new size.
/// (Shrinking makes it panic.)
#[verifier::external_body]
fn allocator_grow(allocator: &mut BucketedAtlasAllocator, side: i32)
    requires
        allocator_extent(*old(allocator)).0 <= side,
        allocator_extent(*old(allocator)).1 <= side,
        side <= ALLOCATOR_SIDE_LIMIT,
    ensures
        allocated_regions(*final(allocator)) == allocated_regions(*old(allocator)),
        allocator_extent(*final(allocator)) == (side, side),
{
    allocator.grow(size2(side, side))
}

// ---------------------------------------------------------------------------
// Plain data
// ---------------------------------------------------------------------------

/// Side every atlas texture starts at.
pub const ATLAS_START_DIM: u32 = 2048;

/// Largest side an atlas may grow to, whatever the device allows.
pub const ATLAS_MAX_DIM: u32 = 8192;

/// The three textures an atlas keeps, one per kind of content.
#[derive(Clone, Copy, Debug, PartialEq, Eq, Structural)]
pub enum TextureKind {
    Monochrome,
    Polychrome,
    Subpixel,
}

impl TextureKind {
    pub open spec fn spec_index(self) -> int {
        match self {
            TextureKind::Monochrome => 0,
            TextureKind::Polychrome => 1,
            TextureKind::Subpixel => 2,
        }
    }

    pub open spec fn spec_bytes_per_pixel(self) -> int {
        match self {
            TextureKind::Monochrome => 1,
            _ => 4,
        }
    }

    /// Position of this kind's texture in the atlas.
    pub fn index(&self) -> (index: u32)
        ensures
            index == self.spec_index(),
    {
        match self {
            TextureKind::Monochrome => 0,
            TextureKind::Polychrome => 1,
            TextureKind::Subpixel => 2,
        }
    }
}

/// Bytes one pixel of a texture of this kind occupies: a coverage byte for
/// monochrome glyphs, four channels otherwise.
pub fn bytes_per_pixel(kind: TextureKind) -> (bpp: usize)
    ensures
        bpp == kind.spec_bytes_per_pixel(),
{
    match kind {
        TextureKind::Monochrome => 1,
        TextureKind::Polychrome | TextureKind::Subpixel => 4,
    }
}

/// Whether a picture of `width` x `height` is longer than `limit` on either
/// side (the limit is compared as the signed pixel count it stands for).
pub fn exceeds_limit(width: i32, height: i32, limit: u32) -> (exceeds: bool)
    ensures
        exceeds == (width > limit as i32 || height > limit as i32),
{
    let limit = limit as i32;
    width > limit || height > limit
}

/// Bytes a four-channel picture of `width` x `height` occupies.
pub fn image_byte_len(width: i32, height: i32) -> (len: usize)
    requires
        0 <= width,
        0 <= height,
        width * height * 4 <= usize::MAX,
    ensures
        len == width * height * 4,
{
    proof {
        vstd::arithmetic::mul::lemma_mul_nonnegative(width as int, height as int);
    }
    (width as usize) * (height as usize) * 4
}

/// The size a picture of `width` x `height` is shrunk to so that its longest
/// side is `longest`, keeping the aspect ratio and never collapsing a side to
/// nothing.
pub open spec fn spec_scaled_size(width: int, height: int, longest: int) -> (int, int) {
    if width >= height {
        (longest, vstd::math::max(longest * height / width, 1))
    } else {
        (vstd::math::max(longest * width / height, 1), longest)
    }
}

/// Target size for shrinking a picture; see `spec_scaled_size`.
pub fn scaled_size(width: i32, height: i32, longest: u32) -> (size: (u32, u32))
    requires
        0 < width,
        0 < height,
    ensures
        size.0 == spec_scaled_size(width as int, height as int, longest as int).0,
        size.1 == spec_scaled_size(width as int, height as int, longest as int).1,
        size.0 <= vstd::math::max(longest as int, 1),
        size.1 <= vstd::math::max(longest as int, 1),
{
    let w = width as u64;
    let h = height as u64;
    let l = longest as u64;
    if w >= h {
        assert(l * h <= l * w) by (nonlinear_arith)
            requires h <= w;
        assert((l * h) as int / (w as int) <= l as int) by (nonlinear_arith)
            requires l * h <= l * w, 0 < w;
        assert(l * h <= 0xffff_ffff * 0x7fff_ffff) by (nonlinear_arith)
            requires l <= 0xffff_ffff, h <= 0x7fff_ffff;
        let scaled = l * h / w;
        let other = if scaled > 1 { scaled } else { 1 };
        (longest, other as u32)
    } else {
        assert(l * w <= l * h) by (nonlinear_arith)
            requires w <= h;
        assert((l * w) as int / (h as int) <= l as int) by (nonlinear_arith)
            requires l * w <= l * h, 0 < h;
        assert(l * w <= 0xffff_ffff * 0x7fff_ffff) by (nonlinear_arith)
            requires l <= 0xffff_ffff, w <= 0x7fff_ffff;
        let scaled = l * w / h;
        let other = if scaled > 1 { scaled } else { 1 };
        (other as u32, longest)
    }
}


// ---------------------------------------------------------------------------
// Pixel layout
// ---------------------------------------------------------------------------

/// `n` zero bytes.
pub open spec fn zeros(n: int) -> Seq<u8> {
    Seq::new(n as nat, |i: int| 0u8)
}

/// The first `rows` rows of a texture re-laid from `old_stride` bytes per row
/// to `new_stride`: each of the `old_rows` old rows keeps its bytes at the
/// start of its row and everything the growth added is zero.
pub open spec fn widened_rows(old: Seq<u8>, old_stride: int, new_stride: int, old_rows: int, rows: int) -> Seq<u8>
    decreases rows,
{
    if rows <= 0 {
        Seq::empty()
    } else {
        let r = rows - 1;
        widened_rows(old, old_stride, new_stride, old_rows, r) + if r < old_rows {
            old.subrange(r * old_stride, r * old_stride + old_stride) + zeros(new_stride - old_stride)
        } else {
            zeros(new_stride)
        }
    }
}

/// Replace `len` bytes of `pixels` at `at` by `bytes`.
pub open spec fn splice(pixels: Seq<u8>, at: int, bytes: Seq<u8>) -> Seq<u8> {
    pixels.subrange(0, at) + bytes + pixels.subrange(at + bytes.len(), pixels.len() as int)
}

/// `pixels` after the first `rows` rows of `source` (`row_len` bytes each)
/// were written at byte column `x_off` of rows `y..` of a texture with
/// `stride` bytes per row. A row that the source or the texture is too short
/// for is left out.
pub open spec fn pasted_rows(pixels: Seq<u8>, stride: int, x_off: int, y: int, source: Seq<u8>, row_len: int, rows: int) -> Seq<u8>
    decreases rows,
{
    if rows <= 0 {
        pixels
    } else {
        let r = rows - 1;
        let before = pasted_rows(pixels, stride, x_off, y, source, row_len, r);
        let dst = (y + r) * stride + x_off;
        let src = r * row_len;
        if src + row_len <= source.len() && dst + row_len <= before.len() {
            splice(before, dst, source.subrange(src, src + row_len))
        } else {
            before
        }
    }
}

/// The bytes of `rows` rows of `row_len` bytes starting at byte column
/// `x_off` of row `y`, one row after the other.
pub open spec fn region_rows(pixels: Seq<u8>, stride: int, x_off: int, y: int, row_len: int, rows: int) -> Seq<u8>
    decreases rows,
{
    if rows <= 0 {
        Seq::empty()
    } else {
        let r = rows - 1;
        let start = (y + r) * stride + x_off;
        region_rows(pixels, stride, x_off, y, row_len, r) + pixels.subrange(start, start + row_len)
    }
}

// ---------------------------------------------------------------------------
// Tiles and textures
// ---------------------------------------------------------------------------

/// A rectangle in device pixels.
#[derive(Clone, Copy, Debug, PartialEq, Eq, Structural)]
pub struct TileBounds {
    pub x: i32,
    pub y: i32,
    pub width: i32,
    pub height: i32,
}

/// Where a placed picture lives.
#[derive(Clone, Copy, Debug, PartialEq, Eq, Structural)]
pub struct AtlasTile {
    pub texture_index: u32,
    pub kind: TextureKind,
    pub tile_id: u32,
    pub padding: u32,
    pub bounds: TileBounds,
}

/// What a picture is stored under. The id stands for the whole key of the
/// picture - for a glyph its font, size, subpixel offset and glyph, for an
/// image the image's own id - and the embedding hands out one id per
/// distinct key, so equal ids name the same picture and with it the same
/// kind and image flag. Tiles are found by the id alone. The kind is the
/// texture a picture with that id belongs in, and an image is a decoded
/// picture rather than a rasterised glyph.
#[derive(Clone, Copy, Debug, PartialEq, Eq, Structural)]
pub struct AtlasKey {
    pub id: u64,
    pub kind: TextureKind,
    pub is_image: bool,
}

/// Pixels handed to the atlas: `width` x `height` pixels, row after row.
#[derive(Clone, Debug)]
pub struct Raster {
    pub width: i32,
    pub height: i32,
    pub bytes: Vec<u8>,
}

/// A region the renderer has to upload again, with its pixels.
#[derive(Clone, Debug)]
pub struct AtlasUpload {
    pub kind: TextureKind,
    pub x: u32,
    pub y: u32,
    pub width: u32,
    pub height: u32,
    pub data: Vec<u8>,
}

/// Why a picture could not be placed.
#[derive(Clone, Debug, PartialEq, Eq)]
pub enum AtlasError {
    /// Producing the pixels failed.
    Build(String),
    /// The texture of `kind` is `texture_side` square and has no room left for
    /// a `width` x `height` region.
    NoRoom { kind: TextureKind, texture_side: u32, width: i32, height: i32 },
}

struct AtlasTexture {
    kind: TextureKind,
    width: u32,
    height: u32,
    cpu: Vec<u8>,
}

struct TileRecord {
    tile: AtlasTile,
    /// The frame this tile was last painted in.
    last_used: u64,
}

/// Whether `(min_x, min_y, max_x, max_y)` lies inside a `width` x `height`
/// texture.
pub open spec fn region_inside(rect: (i32, i32, i32, i32), width: int, height: int) -> bool {
    &&& 0 <= rect.0 <= rect.2 <= width
    &&& 0 <= rect.1 <= rect.3 <= height
}

/// Whether `bounds` lies inside a `width` x `height` texture.
pub open spec fn bounds_inside(bounds: TileBounds, width: int, height: int) -> bool {
    &&& 0 <= bounds.x
    &&& 0 <= bounds.y
    &&& 0 <= bounds.width
    &&& 0 <= bounds.height
    &&& bounds.x + bounds.width <= width
    &&& bounds.y + bounds.height <= height
}

/// Whether `bounds` and the allocator region `rect` are the same rectangle.
pub open spec fn bounds_are(bounds: TileBounds, rect: (i32, i32, i32, i32)) -> bool {
    &&& bounds.x == rect.0
    &&& bounds.y == rect.1
    &&& bounds.x + bounds.width == rect.2
    &&& bounds.y + bounds.height == rect.3
}

spec fn texture_wf(texture: AtlasTexture, kind: TextureKind, allocator: BucketedAtlasAllocator) -> bool {
    &&& texture.kind == kind
    &&& texture.width == texture.height
    &&& ATLAS_START_DIM <= texture.width <= ATLAS_MAX_DIM
    &&& texture.cpu@.len() == texture.width * texture.height * kind.spec_bytes_per_pixel()
    &&& allocator_extent(allocator) == (texture.width as i32, texture.height as i32)
    &&& forall|id: u32| #[trigger] allocated_regions(allocator).contains_key(id)
        ==> region_inside(allocated_regions(allocator)[id], texture.width as int, texture.height as int)
    &&& regions_apart(allocated_regions(allocator))
}

/// The glyph and picture atlas of one window.
pub struct OhosAtlas {
    monochrome: AtlasTexture,
    polychrome: AtlasTexture,
    subpixel: AtlasTexture,
    monochrome_allocator: BucketedAtlasAllocator,
    polychrome_allocator: BucketedAtlasAllocator,
    subpixel_allocator: BucketedAtlasAllocator,
    tiles: HashMap<u64, TileRecord>,
    dirty: Vec<(TextureKind, TileBounds)>,
    /// Counts the frames drained through `take_uploads`; a tile marked with
    /// this number was painted in the frame now being built.
    frame: u64,
    /// Largest side the device can hold in one 2D image.
    device_limit: u32,
}

/// Largest side an atlas may grow to when the device allows `device_limit`.
pub open spec fn spec_growth_limit(device_limit: u32) -> u32 {
    let capped = if device_limit < ATLAS_MAX_DIM { device_limit } else { ATLAS_MAX_DIM };
    if capped > ATLAS_START_DIM { capped } else { ATLAS_START_DIM }
}

/// The side a texture reaches by doubling from `side` until it covers
/// `target` or reaches `limit`.
pub open spec fn doubled_side(side: int, target: int, limit: int) -> int
    decreases limit - side,
{
    if 0 < side && side < target && side < limit {
        doubled_side(if side * 2 < limit { side * 2 } else { limit }, target, limit)
    } else {
        side
    }
}

proof fn lemma_doubled_side_grows(side: int, target: int, limit: int)
    requires
        0 < side,
    ensures
        doubled_side(side, target, limit) >= side,
        side < target && side < limit ==> doubled_side(side, target, limit) > side,
    decreases limit - side,
{
    if side < target && side < limit {
        let next = if side * 2 < limit { side * 2 } else { limit };
        lemma_doubled_side_grows(next, target, limit);
    }
}

proof fn lemma_doubled_side_settles(side: int, target: int, limit: int)
    requires
        0 < side,
    ensures
        !(doubled_side(side, target, limit) < target && doubled_side(side, target, limit) < limit),
        doubled_side(doubled_side(side, target, limit), target, limit) == doubled_side(side, target, limit),
        !(side < target && side < limit) ==> doubled_side(side, target, limit) == side,
    decreases limit - side,
{
    if side < target && side < limit {
        let next = if side * 2 < limit { side * 2 } else { limit };
        lemma_doubled_side_settles(next, target, limit);
    }
}

/// Whether an allocator holding `regions` at a `side` x `side` extent
/// refused a `width` x `height` request.
pub open spec fn refused_at(regions: Map<u32, (i32, i32, i32, i32)>, side: int, width: i32, height: i32) -> bool {
    exists|allocator: BucketedAtlasAllocator| {
        &&& #[trigger] allocation_choice(allocator, width, height) is None
        &&& allocated_regions(allocator) == regions
        &&& allocator_extent(allocator) == (side as i32, side as i32)
    }
}

/// The side growth without forcing takes the texture of `kind` to for a
/// `width` x `height` region.
pub open spec fn unforced_side(atlas: OhosAtlas, kind: TextureKind, width: i32, height: i32) -> int {
    doubled_side(atlas.side(kind), vstd::math::max(vstd::math::max(width as int, height as int), 0),
        spec_growth_limit(atlas.device_limit()) as int)
}

/// Whether the texture of `kind` has no room for a `width` x `height`
/// region however the atlas tries: the allocator, holding the regions it
/// ends with at its final size, refused the request, no tile of that kind
/// is left that was painted before `frame`, and the texture is as large as
/// it may grow.
pub open spec fn no_room(atlas: OhosAtlas, kind: TextureKind, width: i32, height: i32, frame: u64) -> bool {
    &&& exists|allocator: BucketedAtlasAllocator| {
        &&& #[trigger] allocation_choice(allocator, width, height) is None
        &&& allocated_regions(allocator) == atlas.regions(kind)
        &&& allocator_extent(allocator) == (atlas.side(kind) as i32, atlas.side(kind) as i32)
    }
    &&& !exists|k: u64| evictable(atlas.tiles(), atlas.last_painted(), k, kind, frame)
    &&& atlas.side(kind) >= spec_growth_limit(atlas.device_limit())
}

impl OhosAtlas {
    spec fn texture(self, kind: TextureKind) -> AtlasTexture {
        match kind {
            TextureKind::Monochrome => self.monochrome,
            TextureKind::Polychrome => self.polychrome,
            TextureKind::Subpixel => self.subpixel,
        }
    }

    spec fn allocator(self, kind: TextureKind) -> BucketedAtlasAllocator {
        match kind {
            TextureKind::Monochrome => self.monochrome_allocator,
            TextureKind::Polychrome => self.polychrome_allocator,
            TextureKind::Subpixel => self.subpixel_allocator,
        }
    }

    /// Side of the (square) texture of `kind`.
    pub closed spec fn side(self, kind: TextureKind) -> int {
        self.texture(kind).width as int
    }

    /// Bytes per row of the texture of `kind`.
    pub open spec fn stride(self, kind: TextureKind) -> int {
        self.side(kind) * kind.spec_bytes_per_pixel()
    }

    /// The CPU copy of the texture of `kind`.
    pub closed spec fn pixels(self, kind: TextureKind) -> Seq<u8> {
        self.texture(kind).cpu@
    }

    /// The regions the allocator of `kind` hands out, by allocation id.
    pub closed spec fn regions(self, kind: TextureKind) -> Map<u32, (i32, i32, i32, i32)> {
        allocated_regions(self.allocator(kind))
    }

    /// The placed tiles, by key id.
    pub closed spec fn tiles(self) -> Map<u64, AtlasTile> {
        self.tiles@.map_values(|record: TileRecord| record.tile)
    }

    /// The frame each placed tile was last painted in, by key id.
    pub closed spec fn last_painted(self) -> Map<u64, u64> {
        self.tiles@.map_values(|record: TileRecord| record.last_used)
    }

    /// Regions changed since the last `take_uploads`, oldest first.
    pub closed spec fn dirty(self) -> Seq<(TextureKind, TileBounds)> {
        self.dirty@
    }

    /// The frame being built.
    pub closed spec fn frame(self) -> u64 {
        self.frame
    }

    /// Largest image side the device reported.
    pub closed spec fn device_limit(self) -> u32 {
        self.device_limit
    }

    spec fn record_wf(self, record: TileRecord) -> bool {
        let tile = record.tile;
        let regions = allocated_regions(self.allocator(tile.kind));
        &&& tile.texture_index == tile.kind.spec_index()
        &&& tile.padding == 0
        &&& record.last_used <= self.frame
        &&& regions.contains_key(tile.tile_id)
        &&& bounds_are(tile.bounds, regions[tile.tile_id])
    }

    /// The atlas invariant: three square textures whose CPU copies match their
    /// size, allocators of the same size whose regions lie inside them, every
    /// tile backed by a live region of its own, and every dirty region inside
    /// its texture.
    pub closed spec fn wf(self) -> bool {
        &&& self.frame >= 1
        &&& texture_wf(self.monochrome, TextureKind::Monochrome, self.monochrome_allocator)
        &&& texture_wf(self.polychrome, TextureKind::Polychrome, self.polychrome_allocator)
        &&& texture_wf(self.subpixel, TextureKind::Subpixel, self.subpixel_allocator)
        &&& forall|key: u64| #[trigger] self.tiles@.contains_key(key) ==> self.record_wf(self.tiles@[key])
        &&& forall|a: u64, b: u64|
            #[trigger] self.tiles@.contains_key(a) && #[trigger] self.tiles@.contains_key(b) && a != b
                && self.tiles@[a].tile.kind == self.tiles@[b].tile.kind
                ==> self.tiles@[a].tile.tile_id != self.tiles@[b].tile.tile_id
        &&& forall|i: int| 0 <= i < self.dirty@.len()
            ==> bounds_inside(#[trigger] self.dirty@[i].1, self.side(self.dirty@[i].0), self.side(self.dirty@[i].0))
    }

    proof fn lemma_texture_wf(self, kind: TextureKind)
        requires
            self.wf(),
        ensures
            texture_wf(self.texture(kind), kind, self.allocator(kind)),
    {
    }

    /// An atlas with an empty `ATLAS_START_DIM` square texture of each kind.
    pub fn new() -> (atlas: Self)
        ensures
            atlas.wf(),
            atlas.frame() == 1,
            atlas.device_limit() == ATLAS_MAX_DIM,
            atlas.tiles().dom() == Set::<u64>::empty(),
            atlas.dirty().len() == 0,
            forall|kind: TextureKind| atlas.side(kind) == ATLAS_START_DIM,
            forall|kind: TextureKind| #[trigger] atlas.pixels(kind) == zeros(atlas.stride(kind) * atlas.side(kind)),
    {
        let monochrome = Self::blank_texture(TextureKind::Monochrome);
        let polychrome = Self::blank_texture(TextureKind::Polychrome);
        let subpixel = Self::blank_texture(TextureKind::Subpixel);
        let side = ATLAS_START_DIM as i32;
        let atlas = OhosAtlas {
            monochrome,
            polychrome,
            subpixel,
            monochrome_allocator: allocator_new(side),
            polychrome_allocator: allocator_new(side),
            subpixel_allocator: allocator_new(side),
            tiles: HashMap::new(),
            dirty: Vec::new(),
            frame: 1,
            device_limit: ATLAS_MAX_DIM,
        };
        proof {
            assert(atlas.tiles() =~= Map::<u64, AtlasTile>::empty());
            assert forall|kind: TextureKind| #[trigger] atlas.pixels(kind) == zeros(atlas.stride(kind) * atlas.side(kind)) by {
                match kind {
                    TextureKind::Monochrome => assert(atlas.stride(kind) * atlas.side(kind) == 2048 * 2048 * 1),
                    TextureKind::Polychrome => {
                        assert(atlas.side(kind) == 2048);
                        assert(atlas.stride(kind) == 8192);
                        assert(atlas.stride(kind) * atlas.side(kind) == 2048 * 2048 * 4);
                    },
                    TextureKind::Subpixel => {
                        assert(atlas.side(kind) == 2048);
                        assert(atlas.stride(kind) == 8192);
                        assert(atlas.stride(kind) * atlas.side(kind) == 2048 * 2048 * 4);
                    },
                }
            }
        }
        atlas
    }

    fn blank_texture(kind: TextureKind) -> (texture: AtlasTexture)
        ensures
            texture.kind == kind,
            texture.width == ATLAS_START_DIM,
            texture.height == ATLAS_START_DIM,
            texture.cpu@ == zeros(ATLAS_START_DIM * ATLAS_START_DIM * kind.spec_bytes_per_pixel()),
    {
        let bpp = bytes_per_pixel(kind);
        let len = ATLAS_START_DIM as usize * ATLAS_START_DIM as usize * bpp;
        let cpu = vec![0u8; len];
        proof {
            assert(cpu@ =~= zeros(len as int));
        }
        AtlasTexture { kind, width: ATLAS_START_DIM, height: ATLAS_START_DIM, cpu }
    }
}


/// A `widened_rows` result of `rows` rows holds `rows * new_stride` bytes.
pub proof fn lemma_widened_rows_len(old: Seq<u8>, old_stride: int, new_stride: int, old_rows: int, rows: int)
    requires
        0 <= old_stride <= new_stride,
        0 <= old_rows,
        old_rows * old_stride <= old.len(),
        0 <= rows,
    ensures
        widened_rows(old, old_stride, new_stride, old_rows, rows).len() == rows * new_stride,
    decreases rows,
{
    if rows > 0 {
        let r = rows - 1;
        lemma_widened_rows_len(old, old_stride, new_stride, old_rows, r);
        let prev = widened_rows(old, old_stride, new_stride, old_rows, r);
        if r < old_rows {
            assert(r * old_stride + old_stride <= old_rows * old_stride) by (nonlinear_arith)
                requires r < old_rows, 0 <= old_stride;
            assert(0 <= r * old_stride) by (nonlinear_arith)
                requires 0 <= r, 0 <= old_stride;
            let row = old.subrange(r * old_stride, r * old_stride + old_stride) + zeros(new_stride - old_stride);
            assert(row.len() == new_stride);
            assert(widened_rows(old, old_stride, new_stride, old_rows, rows) == prev + row);
        } else {
            assert(widened_rows(old, old_stride, new_stride, old_rows, rows) == prev + zeros(new_stride));
        }
        assert(r * new_stride + new_stride == rows * new_stride) by (nonlinear_arith)
            requires r == rows - 1;
    } else {
        assert(rows * new_stride == 0) by (nonlinear_arith)
            requires rows == 0;
    }
}

/// Append `n` zero bytes.
fn push_zeros(bytes: &mut Vec<u8>, n: usize)
    requires
        old(bytes).len() + n <= usize::MAX,
    ensures
        final(bytes)@ == old(bytes)@ + zeros(n as int),
{
    let len = bytes.len() + n;
    bytes.resize(len, 0u8);
    proof {
        assert(final(bytes)@ =~= old(bytes)@ + zeros(n as int)) by {
            if n > 0 {
                assert forall|i: int| 0 <= i < final(bytes)@.len() implies final(bytes)@[i] == (old(bytes)@ + zeros(n as int))[i] by {
                    if i < old(bytes)@.len() {
                        assert(final(bytes)@.subrange(0, old(bytes)@.len() as int)[i] == old(bytes)@[i]);
                    }
                }
            }
        }
    }
}

/// The pixels of a texture of side `old_side` re-laid on a texture of side
/// `new_side`, as `widened_rows` describes.
fn widen_pixels(old: &Vec<u8>, bpp: usize, old_side: u32, new_side: u32) -> (cpu: Vec<u8>)
    requires
        1 <= bpp <= 4,
        old_side <= new_side <= ATLAS_MAX_DIM,
        old@.len() == old_side * old_side * bpp,
    ensures
        cpu@ == widened_rows(old@, old_side * bpp, new_side * bpp, old_side as int, new_side as int),
        cpu@.len() == new_side * new_side * bpp,
{
    assert(old_side * bpp <= 8192 * 4 && new_side * bpp <= 8192 * 4) by (nonlinear_arith)
        requires old_side <= new_side <= 8192, bpp <= 4;
    let old_stride = old_side as usize * bpp;
    let new_stride = new_side as usize * bpp;
    assert(old_stride <= new_stride) by (nonlinear_arith)
        requires old_stride == old_side * bpp, new_stride == new_side * bpp, old_side <= new_side, 1 <= bpp;
    assert(new_stride * new_side <= 8192 * 4 * 8192) by (nonlinear_arith)
        requires new_stride == new_side * bpp, new_side <= 8192, bpp <= 4;
    assert(old_side * old_stride == old@.len()) by (nonlinear_arith)
        requires old_stride == old_side * bpp, old@.len() == old_side * old_side * bpp;
    assert(old_side * old_stride <= new_stride * new_side) by (nonlinear_arith)
        requires old_side <= new_side, old_stride <= new_stride, 0 <= old_stride;
    let mut cpu: Vec<u8> = Vec::new();
    let mut row: u32 = 0;
    while row < new_side
        invariant
            row <= new_side <= ATLAS_MAX_DIM,
            old_stride == old_side * bpp,
            new_stride == new_side * bpp,
            old_stride <= new_stride,
            new_stride * new_side <= 8192 * 4 * 8192,
            old_side * old_stride == old@.len(),
            old_side * old_stride <= new_stride * new_side,
            old_side <= new_side,
            cpu@ == widened_rows(old@, old_stride as int, new_stride as int, old_side as int, row as int),
        decreases new_side - row,
    {
        proof {
            lemma_widened_rows_len(old@, old_stride as int, new_stride as int, old_side as int, row as int);
            assert(row * new_stride + new_stride <= new_stride * new_side) by (nonlinear_arith)
                requires row < new_side, 0 <= new_stride;
        }
        let ghost before = cpu@;
        if row < old_side {
            assert(row * old_stride <= old_side * old_stride) by (nonlinear_arith)
                requires row < old_side, 0 <= old_stride;
            let start = row as usize * old_stride;
            assert(start + old_stride <= old_side * old_stride) by (nonlinear_arith)
                requires start == row * old_stride, row < old_side, 0 <= old_stride;
            cpu.extend_from_slice(&old.as_slice()[start..start + old_stride]);
            push_zeros(&mut cpu, new_stride - old_stride);
            proof {
                assert(cpu@ =~= before + (old@.subrange(start as int, start + old_stride) + zeros(new_stride - old_stride)));
            }
        } else {
            push_zeros(&mut cpu, new_stride);
        }
        row = row + 1;
    }
    proof {
        lemma_widened_rows_len(old@, old_stride as int, new_stride as int, old_side as int, new_side as int);
        assert(new_side * new_stride == new_side * new_side * bpp) by (nonlinear_arith)
            requires new_stride == new_side * bpp;
    }
    cpu
}


/// Install a grown texture and grow its allocator to match.
fn install_texture(texture: &mut AtlasTexture, allocator: &mut BucketedAtlasAllocator, cpu: Vec<u8>, side: u32)
    requires
        allocator_extent(*old(allocator)).0 <= side,
        allocator_extent(*old(allocator)).1 <= side,
        side <= ATLAS_MAX_DIM,
    ensures
        final(texture).kind == old(texture).kind,
        final(texture).width == side,
        final(texture).height == side,
        final(texture).cpu@ == cpu@,
        allocated_regions(*final(allocator)) == allocated_regions(*old(allocator)),
        allocator_extent(*final(allocator)) == (side as i32, side as i32),
{
    texture.cpu = cpu;
    texture.width = side;
    texture.height = side;
    allocator_grow(allocator, side as i32);
}

impl OhosAtlas {
    fn texture_of(&self, kind: TextureKind) -> (texture: &AtlasTexture)
        ensures
            *texture == self.texture(kind),
    {
        match kind {
            TextureKind::Monochrome => &self.monochrome,
            TextureKind::Polychrome => &self.polychrome,
            TextureKind::Subpixel => &self.subpixel,
        }
    }

    /// Record what the device allows in one image. Zero means the properties
    /// could not be read, and the previous value stays.
    pub fn set_device_limit(&mut self, max_image_dimension_2d: u32)
        requires
            old(self).wf(),
        ensures
            final(self).wf(),
            final(self).device_limit() == if max_image_dimension_2d == 0 {
                old(self).device_limit()
            } else {
                max_image_dimension_2d
            },
            final(self).tiles() == old(self).tiles(),
            final(self).last_painted() == old(self).last_painted(),
            final(self).dirty() == old(self).dirty(),
            final(self).frame() == old(self).frame(),
            forall|kind: TextureKind| final(self).side(kind) == old(self).side(kind) && final(self).pixels(kind) == old(self).pixels(kind),
    {
        if max_image_dimension_2d == 0 {
            return;
        }
        self.device_limit = max_image_dimension_2d;
    }

    /// Largest side an atlas may grow to: the device's limit, capped at
    /// `ATLAS_MAX_DIM` and never below `ATLAS_START_DIM`.
    pub fn growth_limit(&self) -> (limit: u32)
        ensures
            limit == spec_growth_limit(self.device_limit()),
            ATLAS_START_DIM <= limit <= ATLAS_MAX_DIM,
    {
        let capped = if self.device_limit < ATLAS_MAX_DIM { self.device_limit } else { ATLAS_MAX_DIM };
        if capped > ATLAS_START_DIM { capped } else { ATLAS_START_DIM }
    }

    /// Size of the CPU texture backing a kind.
    pub fn texture_size(&self, kind: TextureKind) -> (size: (u32, u32))
        requires
            self.wf(),
        ensures
            size.0 == self.side(kind),
            size.1 == self.side(kind),
    {
        let texture = self.texture_of(kind);
        (texture.width, texture.height)
    }

    /// The CPU copy of a kind's texture.
    pub fn texture_pixels(&self, kind: TextureKind) -> (pixels: &[u8])
        ensures
            pixels@ == self.pixels(kind),
    {
        self.texture_of(kind).cpu.as_slice()
    }

    /// Whether any dirty region is still waiting to be uploaded.
    pub fn has_pending_uploads(&self) -> (pending: bool)
        ensures
            pending == (self.dirty().len() > 0),
    {
        self.dirty.len() > 0
    }

    /// Double one kind's texture until a region of `needed_width` x
    /// `needed_height` fits, or `limit` is reached; with `force`, double it even
    /// when the region already fits its size. The pixels move to the wider
    /// stride, tiles keep their coordinates, and the old extent is reported
    /// dirty because the renderer recreates its texture at the new size.
    pub fn grow_texture(&mut self, kind: TextureKind, needed_width: i32, needed_height: i32, limit: u32, force: bool) -> (grew: bool)
        requires
            old(self).wf(),
            limit <= ATLAS_MAX_DIM,
        ensures
            final(self).wf(),
            ({
                let old_side = old(self).side(kind);
                let needed = vstd::math::max(vstd::math::max(needed_width as int, needed_height as int), 0);
                let target = if force { vstd::math::max(needed, old_side * 2) } else { needed };
                let new_side = doubled_side(old_side, target, limit as int);
                &&& grew == (old_side < limit && new_side > old_side)
                &&& grew ==> {
                    &&& final(self).side(kind) == new_side
                    &&& final(self).pixels(kind) == widened_rows(old(self).pixels(kind), old(self).stride(kind), final(self).stride(kind), old_side, new_side)
                    &&& final(self).dirty() == old(self).dirty().push((kind, TileBounds { x: 0, y: 0, width: old_side as i32, height: old_side as i32 }))
                }
            }),
            !grew ==> *final(self) == *old(self),
            final(self).tiles() == old(self).tiles(),
            final(self).last_painted() == old(self).last_painted(),
            final(self).frame() == old(self).frame(),
            final(self).device_limit() == old(self).device_limit(),
            forall|other: TextureKind| other != kind ==> final(self).side(other) == old(self).side(other) && final(self).pixels(other) == old(self).pixels(other),
            forall|other: TextureKind| #[trigger] final(self).regions(other) == old(self).regions(other),
            forall|k: u64| #[trigger] final(self).tiles().contains_key(k) ==> keeps_tile(*old(self), *final(self), final(self).tiles()[k]),
    {
        proof {
            old(self).lemma_texture_wf(kind);
        }
        let texture = self.texture_of(kind);
        let old_side = texture.width;
        let current = texture.width;
        if current >= limit {
            return false;
        }
        let wide = if needed_width > needed_height { needed_width } else { needed_height };
        let needed_dim: u32 = if wide > 0 { wide as u32 } else { 0 };
        let target = if force {
            let doubled = current * 2;
            if needed_dim > doubled { needed_dim } else { doubled }
        } else {
            needed_dim
        };
        let mut grown = current;
        while grown < target && grown < limit
            invariant
                current <= grown <= limit,
                limit <= ATLAS_MAX_DIM,
                0 < current,
                doubled_side(grown as int, target as int, limit as int) == doubled_side(current as int, target as int, limit as int),
            decreases limit - grown,
        {
            grown = if grown * 2 < limit { grown * 2 } else { limit };
        }
        if grown <= current {
            return false;
        }
        let bpp = bytes_per_pixel(kind);
        let cpu = widen_pixels(&texture.cpu, bpp, old_side, grown);
        match kind {
            TextureKind::Monochrome => install_texture(&mut self.monochrome, &mut self.monochrome_allocator, cpu, grown),
            TextureKind::Polychrome => install_texture(&mut self.polychrome, &mut self.polychrome_allocator, cpu, grown),
            TextureKind::Subpixel => install_texture(&mut self.subpixel, &mut self.subpixel_allocator, cpu, grown),
        }
        self.dirty.push((kind, TileBounds { x: 0, y: 0, width: old_side as i32, height: old_side as i32 }));
        proof {
            assert(self.tiles@ == old(self).tiles@);
            assert(self.tiles() =~= old(self).tiles());
            assert(self.last_painted() =~= old(self).last_painted());
            assert forall|other: TextureKind| #[trigger] allocated_regions(self.allocator(other)) == allocated_regions(old(self).allocator(other)) by {}
            assert forall|key: u64| #[trigger] self.tiles@.contains_key(key) implies self.record_wf(self.tiles@[key]) by {
                assert(old(self).record_wf(old(self).tiles@[key]));
            }
            assert forall|i: int| 0 <= i < self.dirty@.len() implies
                bounds_inside(#[trigger] self.dirty@[i].1, self.side(self.dirty@[i].0), self.side(self.dirty@[i].0)) by {
                if i < old(self).dirty@.len() {
                    assert(self.dirty@[i] == old(self).dirty@[i]);
                }
            }
            assert(texture_wf(self.texture(kind), kind, self.allocator(kind))) by {
                assert forall|id: u32| #[trigger] allocated_regions(self.allocator(kind)).contains_key(id)
                    implies region_inside(allocated_regions(self.allocator(kind))[id], self.texture(kind).width as int, self.texture(kind).height as int) by {
                    assert(allocated_regions(old(self).allocator(kind)).contains_key(id));
                }
            }
            assert forall|k: u64| #[trigger] old(self).tiles().contains_key(k) implies keeps_tile(*old(self), *old(self), old(self).tiles()[k]) by {
                lemma_same_texture_keeps_tile(*old(self), *old(self), old(self).tiles()[k]);
            }
            lemma_kept_tiles_grown(*old(self), *old(self), *self, kind);
        }
        true
    }
}


/// Whether the tile under `key` is of `kind` and was last painted before
/// `frame`, so that its space may be given back.
pub open spec fn evictable(tiles: Map<u64, AtlasTile>, painted: Map<u64, u64>, key: u64, kind: TextureKind, frame: u64) -> bool {
    &&& tiles.contains_key(key)
    &&& tiles[key].kind == kind
    &&& painted[key] < frame
}

impl OhosAtlas {
    proof fn lemma_views(self)
        ensures
            self.tiles().dom() == self.tiles@.dom(),
            self.last_painted().dom() == self.tiles@.dom(),
            forall|k: u64| self.tiles@.contains_key(k) ==> #[trigger] self.tiles()[k] == self.tiles@[k].tile && self.last_painted()[k] == self.tiles@[k].last_used,
    {
    }

    /// Give back the tile of `kind` that has gone longest without being
    /// painted, among those not painted in `frame`, and answer whether there
    /// was one. Tiles painted in `frame` keep their space.
    pub fn evict_oldest(&mut self, kind: TextureKind, frame: u64) -> (evicted: bool)
        requires
            old(self).wf(),
        ensures
            final(self).wf(),
            evicted == exists|k: u64| evictable(old(self).tiles(), old(self).last_painted(), k, kind, frame),
            evicted ==> exists|k: u64| {
                &&& evictable(old(self).tiles(), old(self).last_painted(), k, kind, frame)
                &&& forall|j: u64| evictable(old(self).tiles(), old(self).last_painted(), j, kind, frame)
                    ==> old(self).last_painted()[k] <= old(self).last_painted()[j]
                &&& final(self).tiles() == old(self).tiles().remove(k)
                &&& final(self).last_painted() == old(self).last_painted().remove(k)
                &&& final(self).regions(kind) == old(self).regions(kind).remove(old(self).tiles()[k].tile_id)
            },
            forall|other: TextureKind| other != kind ==> #[trigger] final(self).regions(other) == old(self).regions(other),
            !evicted ==> *final(self) == *old(self),
            final(self).dirty() == old(self).dirty(),
            final(self).frame() == old(self).frame(),
            final(self).device_limit() == old(self).device_limit(),
            forall|other: TextureKind| #[trigger] final(self).side(other) == old(self).side(other) && final(self).pixels(other) == old(self).pixels(other),
    {
        broadcast use vstd::std_specs::hash::axiom_spec_hash_map_iter;
        proof {
            self.lemma_views();
        }
        let ghost tiles = self.tiles@;
        let mut best: Option<(u64, u64)> = None;
        for entry in it: self.tiles.iter()
            invariant
                tiles == self.tiles@,
                it.seq() == vstd::std_specs::hash::spec_hash_map_iter(&self.tiles).remaining(),
                best matches Some(b) ==> {
                    &&& tiles.contains_key(b.0)
                    &&& tiles[b.0].tile.kind == kind
                    &&& tiles[b.0].last_used == b.1
                    &&& b.1 < frame
                },
                forall|j: int| 0 <= j < it.index() ==> {
                    let k = *(#[trigger] it.seq()[j]).0;
                    (tiles[k].tile.kind == kind && tiles[k].last_used < frame) ==> (best matches Some(b) && b.1 <= tiles[k].last_used)
                },
        {
            let (key, record) = entry;
            if record.tile.kind == kind && record.last_used < frame {
                let better = match best {
                    None => true,
                    Some(b) => record.last_used < b.1,
                };
                if better {
                    best = Some((*key, record.last_used));
                }
            }
        }
        match best {
            None => {
                proof {
                    assert forall|k: u64| !evictable(old(self).tiles(), old(self).last_painted(), k, kind, frame) by {
                        if tiles.contains_key(k) {
                            let v = vstd::std_specs::hash::spec_hash_map_iter(&self.tiles).remaining();
                            assert(v.contains((&k, &tiles[k])));
                            let j = choose|j: int| 0 <= j < v.len() && v[j] == (&k, &tiles[k]);
                            assert(*v[j].0 == k);
                        }
                    }
                }
                false
            },
            Some(b) => {
                let key = b.0;
                let ghost victim = tiles[key];
                proof {
                    assert(evictable(old(self).tiles(), old(self).last_painted(), key, kind, frame));
                    assert forall|j: u64| evictable(old(self).tiles(), old(self).last_painted(), j, kind, frame)
                        implies old(self).last_painted()[key] <= old(self).last_painted()[j] by {
                        let v = vstd::std_specs::hash::spec_hash_map_iter(&self.tiles).remaining();
                        assert(v.contains((&j, &tiles[j])));
                        let i = choose|i: int| 0 <= i < v.len() && v[i] == (&j, &tiles[j]);
                        assert(*v[i].0 == j);
                    }
                    assert(old(self).record_wf(victim));
                }
                let removed = self.tiles.remove(&key);
                let id = victim_id(removed);
                match kind {
                    TextureKind::Monochrome => allocator_deallocate(&mut self.monochrome_allocator, id),
                    TextureKind::Polychrome => allocator_deallocate(&mut self.polychrome_allocator, id),
                    TextureKind::Subpixel => allocator_deallocate(&mut self.subpixel_allocator, id),
                }
                proof {
                    assert(self.tiles@ == tiles.remove(key));
                    assert(self.tiles() =~= old(self).tiles().remove(key));
                    assert(self.last_painted() =~= old(self).last_painted().remove(key));
                    assert forall|k: u64| #[trigger] self.tiles@.contains_key(k) implies self.record_wf(self.tiles@[k]) by {
                        assert(old(self).record_wf(tiles[k]));
                        if tiles[k].tile.kind == kind {
                            assert(tiles[k].tile.tile_id != victim.tile.tile_id);
                        }
                    }
                    assert(texture_wf(self.texture(kind), kind, self.allocator(kind))) by {
                        old(self).lemma_texture_wf(kind);
                        assert forall|id: u32| #[trigger] allocated_regions(self.allocator(kind)).contains_key(id)
                            implies region_inside(allocated_regions(self.allocator(kind))[id], self.texture(kind).width as int, self.texture(kind).height as int) by {
                            assert(allocated_regions(old(self).allocator(kind)).contains_key(id));
                        }
                    }
                }
                true
            },
        }
    }
}

/// The allocation id of a record taken out of the tile map.
fn victim_id(removed: Option<TileRecord>) -> (id: u32)
    requires
        removed is Some,
    ensures
        id == removed->0.tile.tile_id,
{
    match removed {
        Some(record) => record.tile.tile_id,
        None => 0,
    }
}


/// What one dirty region uploads: its kind, clamped origin and size, and the
/// bytes of its rows.
pub type UploadView = (TextureKind, u32, u32, u32, u32, Seq<u8>);

/// The view of an upload.
pub open spec fn upload_view(upload: AtlasUpload) -> UploadView {
    (upload.kind, upload.x, upload.y, upload.width, upload.height, upload.data@)
}

/// `value` clamped below at zero.
pub open spec fn non_negative(value: i32) -> int {
    if value < 0 { 0 } else { value as int }
}

impl OhosAtlas {
    /// The uploads the dirty regions `dirty` stand for, given this atlas's
    /// pixels: regions with no area are left out.
    pub open spec fn uploads_for(self, dirty: Seq<(TextureKind, TileBounds)>) -> Seq<UploadView>
        decreases dirty.len(),
    {
        if dirty.len() == 0 {
            Seq::empty()
        } else {
            let previous = self.uploads_for(dirty.drop_last());
            let (kind, bounds) = dirty.last();
            let bpp = kind.spec_bytes_per_pixel();
            let x = non_negative(bounds.x);
            let y = non_negative(bounds.y);
            let width = non_negative(bounds.width);
            let height = non_negative(bounds.height);
            if width == 0 || height == 0 {
                previous
            } else {
                previous.push((kind, x as u32, y as u32, width as u32, height as u32,
                    region_rows(self.pixels(kind), self.stride(kind), x * bpp, y, width * bpp, height)))
            }
        }
    }

    /// The rows of one region, as `region_rows` describes them.
    fn region_data(&self, kind: TextureKind, x: u32, y: u32, width: u32, height: u32) -> (data: Vec<u8>)
        requires
            self.wf(),
            x + width <= self.side(kind),
            y + height <= self.side(kind),
        ensures
            data@ == region_rows(self.pixels(kind), self.stride(kind), x * kind.spec_bytes_per_pixel(), y as int,
                width * kind.spec_bytes_per_pixel(), height as int),
    {
        proof {
            self.lemma_texture_wf(kind);
        }
        let texture = self.texture_of(kind);
        let bpp = bytes_per_pixel(kind);
        let side = texture.width;
        assert(side * bpp <= 8192 * 4) by (nonlinear_arith)
            requires side <= 8192, bpp <= 4;
        let stride = side as usize * bpp;
        assert(x * bpp <= stride && width * bpp <= stride && (x + width) * bpp <= stride) by (nonlinear_arith)
            requires x + width <= side, stride == side * bpp, 0 <= bpp;
        assert(width as int * height as int * bpp as int <= 8192 * 8192 * 4) by (nonlinear_arith)
            requires width <= 8192, height <= 8192, bpp <= 4;
        assert(texture.cpu@.len() == side * stride) by (nonlinear_arith)
            requires texture.cpu@.len() == side * side * bpp, stride == side * bpp;
        let row_len = width as usize * bpp;
        let x_off = x as usize * bpp;
        assert(x_off + row_len == (x + width) * bpp) by (nonlinear_arith)
            requires x_off == x * bpp, row_len == width * bpp;
        assert(side * stride <= 8192 * 8192 * 4) by (nonlinear_arith)
            requires side <= 8192, stride <= 8192 * 4;
        let mut data: Vec<u8> = Vec::with_capacity(width as usize * height as usize * bpp);
        let mut row: u32 = 0;
        while row < height
            invariant
                row <= height,
                y + height <= side,
                side <= 8192,
                stride == side * bpp,
                stride <= 8192 * 4,
                x_off == x * bpp,
                row_len == width * bpp,
                x_off + row_len <= stride,
                texture.cpu@.len() == side * stride,
                side * stride <= 8192 * 8192 * 4,
                *texture == self.texture(kind),
                data@ == region_rows(texture.cpu@, stride as int, x_off as int, y as int, row_len as int, row as int),
            decreases height - row,
        {
            assert((y + row) * stride + stride <= side * stride) by (nonlinear_arith)
                requires y + row < side, 0 <= stride;
            assert(0 <= (y + row) * stride) by (nonlinear_arith)
                requires 0 <= y + row, 0 <= stride;
            let start = (y + row) as usize * stride + x_off;
            data.extend_from_slice(&texture.cpu.as_slice()[start..start + row_len]);
            row = row + 1;
        }
        data
    }

    /// Drain the dirty regions, copying their pixels for upload, and start the
    /// next frame: tiles painted before it become candidates for eviction.
    pub fn take_uploads(&mut self) -> (uploads: Vec<AtlasUpload>)
        requires
            old(self).wf(),
            old(self).frame() < u64::MAX,
        ensures
            final(self).wf(),
            uploads@.map_values(|upload: AtlasUpload| upload_view(upload)) == old(self).uploads_for(old(self).dirty()),
            final(self).frame() == old(self).frame() + 1,
            final(self).dirty().len() == 0,
            final(self).tiles() == old(self).tiles(),
            final(self).last_painted() == old(self).last_painted(),
            final(self).device_limit() == old(self).device_limit(),
            forall|kind: TextureKind| #[trigger] final(self).side(kind) == old(self).side(kind) && final(self).pixels(kind) == old(self).pixels(kind),
    {
        let mut uploads: Vec<AtlasUpload> = Vec::with_capacity(self.dirty.len());
        let mut index: usize = 0;
        while index < self.dirty.len()
            invariant
                self == old(self),
                self.wf(),
                index <= self.dirty@.len(),
                uploads@.map_values(|upload: AtlasUpload| upload_view(upload)) == self.uploads_for(self.dirty@.subrange(0, index as int)),
            decreases self.dirty@.len() - index,
        {
            let (kind, bounds) = self.dirty[index];
            proof {
                assert(self.dirty@.subrange(0, index + 1).drop_last() =~= self.dirty@.subrange(0, index as int));
                assert(bounds_inside(self.dirty@[index as int].1, self.side(kind), self.side(kind)));
            }
            let x: u32 = if bounds.x > 0 { bounds.x as u32 } else { 0 };
            let y: u32 = if bounds.y > 0 { bounds.y as u32 } else { 0 };
            let width: u32 = if bounds.width > 0 { bounds.width as u32 } else { 0 };
            let height: u32 = if bounds.height > 0 { bounds.height as u32 } else { 0 };
            if width != 0 && height != 0 {
                let data = self.region_data(kind, x, y, width, height);
                uploads.push(AtlasUpload { kind, x, y, width, height, data });
                proof {
                    assert(uploads@.map_values(|upload: AtlasUpload| upload_view(upload)) =~=
                        self.uploads_for(self.dirty@.subrange(0, index as int)).push(
                            (kind, x, y, width, height, region_rows(self.pixels(kind), self.stride(kind),
                                x * kind.spec_bytes_per_pixel(), y as int, width * kind.spec_bytes_per_pixel(), height as int))));
                }
            }
            index = index + 1;
        }
        proof {
            assert(self.dirty@.subrange(0, index as int) =~= self.dirty@);
        }
        self.frame = self.frame + 1;
        self.dirty = Vec::new();
        proof {
            assert(self.tiles() =~= old(self).tiles());
            assert(self.last_painted() =~= old(self).last_painted());
            assert forall|key: u64| #[trigger] self.tiles@.contains_key(key) implies self.record_wf(self.tiles@[key]) by {
                assert(old(self).record_wf(old(self).tiles@[key]));
            }
        }
        uploads
    }

    /// The tile already placed for `key`, marked as painted in the frame being
    /// built; `None` when nothing is placed for it.
    pub fn get(&mut self, key: &AtlasKey) -> (tile: Option<AtlasTile>)
        requires
            old(self).wf(),
        ensures
            final(self).wf(),
            tile == if old(self).tiles().contains_key(key.id) { Some(old(self).tiles()[key.id]) } else { None },
            final(self).tiles() == old(self).tiles(),
            final(self).last_painted() == if old(self).tiles().contains_key(key.id) {
                old(self).last_painted().insert(key.id, old(self).frame())
            } else {
                old(self).last_painted()
            },
            final(self).dirty() == old(self).dirty(),
            final(self).frame() == old(self).frame(),
            final(self).device_limit() == old(self).device_limit(),
            forall|kind: TextureKind| #[trigger] final(self).side(kind) == old(self).side(kind) && final(self).pixels(kind) == old(self).pixels(kind),
            forall|kind: TextureKind| #[trigger] final(self).regions(kind) == old(self).regions(kind),
    {
        proof {
            self.lemma_views();
        }
        let found: Option<AtlasTile> = match self.tiles.get(&key.id) {
            Some(record) => Some(record.tile),
            None => None,
        };
        match found {
            Some(tile) => {
                let frame = self.frame;
                self.tiles.insert(key.id, TileRecord { tile, last_used: frame });
                proof {
                    assert(self.tiles() =~= old(self).tiles());
                    assert(self.last_painted() =~= old(self).last_painted().insert(key.id, old(self).frame()));
                    assert forall|k: u64| #[trigger] self.tiles@.contains_key(k) implies self.record_wf(self.tiles@[k]) by {
                        assert(old(self).record_wf(old(self).tiles@[k]));
                    }
                    assert forall|a: u64, b: u64|
                        #[trigger] self.tiles@.contains_key(a) && #[trigger] self.tiles@.contains_key(b) && a != b
                            && self.tiles@[a].tile.kind == self.tiles@[b].tile.kind
                        implies self.tiles@[a].tile.tile_id != self.tiles@[b].tile.tile_id by {
                        assert(old(self).tiles@.contains_key(a) && old(self).tiles@.contains_key(b));
                    }
                }
                Some(tile)
            },
            None => None,
        }
    }

    /// Forget the tile placed for `key` and give its region back.
    pub fn remove(&mut self, key: &AtlasKey)
        requires
            old(self).wf(),
        ensures
            final(self).wf(),
            final(self).tiles() == old(self).tiles().remove(key.id),
            final(self).last_painted() == old(self).last_painted().remove(key.id),
            final(self).dirty() == old(self).dirty(),
            final(self).frame() == old(self).frame(),
            final(self).device_limit() == old(self).device_limit(),
            forall|kind: TextureKind| #[trigger] final(self).side(kind) == old(self).side(kind) && final(self).pixels(kind) == old(self).pixels(kind),
            old(self).tiles().contains_key(key.id) ==> {
                let tile = old(self).tiles()[key.id];
                &&& final(self).regions(tile.kind) == old(self).regions(tile.kind).remove(tile.tile_id)
                &&& forall|other: TextureKind| other != tile.kind ==> #[trigger] final(self).regions(other) == old(self).regions(other)
            },
            !old(self).tiles().contains_key(key.id) ==> forall|kind: TextureKind| #[trigger] final(self).regions(kind) == old(self).regions(kind),
    {
        proof {
            self.lemma_views();
        }
        let ghost tiles = self.tiles@;
        let removed = self.tiles.remove(&key.id);
        match removed {
            Some(record) => {
                let kind = record.tile.kind;
                let id = record.tile.tile_id;
                proof {
                    assert(old(self).record_wf(record));
                }
                match kind {
                    TextureKind::Monochrome => allocator_deallocate(&mut self.monochrome_allocator, id),
                    TextureKind::Polychrome => allocator_deallocate(&mut self.polychrome_allocator, id),
                    TextureKind::Subpixel => allocator_deallocate(&mut self.subpixel_allocator, id),
                }
                proof {
                    assert forall|k: u64| #[trigger] self.tiles@.contains_key(k) implies self.record_wf(self.tiles@[k]) by {
                        assert(old(self).record_wf(tiles[k]));
                        if tiles[k].tile.kind == kind {
                            assert(tiles[k].tile.tile_id != id);
                        }
                    }
                    assert(texture_wf(self.texture(kind), kind, self.allocator(kind))) by {
                        old(self).lemma_texture_wf(kind);
                        assert forall|i: u32| #[trigger] allocated_regions(self.allocator(kind)).contains_key(i)
                            implies region_inside(allocated_regions(self.allocator(kind))[i], self.texture(kind).width as int, self.texture(kind).height as int) by {
                            assert(allocated_regions(old(self).allocator(kind)).contains_key(i));
                        }
                    }
                }
            },
            None => {},
        }
        proof {
            assert(self.tiles() =~= old(self).tiles().remove(key.id));
            assert(self.last_painted() =~= old(self).last_painted().remove(key.id));
        }
    }
}


/// Splicing bytes in leaves the length and every byte outside the spliced
/// interval alone, and the spliced interval holds the new bytes.
pub proof fn lemma_splice(pixels: Seq<u8>, at: int, bytes: Seq<u8>)
    requires
        0 <= at,
        at + bytes.len() <= pixels.len(),
    ensures
        splice(pixels, at, bytes).len() == pixels.len(),
        splice(pixels, at, bytes).subrange(at, at + bytes.len()) == bytes,
        forall|a: int, b: int| 0 <= a <= b <= pixels.len() && (b <= at || at + bytes.len() <= a)
            ==> #[trigger] splice(pixels, at, bytes).subrange(a, b) == pixels.subrange(a, b),
{
    let spliced = splice(pixels, at, bytes);
    assert(spliced.subrange(at, at + bytes.len()) =~= bytes);
    assert forall|a: int, b: int| 0 <= a <= b <= pixels.len() && (b <= at || at + bytes.len() <= a)
        implies #[trigger] spliced.subrange(a, b) == pixels.subrange(a, b) by {
        assert(spliced.subrange(a, b) =~= pixels.subrange(a, b));
    }
}

/// Pasting keeps the length of the texture.
pub proof fn lemma_pasted_rows_len(pixels: Seq<u8>, stride: int, x_off: int, y: int, source: Seq<u8>, row_len: int, rows: int)
    requires
        0 <= x_off,
        0 <= y,
        0 <= stride,
        0 <= row_len,
    ensures
        pasted_rows(pixels, stride, x_off, y, source, row_len, rows).len() == pixels.len(),
    decreases rows,
{
    if rows > 0 {
        lemma_pasted_rows_len(pixels, stride, x_off, y, source, row_len, rows - 1);
        let before = pasted_rows(pixels, stride, x_off, y, source, row_len, rows - 1);
        let dst = (y + rows - 1) * stride + x_off;
        let src = (rows - 1) * row_len;
        assert(0 <= dst) by (nonlinear_arith)
            requires dst == (y + rows - 1) * stride + x_off, 0 <= y, 1 <= rows, 0 <= stride, 0 <= x_off;
        assert(0 <= src) by (nonlinear_arith)
            requires src == (rows - 1) * row_len, 1 <= rows, 0 <= row_len;
        if src + row_len <= source.len() && dst + row_len <= before.len() {
            lemma_splice(before, dst, source.subrange(src, src + row_len));
        }
    }
}

/// What a paste wrote reads back: once rows of `row_len` bytes were pasted
/// at column `x_off` of rows `y..y + rows` of a texture wide enough for them,
/// every row the source is long enough for holds that row of the source.
pub proof fn lemma_pasted_row_reads_back(pixels: Seq<u8>, stride: int, x_off: int, y: int, source: Seq<u8>, row_len: int, rows: int, r: int)
    requires
        0 <= x_off,
        0 <= y,
        0 <= row_len,
        x_off + row_len <= stride,
        (y + rows) * stride <= pixels.len(),
        0 <= r < rows,
        (r + 1) * row_len <= source.len(),
    ensures
        ({
            let at = (y + r) * stride + x_off;
            pasted_rows(pixels, stride, x_off, y, source, row_len, rows).subrange(at, at + row_len)
                == source.subrange(r * row_len, r * row_len + row_len)
        }),
    decreases rows,
{
    let at = (y + r) * stride + x_off;
    let last = rows - 1;
    let before = pasted_rows(pixels, stride, x_off, y, source, row_len, last);
    let dst = (y + last) * stride + x_off;
    let src = last * row_len;
    lemma_pasted_rows_len(pixels, stride, x_off, y, source, row_len, last);
    assert(0 <= src) by (nonlinear_arith)
        requires src == last * row_len, 0 <= last, 0 <= row_len;
    assert(dst + row_len <= (y + rows) * stride) by (nonlinear_arith)
        requires dst == (y + last) * stride + x_off, x_off + row_len <= stride, last == rows - 1;
    assert(0 <= at) by (nonlinear_arith)
        requires at == (y + r) * stride + x_off, 0 <= y, 0 <= r, 0 <= x_off, 0 <= stride;
    assert(0 <= dst) by (nonlinear_arith)
        requires dst == (y + last) * stride + x_off, 0 <= y, 0 <= last, 0 <= x_off, 0 <= stride;
    assert(r * row_len + row_len == (r + 1) * row_len) by (nonlinear_arith);
    if r == last {
        assert(src + row_len <= source.len());
        lemma_splice(before, dst, source.subrange(src, src + row_len));
    } else {
        lemma_pasted_row_reads_back(pixels, stride, x_off, y, source, row_len, last, r);
        assert((y + r + 1) * stride <= (y + last) * stride) by (nonlinear_arith)
            requires r + 1 <= last, 0 <= stride;
        assert((y + r) * stride + stride == (y + r + 1) * stride) by (nonlinear_arith);
        assert(at + row_len <= dst);
        if src + row_len <= source.len() && dst + row_len <= before.len() {
            lemma_splice(before, dst, source.subrange(src, src + row_len));
            assert(pasted_rows(pixels, stride, x_off, y, source, row_len, rows).subrange(at, at + row_len)
                == before.subrange(at, at + row_len));
        }
    }
}


/// Copy the rows of `raster` into `texture` with its top left pixel at
/// (`x`, `y`), as `pasted_rows` describes; rows the raster is too short for
/// are left out.
fn paste(texture: &mut AtlasTexture, bpp: usize, x: u32, y: u32, raster: &Raster)
    requires
        1 <= bpp <= 4,
        old(texture).width <= ATLAS_MAX_DIM,
        old(texture).cpu@.len() == old(texture).width * old(texture).width * bpp,
        0 < raster.width,
        0 < raster.height,
        x + raster.width <= old(texture).width,
        y + raster.height <= old(texture).width,
    ensures
        final(texture).kind == old(texture).kind,
        final(texture).width == old(texture).width,
        final(texture).height == old(texture).height,
        final(texture).cpu@ == pasted_rows(old(texture).cpu@, old(texture).width * bpp, x * bpp, y as int,
            raster.bytes@, raster.width * bpp, raster.height as int),
{
    let side = texture.width;
    assert(side * bpp <= 8192 * 4) by (nonlinear_arith)
        requires side <= 8192, bpp <= 4;
    let stride = side as usize * bpp;
    let width = raster.width as u32;
    let height = raster.height as u32;
    assert(x * bpp + width * bpp <= stride) by (nonlinear_arith)
        requires x + width <= side, stride == side * bpp, 0 <= bpp;
    assert(side * stride <= 8192 * 8192 * 4) by (nonlinear_arith)
        requires side <= 8192, stride <= 8192 * 4;
    assert(texture.cpu@.len() == side * stride) by (nonlinear_arith)
        requires texture.cpu@.len() == side * side * bpp, stride == side * bpp;
    let row_len = width as usize * bpp;
    let x_off = x as usize * bpp;
    let ghost original = texture.cpu@;
    let mut row: u32 = 0;
    while row < height
        invariant
            row <= height,
            y + height <= side,
            side <= 8192,
            stride == side * bpp,
            stride <= 8192 * 4,
            x_off == x * bpp,
            row_len == width * bpp,
            width == raster.width,
            height == raster.height,
            x_off + row_len <= stride,
            texture.cpu@.len() == side * stride,
            side * stride <= 8192 * 8192 * 4,
            texture.kind == old(texture).kind,
            texture.width == old(texture).width,
            texture.height == old(texture).height,
            original == old(texture).cpu@,
            texture.cpu@ == pasted_rows(original, stride as int, x_off as int, y as int, raster.bytes@, row_len as int, row as int),
        decreases height - row,
    {
        assert((y + row) * stride + stride <= side * stride) by (nonlinear_arith)
            requires y + row < side, 0 <= stride;
        assert(0 <= (y + row) * stride) by (nonlinear_arith)
            requires 0 <= y + row, 0 <= stride;
        assert(row * row_len <= 8192 * 8192 * 4) by (nonlinear_arith)
            requires row <= 8192, row_len <= 8192 * 4;
        let dst = (y + row) as usize * stride + x_off;
        let src = row as usize * row_len;
        let ghost before = texture.cpu@;
        if src + row_len <= raster.bytes.len() && dst + row_len <= texture.cpu.len() {
            let mut column: usize = 0;
            while column < row_len
                invariant
                    column <= row_len,
                    src + row_len <= raster.bytes@.len(),
                    dst + row_len <= before.len(),
                    src + row_len <= usize::MAX,
                    dst + row_len <= usize::MAX,
                    texture.cpu@.len() == before.len(),
                    texture.kind == old(texture).kind,
                    texture.width == old(texture).width,
                    texture.height == old(texture).height,
                    texture.cpu@ == before.subrange(0, dst as int) + raster.bytes@.subrange(src as int, src + column)
                        + before.subrange(dst + column, before.len() as int),
                decreases row_len - column,
            {
                let value = raster.bytes[src + column];
                let ghost prior = texture.cpu@;
                texture.cpu.set(dst + column, value);
                proof {
                    assert(texture.cpu@ =~= before.subrange(0, dst as int) + raster.bytes@.subrange(src as int, src + column + 1)
                        + before.subrange(dst + column + 1, before.len() as int));
                }
                column = column + 1;
            }
            proof {
                assert(texture.cpu@ =~= splice(before, dst as int, raster.bytes@.subrange(src as int, src + row_len)));
            }
        }
        row = row + 1;
    }
}

impl OhosAtlas {
    /// Whether a picture of `width` x `height` stored under `key` has to be
    /// shrunk before it is placed, and to which longest side: only a picture
    /// can arrive longer than the largest an atlas may become.
    pub fn scaling_limit(&self, key: &AtlasKey, width: i32, height: i32) -> (limit: Option<u32>)
        ensures
            limit == if key.is_image && (width > spec_growth_limit(self.device_limit()) as i32 || height > spec_growth_limit(self.device_limit()) as i32) {
                Some(spec_growth_limit(self.device_limit()))
            } else {
                None::<u32>
            },
    {
        let limit = self.growth_limit();
        if key.is_image && exceeds_limit(width, height, limit) {
            Some(limit)
        } else {
            None
        }
    }

    /// Place `raster` for `key`, which has no tile yet. The region is found in
    /// the order that costs least: a free rectangle, then more room for a
    /// region that does not fit the current size, then the space of tiles not
    /// painted in the frame being built, and only then more room for a region
    /// that fits but has none left. A raster with no area places nothing.
    #[verifier::rlimit(40)]
    pub fn insert(&mut self, key: &AtlasKey, raster: &Raster) -> (result: Result<Option<AtlasTile>, AtlasError>)
        requires
            old(self).wf(),
            !old(self).tiles().contains_key(key.id),
        ensures
            final(self).wf(),
            final(self).frame() == old(self).frame(),
            final(self).device_limit() == old(self).device_limit(),
            (raster.width <= 0 || raster.height <= 0) ==> (result is Ok && result->Ok_0 is None && *final(self) == *old(self)),
            (raster.width > 0 && raster.height > 0) ==> (result is Err || (result is Ok && result->Ok_0 is Some)),
            forall|k: u64| k != key.id && #[trigger] final(self).tiles().contains_key(k) ==> {
                &&& old(self).tiles().contains_key(k)
                &&& final(self).tiles()[k] == old(self).tiles()[k]
                &&& final(self).last_painted()[k] == old(self).last_painted()[k]
            },
            forall|k: u64| #[trigger] old(self).tiles().contains_key(k) && old(self).last_painted()[k] == old(self).frame()
                ==> final(self).tiles().contains_key(k),
            forall|kind: TextureKind| #[trigger] final(self).side(kind) >= old(self).side(kind),
            forall|k: u64| k != key.id && #[trigger] final(self).tiles().contains_key(k)
                ==> keeps_tile(*old(self), *final(self), final(self).tiles()[k]),
            result is Err ==> !final(self).tiles().contains_key(key.id) && result->Err_0 is NoRoom,
            result is Err ==> no_room(*final(self), key.kind, raster.width, raster.height, old(self).frame()),
            (exists|k: u64| #[trigger] old(self).tiles().contains_key(k) && !final(self).tiles().contains_key(k))
                ==> refused_at(old(self).regions(key.kind), unforced_side(*old(self), key.kind, raster.width, raster.height),
                    raster.width, raster.height),
            result matches Err(AtlasError::NoRoom { kind, texture_side, width, height }) ==> {
                &&& kind == key.kind
                &&& texture_side == final(self).side(key.kind)
                &&& width == raster.width
                &&& height == raster.height
            },
            (result is Ok && result->Ok_0 is Some) ==> ({
                let tile = result->Ok_0->0;
                let kind = key.kind;
                let bpp = kind.spec_bytes_per_pixel();
                let row_len = raster.width * bpp;
                &&& final(self).tiles().contains_key(key.id)
                &&& final(self).tiles()[key.id] == tile
                &&& final(self).last_painted()[key.id] == old(self).frame()
                &&& tile.kind == kind
                &&& tile.texture_index == kind.spec_index()
                &&& tile.padding == 0
                &&& tile.bounds.width == raster.width
                &&& tile.bounds.height >= raster.height
                &&& bounds_inside(tile.bounds, final(self).side(kind), final(self).side(kind))
                &&& final(self).dirty().len() > 0
                &&& final(self).dirty().last() == (kind, tile.bounds)
                &&& forall|r: int| #![trigger final(self).pixels(kind).subrange((tile.bounds.y + r) * final(self).stride(kind) + tile.bounds.x * bpp, (tile.bounds.y + r) * final(self).stride(kind) + tile.bounds.x * bpp + row_len)]
                    0 <= r < raster.height && (r + 1) * row_len <= raster.bytes@.len() ==> {
                    let at = (tile.bounds.y + r) * final(self).stride(kind) + tile.bounds.x * bpp;
                    final(self).pixels(kind).subrange(at, at + row_len) == raster.bytes@.subrange(r * row_len, r * row_len + row_len)
                }
            }),
    {
        if raster.width <= 0 || raster.height <= 0 {
            return Ok(None);
        }
        let kind = key.kind;
        let limit = self.growth_limit();
        let frame = self.frame;
        let mut placed: Option<(u32, (i32, i32, i32, i32))> = None;
        let mut searching = true;
        let ghost mut refused: BucketedAtlasAllocator = self.allocator(kind);
        let ghost mut evicted_any = false;
        let ghost mut refused_full: BucketedAtlasAllocator = self.allocator(kind);
        let ghost s0 = self.side(kind);
        let ghost needed = vstd::math::max(vstd::math::max(raster.width as int, raster.height as int), 0);
        let ghost full = doubled_side(s0, needed, limit as int);
        proof {
            self.lemma_views();
            old(self).lemma_texture_wf(kind);
            lemma_doubled_side_settles(s0, needed, limit as int);
        }
        while searching
            invariant
                self.wf(),
                old(self).wf(),
                frame == old(self).frame(),
                self.frame() == frame,
                self.device_limit() == old(self).device_limit(),
                limit == spec_growth_limit(self.device_limit()),
                limit <= ATLAS_MAX_DIM,
                raster.width > 0 && raster.height > 0,
                kind == key.kind,
                !self.tiles().contains_key(key.id),
                forall|k: u64| #[trigger] self.tiles().contains_key(k) ==> {
                    &&& old(self).tiles().contains_key(k)
                    &&& self.tiles()[k] == old(self).tiles()[k]
                    &&& self.last_painted()[k] == old(self).last_painted()[k]
                },
                forall|k: u64| #[trigger] old(self).tiles().contains_key(k) && old(self).last_painted()[k] == old(self).frame()
                    ==> self.tiles().contains_key(k),
                forall|other: TextureKind| #[trigger] self.side(other) >= old(self).side(other),
                forall|k: u64| #[trigger] self.tiles().contains_key(k) ==> keeps_tile(*old(self), *self, self.tiles()[k]),
                s0 == old(self).side(kind),
                s0 > 0,
                needed == vstd::math::max(vstd::math::max(raster.width as int, raster.height as int), 0),
                full == doubled_side(s0, needed, limit as int),
                !(full < needed && full < limit),
                !evicted_any ==> self.tiles() == old(self).tiles() && self.last_painted() == old(self).last_painted(),
                searching && !evicted_any ==> self.regions(kind) == old(self).regions(kind),
                !evicted_any ==> (self.side(kind) == s0 || self.side(kind) == full
                    || !exists|k: u64| evictable(self.tiles(), self.last_painted(), k, kind, frame)),
                evicted_any ==> ({
                    &&& allocation_choice(refused_full, raster.width, raster.height) is None
                    &&& allocated_regions(refused_full) == old(self).regions(kind)
                    &&& allocator_extent(refused_full) == (full as i32, full as i32)
                }),
                searching ==> placed is None,
                !searching && placed is None ==> ({
                    &&& allocation_choice(refused, raster.width, raster.height) is None
                    &&& allocated_regions(refused) == self.regions(kind)
                    &&& allocator_extent(refused) == (self.side(kind) as i32, self.side(kind) as i32)
                    &&& !exists|k: u64| evictable(self.tiles(), self.last_painted(), k, kind, frame)
                    &&& self.side(kind) >= limit
                }),
                !searching && placed is Some ==> ({
                    let (id, rect) = placed->0;
                    &&& allocated_regions(self.allocator(kind)).contains_key(id)
                    &&& allocated_regions(self.allocator(kind))[id] == rect
                    &&& rect.2 - rect.0 == raster.width
                    &&& rect.3 - rect.1 >= raster.height
                    &&& forall|k: u64| #[trigger] self.tiles@.contains_key(k) && self.tiles@[k].tile.kind == kind ==> self.tiles@[k].tile.tile_id != id
                }),
            decreases (if searching { 1int } else { 0int }), ATLAS_MAX_DIM - self.side(kind), self.tiles@.dom().len(),
        {
            proof {
                self.lemma_views();
                self.lemma_texture_wf(kind);
            }
            let ghost before = *self;
            let attempt = match kind {
                TextureKind::Monochrome => allocator_allocate(&mut self.monochrome_allocator, raster.width, raster.height),
                TextureKind::Polychrome => allocator_allocate(&mut self.polychrome_allocator, raster.width, raster.height),
                TextureKind::Subpixel => allocator_allocate(&mut self.subpixel_allocator, raster.width, raster.height),
            };
            proof {
                assert forall|other: TextureKind| #[trigger] self.side(other) >= old(self).side(other) by {
                    assert(self.side(other) == before.side(other));
                }
                assert forall|other: TextureKind| other != kind implies #[trigger] self.allocator(other) == before.allocator(other) by {}
                assert(self.tiles@ == before.tiles@);
                assert forall|k: u64| #[trigger] self.tiles@.contains_key(k) implies self.record_wf(self.tiles@[k]) by {
                    assert(before.record_wf(before.tiles@[k]));
                    if self.tiles@[k].tile.kind == kind && attempt is Some {
                        assert(allocated_regions(before.allocator(kind)).contains_key(self.tiles@[k].tile.tile_id));
                    }
                }
                assert(texture_wf(self.texture(kind), kind, self.allocator(kind))) by {
                    assert forall|id: u32| #[trigger] allocated_regions(self.allocator(kind)).contains_key(id)
                        implies region_inside(allocated_regions(self.allocator(kind))[id], self.texture(kind).width as int, self.texture(kind).height as int) by {
                        if attempt is None || id != (attempt->0).0 {
                            assert(allocated_regions(before.allocator(kind)).contains_key(id));
                        }
                    }
                }
                assert forall|other: TextureKind| #[trigger] self.side(other) == before.side(other) && self.pixels(other) == before.pixels(other) by {}
                lemma_kept_tiles_same_textures(*old(self), before, *self);
            }
            match attempt {
                Some(found) => {
                    proof {
                        assert forall|k: u64| #[trigger] self.tiles@.contains_key(k) && self.tiles@[k].tile.kind == kind
                            implies self.tiles@[k].tile.tile_id != found.0 by {
                            assert(before.record_wf(before.tiles@[k]));
                        }
                    }
                    placed = Some(found);
                    searching = false;
                },
                None => {
                    let ghost allocated = *self;
                    proof {
                        refused = before.allocator(kind);
                    }
                    assert forall|other: TextureKind| #[trigger] allocated.side(other) >= old(self).side(other) by {
                        assert(allocated.side(other) == before.side(other));
                    }
                    proof {
                        before.lemma_texture_wf(kind);
                        lemma_doubled_side_grows(allocated.side(kind), needed, limit as int);
                        lemma_doubled_side_settles(allocated.side(kind), needed, limit as int);
                    }
                    if self.grow_texture(kind, raster.width, raster.height, limit, false) {
                        proof {
                            lemma_kept_tiles_grown(*old(self), allocated, *self, kind);
                            self.lemma_views();
                            assert(self.tiles@.dom() =~= before.tiles@.dom());
                            assert(self.regions(kind) == allocated.regions(kind));
                            assert forall|other: TextureKind| #[trigger] self.side(other) >= old(self).side(other) by {
                                if other != kind {
                                    assert(self.side(other) == allocated.side(other));
                                }
                            }
                        }
                    } else if self.evict_oldest(kind, frame) {
                        proof {
                            self.lemma_views();
                            let k = choose|k: u64| {
                                &&& evictable(before.tiles(), before.last_painted(), k, kind, frame)
                                &&& self.tiles() == before.tiles().remove(k)
                            };
                            assert(self.tiles@.dom() =~= before.tiles@.dom().remove(k));
                            assert forall|o: TextureKind| #[trigger] self.pixels(o) == allocated.pixels(o) by {
                                assert(self.side(o) == allocated.side(o));
                            }
                            lemma_kept_tiles_same_textures(*old(self), allocated, *self);
                            if !evicted_any {
                                assert(allocated.side(kind) == full);
                                refused_full = before.allocator(kind);
                                evicted_any = true;
                            }
                        }
                    } else if self.grow_texture(kind, raster.width, raster.height, limit, true) {
                        proof {
                            lemma_kept_tiles_grown(*old(self), allocated, *self, kind);
                            self.lemma_views();
                            assert(self.tiles@.dom() =~= before.tiles@.dom());
                            assert(self.regions(kind) == allocated.regions(kind));
                            assert forall|other: TextureKind| #[trigger] self.side(other) >= old(self).side(other) by {
                                if other != kind {
                                    assert(self.side(other) == allocated.side(other));
                                }
                            }
                        }
                    } else {
                        proof {
                            self.lemma_texture_wf(kind);
                            lemma_doubled_side_grows(self.side(kind), vstd::math::max(
                                vstd::math::max(vstd::math::max(raster.width as int, raster.height as int), 0), self.side(kind) * 2), limit as int);
                        }
                        searching = false;
                    }
                },
            }
        }
        proof {
            if evicted_any {
                assert(allocation_choice(refused_full, raster.width, raster.height) is None);
            }
        }
        match placed {
            None => {
                proof {
                    self.lemma_texture_wf(kind);
                    assert(allocation_choice(refused, raster.width, raster.height) is None);
                }
                let (texture_side, _) = self.texture_size(kind);
                Err(AtlasError::NoRoom { kind, texture_side, width: raster.width, height: raster.height })
            },
            Some((id, rect)) => {
                proof {
                    self.lemma_views();
                    self.lemma_texture_wf(kind);
                }
                let bounds = TileBounds { x: rect.0, y: rect.1, width: rect.2 - rect.0, height: rect.3 - rect.1 };
                let bpp = bytes_per_pixel(kind);
                let ghost unpasted = self.pixels(kind);
                let ghost placing = *self;
                match kind {
                    TextureKind::Monochrome => paste(&mut self.monochrome, bpp, rect.0 as u32, rect.1 as u32, raster),
                    TextureKind::Polychrome => paste(&mut self.polychrome, bpp, rect.0 as u32, rect.1 as u32, raster),
                    TextureKind::Subpixel => paste(&mut self.subpixel, bpp, rect.0 as u32, rect.1 as u32, raster),
                }
                self.dirty.push((kind, bounds));
                let tile = AtlasTile { texture_index: kind.index(), kind, tile_id: id, padding: 0, bounds };
                let ghost tiles_before = self.tiles@;
                self.tiles.insert(key.id, TileRecord { tile, last_used: frame });
                proof {
                    let side = self.side(kind);
                    let stride = self.stride(kind);
                    let row_len = raster.width * bpp;
                    lemma_pasted_rows_len(unpasted, stride, bounds.x * bpp, bounds.y as int, raster.bytes@, row_len, raster.height as int);
                    assert forall|other: TextureKind| #[trigger] self.side(other) >= old(self).side(other) by {
                        assert(self.side(other) == placing.side(other));
                    }
                    assert(side * bpp == stride);
                    assert(unpasted.len() == side * side * bpp);
                    assert((bounds.y + raster.height) * stride <= side * stride) by (nonlinear_arith)
                        requires bounds.y + raster.height <= side, 0 <= stride;
                    assert(side * stride == side * side * bpp) by (nonlinear_arith)
                        requires stride == side * bpp;
                    assert(bounds.x * bpp + row_len <= stride) by (nonlinear_arith)
                        requires bounds.x + raster.width <= side, stride == side * bpp, row_len == raster.width * bpp, 0 <= bpp;
                    assert forall|r: int| 0 <= r < raster.height && (r + 1) * row_len <= raster.bytes@.len() implies
                        #[trigger] self.pixels(kind).subrange((bounds.y + r) * stride + bounds.x * bpp, (bounds.y + r) * stride + bounds.x * bpp + row_len)
                            == raster.bytes@.subrange(r * row_len, r * row_len + row_len) by {
                        lemma_pasted_row_reads_back(unpasted, stride, bounds.x * bpp, bounds.y as int, raster.bytes@, row_len, raster.height as int, r);
                    }
                    assert(self.tiles() =~= tiles_before.map_values(|record: TileRecord| record.tile).insert(key.id, tile));
                    placing.lemma_views();
                    lemma_tiles_inside_textures(placing);
                    texture_sides_in_range(placing);
                    assert forall|k: u64| k != key.id && #[trigger] self.tiles().contains_key(k)
                        implies keeps_tile(*old(self), *self, self.tiles()[k]) by {
                        let t = self.tiles()[k];
                        assert(tiles_before.contains_key(k));
                        assert(placing.tiles().contains_key(k) && placing.tiles()[k] == t);
                        if t.kind == kind {
                            assert(placing.record_wf(placing.tiles@[k]));
                            let regions = placing.regions(kind);
                            assert(t.tile_id != id);
                            assert(regions.contains_key(t.tile_id) && regions.contains_key(id));
                            assert(rects_apart(regions[t.tile_id], rect));
                            lemma_paste_keeps_tile(placing, *self, t, regions[t.tile_id], rect, raster.width as int, raster.height as int, raster.bytes@);
                        } else {
                            lemma_same_texture_keeps_tile(placing, *self, t);
                        }
                        lemma_keeps_tile_chain(*old(self), placing, *self, t);
                    }
                    assert forall|k: u64| #[trigger] self.tiles@.contains_key(k) implies self.record_wf(self.tiles@[k]) by {
                        if k != key.id {
                            assert(tiles_before.contains_key(k));
                        }
                    }
                    assert forall|i: int| 0 <= i < self.dirty@.len()
                        implies bounds_inside(#[trigger] self.dirty@[i].1, self.side(self.dirty@[i].0), self.side(self.dirty@[i].0)) by {
                        if i < self.dirty@.len() - 1 {
                            assert(self.dirty@[i] == self.dirty@.drop_last()[i]);
                        }
                    }
                    assert forall|a: u64, b: u64|
                        #[trigger] self.tiles@.contains_key(a) && #[trigger] self.tiles@.contains_key(b) && a != b
                            && self.tiles@[a].tile.kind == self.tiles@[b].tile.kind
                        implies self.tiles@[a].tile.tile_id != self.tiles@[b].tile.tile_id by {
                        if a != key.id && b != key.id {
                            assert(tiles_before.contains_key(a) && tiles_before.contains_key(b));
                        }
                    }
                }
                Ok(Some(tile))
            },
        }
    }
}


/// Whether two atlases hold the same tiles, paint marks, pending uploads,
/// frame, device limit, texture sizes and pixels.
pub open spec fn same_contents(a: OhosAtlas, b: OhosAtlas) -> bool {
    &&& a.tiles() == b.tiles()
    &&& a.last_painted() == b.last_painted()
    &&& a.dirty() == b.dirty()
    &&& a.frame() == b.frame()
    &&& a.device_limit() == b.device_limit()
    &&& forall|kind: TextureKind| #[trigger] a.side(kind) == b.side(kind) && a.pixels(kind) == b.pixels(kind)
}

/// Whether `placed` is what a key's pictures come to before placing: `build`
/// produced a raster with an area, and `placed` is that raster, or, for a
/// picture longer than the growth limit `limit`, what `scale` shrank it to.
pub open spec fn built_for<B, S>(build: B, scale: S, key: AtlasKey, limit: u32, placed: Raster) -> bool
    where
        B: FnOnce() -> Result<Option<Raster>, String>,
        S: FnOnce(Raster, u32) -> Raster,
{
    exists|built: Raster| {
        &&& #[trigger] call_ensures(build, (), Ok(Some(built)))
        &&& built.width > 0 && built.height > 0
        &&& if key.is_image && (built.width > limit as i32 || built.height > limit as i32) {
            call_ensures(scale, (built, limit), placed)
        } else {
            placed == built
        }
    }
}

/// Whether the rows of `raster` are the pixels of the texture of `kind` at
/// `bounds`.
pub open spec fn holds_rows(atlas: OhosAtlas, kind: TextureKind, bounds: TileBounds, raster: Raster) -> bool {
    let bpp = kind.spec_bytes_per_pixel();
    let row_len = raster.width * bpp;
    forall|r: int| #![trigger atlas.pixels(kind).subrange((bounds.y + r) * atlas.stride(kind) + bounds.x * bpp, (bounds.y + r) * atlas.stride(kind) + bounds.x * bpp + row_len)]
        0 <= r < raster.height && (r + 1) * row_len <= raster.bytes@.len() ==> {
        let at = (bounds.y + r) * atlas.stride(kind) + bounds.x * bpp;
        atlas.pixels(kind).subrange(at, at + row_len) == raster.bytes@.subrange(r * row_len, r * row_len + row_len)
    }
}

impl OhosAtlas {
    /// The tile for `key`: the one already placed, or else the pixels `build`
    /// produces, shrunk by `scale` to the growth limit when they are a picture
    /// longer than any atlas may become, placed as `insert` places them.
    /// `build` runs only when nothing is placed for the key yet; a build that
    /// fails or produces nothing to draw places nothing.
    pub fn get_or_insert_with<B, S>(&mut self, key: &AtlasKey, build: B, scale: S) -> (result: Result<Option<AtlasTile>, AtlasError>)
        where
            B: FnOnce() -> Result<Option<Raster>, String>,
            S: FnOnce(Raster, u32) -> Raster,
        requires
            old(self).wf(),
            call_requires(build, ()),
            forall|raster: Raster, limit: u32| call_requires(scale, (raster, limit)),
        ensures
            final(self).wf(),
            final(self).frame() == old(self).frame(),
            final(self).device_limit() == old(self).device_limit(),
            old(self).tiles().contains_key(key.id) ==> {
                &&& result is Ok
                &&& result->Ok_0 == Some(old(self).tiles()[key.id])
                &&& final(self).tiles() == old(self).tiles()
                &&& final(self).last_painted() == old(self).last_painted().insert(key.id, old(self).frame())
                &&& final(self).dirty() == old(self).dirty()
                &&& forall|kind: TextureKind| #[trigger] final(self).side(kind) == old(self).side(kind) && final(self).pixels(kind) == old(self).pixels(kind)
            },
            !old(self).tiles().contains_key(key.id) ==> (result matches Ok(None) ==> {
                &&& same_contents(*final(self), *old(self))
                &&& (exists|built: Result<Option<Raster>, String>| #[trigger] call_ensures(build, (), built) && match built {
                    Ok(None) => true,
                    Ok(Some(raster)) => raster.width <= 0 || raster.height <= 0,
                    Err(_) => false,
                }) || (exists|placed: Raster| #[trigger] built_for(build, scale, *key, spec_growth_limit(old(self).device_limit()), placed)
                    && (placed.width <= 0 || placed.height <= 0))
            }),
            !old(self).tiles().contains_key(key.id) ==> (result matches Err(AtlasError::Build(_)) ==> same_contents(*final(self), *old(self))),
            !old(self).tiles().contains_key(key.id) ==> (result matches Err(AtlasError::NoRoom { .. }) ==>
                exists|placed: Raster| built_for(build, scale, *key, spec_growth_limit(old(self).device_limit()), placed)
                    && #[trigger] no_room(*final(self), key.kind, placed.width, placed.height, old(self).frame())),
            (exists|k: u64| #[trigger] old(self).tiles().contains_key(k) && !final(self).tiles().contains_key(k))
                ==> exists|placed: Raster| built_for(build, scale, *key, spec_growth_limit(old(self).device_limit()), placed)
                    && #[trigger] refused_at(old(self).regions(key.kind), unforced_side(*old(self), key.kind, placed.width, placed.height),
                        placed.width, placed.height),
            !old(self).tiles().contains_key(key.id) ==> (result matches Ok(Some(tile)) ==> {
                &&& tile.texture_index == key.kind.spec_index()
                &&& tile.padding == 0
                &&& final(self).last_painted()[key.id] == old(self).frame()
                &&& final(self).dirty().len() > 0
                &&& final(self).dirty().last() == (key.kind, tile.bounds)
                &&& forall|k: u64| k != key.id && #[trigger] final(self).tiles().contains_key(k) && final(self).tiles()[k].kind == key.kind
                    ==> bounds_apart(tile.bounds, final(self).tiles()[k].bounds)
                &&& exists|placed: Raster| {
                    &&& built_for(build, scale, *key, spec_growth_limit(old(self).device_limit()), placed)
                    &&& tile.bounds.width == placed.width
                    &&& tile.bounds.height >= placed.height
                    &&& #[trigger] holds_rows(*final(self), key.kind, tile.bounds, placed)
                }
            }),
            !old(self).tiles().contains_key(key.id) ==> {
                &&& (result is Ok && result->Ok_0 is Some) ==> {
                    &&& final(self).tiles().contains_key(key.id)
                    &&& final(self).tiles()[key.id] == result->Ok_0->0
                    &&& result->Ok_0->0.kind == key.kind
                    &&& bounds_inside(result->Ok_0->0.bounds, final(self).side(key.kind), final(self).side(key.kind))
                }
                &&& (result is Err || (result is Ok && result->Ok_0 is None)) ==> !final(self).tiles().contains_key(key.id)
            },
            forall|k: u64| k != key.id && #[trigger] final(self).tiles().contains_key(k) ==> {
                &&& old(self).tiles().contains_key(k)
                &&& final(self).tiles()[k] == old(self).tiles()[k]
            },
            forall|k: u64| #[trigger] old(self).tiles().contains_key(k) && old(self).last_painted()[k] == old(self).frame()
                ==> final(self).tiles().contains_key(k),
            forall|k: u64| k != key.id && #[trigger] final(self).tiles().contains_key(k)
                ==> keeps_tile(*old(self), *final(self), final(self).tiles()[k]),
            result matches Err(AtlasError::Build(e)) ==> call_ensures(build, (), Err(e)),
            result matches Err(AtlasError::NoRoom { kind, texture_side, .. }) ==> kind == key.kind && texture_side == final(self).side(key.kind),
    {
        if let Some(tile) = self.get(key) {
            proof {
                assert forall|k: u64| k != key.id && #[trigger] self.tiles().contains_key(k)
                    implies keeps_tile(*old(self), *self, self.tiles()[k]) by {
                    let t = self.tiles()[k];
                    assert(self.side(t.kind) == old(self).side(t.kind));
                    lemma_same_texture_keeps_tile(*old(self), *self, t);
                }
            }
            return Ok(Some(tile));
        }
        proof {
            assert(same_contents(*self, *old(self)));
            assert forall|k: u64| #[trigger] self.tiles().contains_key(k) implies keeps_tile(*old(self), *self, self.tiles()[k]) by {
                let t = self.tiles()[k];
                assert(self.side(t.kind) == old(self).side(t.kind));
                lemma_same_texture_keeps_tile(*old(self), *self, t);
            }
        }
        let built = build();
        let raster = match built {
            Err(error) => return Err(AtlasError::Build(error)),
            Ok(None) => return Ok(None),
            Ok(Some(raster)) => raster,
        };
        if raster.width <= 0 || raster.height <= 0 {
            return Ok(None);
        }
        let ghost original = raster;
        let ghost limit = spec_growth_limit(self.device_limit());
        let raster = match self.scaling_limit(key, raster.width, raster.height) {
            Some(limit) => scale(raster, limit),
            None => raster,
        };
        proof {
            assert(call_ensures(build, (), Ok(Some(original))));
            assert(built_for(build, scale, *key, limit, raster));
        }
        let ghost placing = *self;
        let result = self.insert(key, &raster);
        proof {
            assert forall|k: u64| k != key.id && #[trigger] self.tiles().contains_key(k)
                implies keeps_tile(*old(self), *self, self.tiles()[k]) by {
                let t = self.tiles()[k];
                assert(placing.tiles().contains_key(k) && placing.tiles()[k] == t);
                lemma_keeps_tile_chain(*old(self), placing, *self, t);
            }
            if exists|k: u64| #[trigger] old(self).tiles().contains_key(k) && !self.tiles().contains_key(k) {
                let k = choose|k: u64| #[trigger] old(self).tiles().contains_key(k) && !self.tiles().contains_key(k);
                assert(placing.tiles().contains_key(k));
                assert(placing.regions(key.kind) == old(self).regions(key.kind));
                assert(refused_at(old(self).regions(key.kind), unforced_side(*old(self), key.kind, raster.width, raster.height),
                    raster.width, raster.height));
            }
            match result {
                Ok(None) => {
                    assert(built_for(build, scale, *key, limit, raster) && (raster.width <= 0 || raster.height <= 0));
                },
                Ok(Some(tile)) => {
                    assert(holds_rows(*self, key.kind, tile.bounds, raster));
                    assert forall|k: u64| k != key.id && #[trigger] self.tiles().contains_key(k) && self.tiles()[k].kind == key.kind
                        implies bounds_apart(tile.bounds, self.tiles()[k].bounds) by {
                        live_tiles_do_not_overlap(*self, key.id, k);
                    }
                },
                Err(_) => {
                    assert(no_room(*self, key.kind, raster.width, raster.height, old(self).frame()));
                },
                _ => {},
            }
        }
        result
    }
}

/// Byte `c` of row `r` of `tile`, as the texture of its kind holds it.
pub open spec fn tile_byte(atlas: OhosAtlas, tile: AtlasTile, r: int, c: int) -> u8 {
    atlas.pixels(tile.kind)[(tile.bounds.y + r) * atlas.stride(tile.kind) + tile.bounds.x * tile.kind.spec_bytes_per_pixel() + c]
}

/// Whether `after` shows `tile` as `before` did: every byte of every row of
/// it is the same.
pub open spec fn keeps_tile(before: OhosAtlas, after: OhosAtlas, tile: AtlasTile) -> bool {
    forall|r: int, c: int| 0 <= r < tile.bounds.height && 0 <= c < tile.bounds.width * tile.kind.spec_bytes_per_pixel()
        ==> #[trigger] tile_byte(after, tile, r, c) == tile_byte(before, tile, r, c)
}

proof fn lemma_keeps_tile_chain(a: OhosAtlas, b: OhosAtlas, c: OhosAtlas, tile: AtlasTile)
    requires
        keeps_tile(a, b, tile),
        keeps_tile(b, c, tile),
    ensures
        keeps_tile(a, c, tile),
{
    assert forall|r: int, x: int| 0 <= r < tile.bounds.height && 0 <= x < tile.bounds.width * tile.kind.spec_bytes_per_pixel()
        implies #[trigger] tile_byte(c, tile, r, x) == tile_byte(a, tile, r, x) by {
        assert(tile_byte(c, tile, r, x) == tile_byte(b, tile, r, x));
        assert(tile_byte(b, tile, r, x) == tile_byte(a, tile, r, x));
    }
}

proof fn lemma_same_texture_keeps_tile(before: OhosAtlas, after: OhosAtlas, tile: AtlasTile)
    requires
        after.side(tile.kind) == before.side(tile.kind),
        after.pixels(tile.kind) == before.pixels(tile.kind),
    ensures
        keeps_tile(before, after, tile),
{
}

/// Pasting rows leaves every byte outside the pasted rectangle as it was.
proof fn lemma_pasted_rows_outside(pixels: Seq<u8>, stride: int, x_off: int, y: int, source: Seq<u8>, row_len: int, rows: int, row: int, col: int)
    requires
        0 <= x_off,
        0 <= row_len,
        x_off + row_len <= stride,
        0 <= y,
        0 <= row,
        0 <= col < stride,
        row * stride + col < pixels.len(),
        row < y || row >= y + rows || col < x_off || col >= x_off + row_len,
    ensures
        pasted_rows(pixels, stride, x_off, y, source, row_len, rows)[row * stride + col] == pixels[row * stride + col],
    decreases rows,
{
    if rows > 0 {
        let r = rows - 1;
        lemma_pasted_rows_outside(pixels, stride, x_off, y, source, row_len, r, row, col);
        lemma_pasted_rows_len(pixels, stride, x_off, y, source, row_len, r);
        let before = pasted_rows(pixels, stride, x_off, y, source, row_len, r);
        let dst = (y + r) * stride + x_off;
        let src = r * row_len;
        let i = row * stride + col;
        assert(0 <= src) by (nonlinear_arith)
            requires src == r * row_len, 0 <= r, 0 <= row_len;
        assert(0 <= dst) by (nonlinear_arith)
            requires dst == (y + r) * stride + x_off, 0 <= y, 0 <= r, 0 <= x_off, 0 <= stride;
        if src + row_len <= source.len() && dst + row_len <= before.len() {
            if row < y + r {
                assert(i < (y + r) * stride) by (nonlinear_arith)
                    requires i == row * stride + col, row + 1 <= y + r, col < stride, 0 <= stride;
            } else if row > y + r {
                assert(i >= (y + r) * stride + stride) by (nonlinear_arith)
                    requires i == row * stride + col, row >= y + r + 1, 0 <= col, 0 <= stride;
            } else {
                assert(row * stride == (y + r) * stride);
            }
            assert(i < dst || i >= dst + row_len);
            let bytes = source.subrange(src, src + row_len);
            assert(splice(before, dst, bytes)[i] == before[i]);
        }
    }
}

/// Pasting a raster into the region `rect` leaves a tile whose region
/// `region` shares no pixel with it as it was.
proof fn lemma_paste_keeps_tile(before: OhosAtlas, after: OhosAtlas, tile: AtlasTile, region: (i32, i32, i32, i32),
    rect: (i32, i32, i32, i32), raster_width: int, raster_height: int, source: Seq<u8>)
    requires
        after.side(tile.kind) == before.side(tile.kind),
        before.pixels(tile.kind).len() == before.side(tile.kind) * before.stride(tile.kind),
        bounds_inside(tile.bounds, before.side(tile.kind), before.side(tile.kind)),
        bounds_are(tile.bounds, region),
        rects_apart(region, rect),
        0 <= rect.0,
        0 <= rect.1,
        0 <= raster_width,
        rect.2 - rect.0 == raster_width,
        rect.3 - rect.1 >= raster_height,
        rect.0 + raster_width <= before.side(tile.kind),
        after.pixels(tile.kind) == pasted_rows(before.pixels(tile.kind), before.stride(tile.kind),
            rect.0 * tile.kind.spec_bytes_per_pixel(), rect.1 as int, source, raster_width * tile.kind.spec_bytes_per_pixel(), raster_height),
    ensures
        keeps_tile(before, after, tile),
{
    let kind = tile.kind;
    let bpp = kind.spec_bytes_per_pixel();
    let side = before.side(kind);
    let stride = before.stride(kind);
    let b = tile.bounds;
    let x_off = rect.0 * bpp;
    let row_len = raster_width * bpp;
    assert(0 <= x_off && 0 <= row_len) by (nonlinear_arith)
        requires x_off == rect.0 * bpp, row_len == raster_width * bpp, 0 <= rect.0, 0 <= raster_width, 1 <= bpp;
    assert(x_off + row_len <= stride) by (nonlinear_arith)
        requires x_off == rect.0 * bpp, row_len == raster_width * bpp, rect.0 + raster_width <= side, stride == side * bpp, 1 <= bpp;
    assert forall|r: int, c: int| 0 <= r < b.height && 0 <= c < b.width * bpp
        implies #[trigger] tile_byte(after, tile, r, c) == tile_byte(before, tile, r, c) by {
        let row = b.y + r;
        let col = b.x * bpp + c;
        assert(col < (b.x + b.width) * bpp) by (nonlinear_arith)
            requires col == b.x * bpp + c, c < b.width * bpp;
        assert(b.x * bpp <= col) by (nonlinear_arith)
            requires col == b.x * bpp + c, 0 <= c;
        assert((b.x + b.width) * bpp <= stride) by (nonlinear_arith)
            requires b.x + b.width <= side, stride == side * bpp, 1 <= bpp;
        assert(0 <= b.x * bpp) by (nonlinear_arith)
            requires 0 <= b.x, 1 <= bpp;
        assert(row * stride + col < side * stride) by (nonlinear_arith)
            requires row + 1 <= side, col < stride, 0 <= stride;
        if region.2 <= rect.0 {
            assert((b.x + b.width) * bpp <= x_off) by (nonlinear_arith)
                requires b.x + b.width <= rect.0, x_off == rect.0 * bpp, 1 <= bpp;
        } else if rect.2 <= region.0 {
            assert(x_off + row_len <= b.x * bpp) by (nonlinear_arith)
                requires rect.0 + raster_width <= b.x, x_off == rect.0 * bpp, row_len == raster_width * bpp, 1 <= bpp;
        }
        lemma_pasted_rows_outside(before.pixels(kind), stride, x_off, rect.1 as int, source, row_len, raster_height, row, col);
    }
}

/// Growing the texture of a tile's kind leaves the tile as it was.
pub proof fn lemma_grow_keeps_tile(before: OhosAtlas, after: OhosAtlas, tile: AtlasTile)
    requires
        0 <= before.side(tile.kind) <= after.side(tile.kind),
        before.pixels(tile.kind).len() == before.side(tile.kind) * before.stride(tile.kind),
        bounds_inside(tile.bounds, before.side(tile.kind), before.side(tile.kind)),
        after.pixels(tile.kind) == widened_rows(before.pixels(tile.kind), before.stride(tile.kind), after.stride(tile.kind),
            before.side(tile.kind), after.side(tile.kind)),
    ensures
        keeps_tile(before, after, tile),
{
    let kind = tile.kind;
    let bpp = kind.spec_bytes_per_pixel();
    let old_side = before.side(kind);
    let new_side = after.side(kind);
    let os = before.stride(kind);
    let ns = after.stride(kind);
    let b = tile.bounds;
    assert(0 <= os <= ns) by (nonlinear_arith)
        requires os == old_side * bpp, ns == new_side * bpp, 0 <= old_side <= new_side, 1 <= bpp;
    assert(old_side * os == before.side(kind) * before.stride(kind));
    assert forall|r: int, c: int| 0 <= r < b.height && 0 <= c < b.width * bpp
        implies #[trigger] tile_byte(after, tile, r, c) == tile_byte(before, tile, r, c) by {
        let col = b.x * bpp + c;
        assert(col < (b.x + b.width) * bpp) by (nonlinear_arith)
            requires col == b.x * bpp + c, c < b.width * bpp;
        assert((b.x + b.width) * bpp <= os) by (nonlinear_arith)
            requires b.x + b.width <= old_side, os == old_side * bpp, 1 <= bpp;
        assert(0 <= b.x * bpp) by (nonlinear_arith)
            requires 0 <= b.x, 1 <= bpp;
        lemma_widened_rows_keep_pixels(before.pixels(kind), os, ns, old_side, new_side, b.y + r, col);
    }
}

/// Tiles an atlas still holds with the textures as they were are shown as
/// they were.
proof fn lemma_kept_tiles_same_textures(origin: OhosAtlas, before: OhosAtlas, after: OhosAtlas)
    requires
        forall|k: u64| #[trigger] before.tiles().contains_key(k) ==> keeps_tile(origin, before, before.tiles()[k]),
        forall|k: u64| #[trigger] after.tiles().contains_key(k) ==> before.tiles().contains_key(k) && after.tiles()[k] == before.tiles()[k],
        forall|kind: TextureKind| #[trigger] after.side(kind) == before.side(kind),
        forall|kind: TextureKind| #[trigger] after.pixels(kind) == before.pixels(kind),
    ensures
        forall|k: u64| #[trigger] after.tiles().contains_key(k) ==> keeps_tile(origin, after, after.tiles()[k]),
{
    assert forall|k: u64| #[trigger] after.tiles().contains_key(k) implies keeps_tile(origin, after, after.tiles()[k]) by {
        let t = after.tiles()[k];
        assert(before.tiles().contains_key(k));
        assert(after.side(t.kind) == before.side(t.kind) && after.pixels(t.kind) == before.pixels(t.kind));
        lemma_same_texture_keeps_tile(before, after, t);
        lemma_keeps_tile_chain(origin, before, after, t);
    }
}

/// Growing one texture shows every tile as it was.
proof fn lemma_kept_tiles_grown(origin: OhosAtlas, before: OhosAtlas, after: OhosAtlas, kind: TextureKind)
    requires
        before.wf(),
        forall|k: u64| #[trigger] before.tiles().contains_key(k) ==> keeps_tile(origin, before, before.tiles()[k]),
        after.tiles() == before.tiles(),
        before.side(kind) <= after.side(kind),
        after.pixels(kind) == widened_rows(before.pixels(kind), before.stride(kind), after.stride(kind), before.side(kind), after.side(kind)),
        forall|other: TextureKind| other != kind ==> after.side(other) == before.side(other) && after.pixels(other) == before.pixels(other),
    ensures
        forall|k: u64| #[trigger] after.tiles().contains_key(k) ==> keeps_tile(origin, after, after.tiles()[k]),
{
    lemma_tiles_inside_textures(before);
    texture_sides_in_range(before);
    assert forall|k: u64| #[trigger] after.tiles().contains_key(k) implies keeps_tile(origin, after, after.tiles()[k]) by {
        let t = after.tiles()[k];
        assert(before.tiles().contains_key(k));
        if t.kind == kind {
            lemma_grow_keeps_tile(before, after, t);
        } else {
            lemma_same_texture_keeps_tile(before, after, t);
        }
        lemma_keeps_tile_chain(origin, before, after, t);
    }
}

/// Every placed tile lies inside the texture of its kind.
pub proof fn lemma_tiles_inside_textures(atlas: OhosAtlas)
    requires
        atlas.wf(),
    ensures
        forall|key: u64| #[trigger] atlas.tiles().contains_key(key) ==> {
            let tile = atlas.tiles()[key];
            bounds_inside(tile.bounds, atlas.side(tile.kind), atlas.side(tile.kind))
        },
{
    assert forall|key: u64| #[trigger] atlas.tiles().contains_key(key) implies ({
        let tile = atlas.tiles()[key];
        bounds_inside(tile.bounds, atlas.side(tile.kind), atlas.side(tile.kind))
    }) by {
        atlas.lemma_views();
        let record = atlas.tiles@[key];
        assert(atlas.record_wf(record));
        atlas.lemma_texture_wf(record.tile.kind);
        let regions = allocated_regions(atlas.allocator(record.tile.kind));
        assert(regions.contains_key(record.tile.tile_id));
    }
}

/// Two tiles of one kind never share an allocation.
pub proof fn lemma_tiles_have_their_own_regions(atlas: OhosAtlas, a: u64, b: u64)
    requires
        atlas.wf(),
        atlas.tiles().contains_key(a),
        atlas.tiles().contains_key(b),
        a != b,
        atlas.tiles()[a].kind == atlas.tiles()[b].kind,
    ensures
        atlas.tiles()[a].tile_id != atlas.tiles()[b].tile_id,
{
    atlas.lemma_views();
}

/// Every texture of a well-formed atlas is between `ATLAS_START_DIM` and
/// `ATLAS_MAX_DIM` on a side, and its CPU copy holds exactly its pixels.
pub proof fn texture_sides_in_range(atlas: OhosAtlas)
    requires
        atlas.wf(),
    ensures
        forall|kind: TextureKind| ATLAS_START_DIM <= #[trigger] atlas.side(kind) <= ATLAS_MAX_DIM,
        forall|kind: TextureKind| #[trigger] atlas.pixels(kind).len() == atlas.side(kind) * atlas.stride(kind),
        atlas.frame() >= 1,
{
    assert forall|kind: TextureKind| ATLAS_START_DIM <= #[trigger] atlas.side(kind) <= ATLAS_MAX_DIM by {
        atlas.lemma_texture_wf(kind);
    }
    assert forall|kind: TextureKind| #[trigger] atlas.pixels(kind).len() == atlas.side(kind) * atlas.stride(kind) by {
        atlas.lemma_texture_wf(kind);
        assert(atlas.side(kind) * (atlas.side(kind) * kind.spec_bytes_per_pixel())
            == atlas.side(kind) * atlas.side(kind) * kind.spec_bytes_per_pixel()) by (nonlinear_arith);
    }
}

/// Whether two tiles' rectangles share no pixel.
pub open spec fn bounds_apart(a: TileBounds, b: TileBounds) -> bool {
    a.x + a.width <= b.x || b.x + b.width <= a.x || a.y + a.height <= b.y || b.y + b.height <= a.y
}

/// Live tiles of one texture never overlap.
pub proof fn live_tiles_do_not_overlap(atlas: OhosAtlas, a: u64, b: u64)
    requires
        atlas.wf(),
        atlas.tiles().contains_key(a),
        atlas.tiles().contains_key(b),
        a != b,
        atlas.tiles()[a].kind == atlas.tiles()[b].kind,
    ensures
        bounds_apart(atlas.tiles()[a].bounds, atlas.tiles()[b].bounds),
{
    atlas.lemma_views();
    let ra = atlas.tiles@[a];
    let rb = atlas.tiles@[b];
    assert(atlas.record_wf(ra));
    assert(atlas.record_wf(rb));
    let kind = ra.tile.kind;
    atlas.lemma_texture_wf(kind);
    let regions = allocated_regions(atlas.allocator(kind));
    assert(regions.contains_key(ra.tile.tile_id) && regions.contains_key(rb.tile.tile_id));
    assert(ra.tile.tile_id != rb.tile.tile_id);
    assert(rects_apart(regions[ra.tile.tile_id], regions[rb.tile.tile_id]));
}

/// Growing a texture keeps every pixel where it was: row `r`, byte `c` of the
/// old texture is row `r`, byte `c` of the grown one.
pub proof fn lemma_widened_rows_keep_pixels(old: Seq<u8>, old_stride: int, new_stride: int, old_rows: int, rows: int, r: int, c: int)
    requires
        0 <= old_stride <= new_stride,
        0 <= old_rows,
        old_rows * old_stride <= old.len(),
        0 <= r < old_rows,
        r < rows,
        0 <= c < old_stride,
    ensures
        widened_rows(old, old_stride, new_stride, old_rows, rows)[r * new_stride + c] == old[r * old_stride + c],
        widened_rows(old, old_stride, new_stride, old_rows, rows).len() == rows * new_stride,
    decreases rows,
{
    lemma_widened_rows_len(old, old_stride, new_stride, old_rows, rows);
    let last = rows - 1;
    lemma_widened_rows_len(old, old_stride, new_stride, old_rows, last);
    let prefix = widened_rows(old, old_stride, new_stride, old_rows, last);
    assert(r * new_stride + c < (r + 1) * new_stride) by (nonlinear_arith)
        requires c < old_stride, old_stride <= new_stride;
    assert(r * old_stride + old_stride <= old_rows * old_stride) by (nonlinear_arith)
        requires r < old_rows, 0 <= old_stride;
    assert(0 <= r * old_stride) by (nonlinear_arith)
        requires 0 <= r, 0 <= old_stride;
    if r == last {
        assert(r * new_stride == prefix.len());
        assert(widened_rows(old, old_stride, new_stride, old_rows, rows)[r * new_stride + c]
            == old.subrange(r * old_stride, r * old_stride + old_stride)[c]);
    } else {
        assert((r + 1) * new_stride <= last * new_stride) by (nonlinear_arith)
            requires r + 1 <= last, 0 <= new_stride;
        lemma_widened_rows_keep_pixels(old, old_stride, new_stride, old_rows, last, r, c);
        assert(widened_rows(old, old_stride, new_stride, old_rows, rows)[r * new_stride + c] == prefix[r * new_stride + c]);
    }
}

} // verus!
