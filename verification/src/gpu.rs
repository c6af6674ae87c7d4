//! The choices the Vulkan renderer makes from what the driver reports: the
//! swapchain's format, present mode, size and image count, the memory type of
//! a buffer, the queue family, and the part of the surface a clear covers.
//! The driver calls themselves are made by the embedding.

use vstd::prelude::*;
use vstd::utf8::{decode_utf8, valid_utf8};
use crate::atlas::AtlasUpload;
use crate::text::{chars_of, concat, decimal, push_char, spec_decimal};

verus! {

pub const FORMAT_R8G8B8A8_UNORM: u32 = 37;
pub const FORMAT_B8G8R8A8_SRGB: u32 = 50;
pub const COLOR_SPACE_SRGB_NONLINEAR: u32 = 0;
pub const PRESENT_MODE_MAILBOX: u32 = 1;
pub const PRESENT_MODE_FIFO: u32 = 2;
pub const QUEUE_GRAPHICS_BIT: u32 = 1;
/// The most memory types a device reports.
pub const MAX_MEMORY_TYPES: usize = 32;

/// A format the surface supports, with its colour space.
#[derive(Clone, Copy, Debug, PartialEq, Eq, Structural)]
pub struct SurfaceFormat {
    pub format: u32,
    pub color_space: u32,
}

/// The format used when the driver lists none.
pub open spec fn default_format() -> SurfaceFormat {
    SurfaceFormat { format: FORMAT_R8G8B8A8_UNORM, color_space: COLOR_SPACE_SRGB_NONLINEAR }
}

/// The first entry of `formats` with format `format`.
pub open spec fn first_format(formats: Seq<SurfaceFormat>, format: u32) -> Option<SurfaceFormat>
    decreases formats.len(),
{
    if formats.len() == 0 {
        None
    } else if formats[0].format == format {
        Some(formats[0])
    } else {
        first_format(formats.drop_first(), format)
    }
}

/// The swapchain format: linear RGBA when offered, else sRGB BGRA, else the
/// driver's first.
pub open spec fn spec_surface_format(formats: Seq<SurfaceFormat>) -> SurfaceFormat {
    match first_format(formats, FORMAT_R8G8B8A8_UNORM) {
        Some(f) => f,
        None => match first_format(formats, FORMAT_B8G8R8A8_SRGB) {
            Some(f) => f,
            None => if formats.len() > 0 { formats[0] } else { default_format() },
        },
    }
}

fn find_format(formats: &[SurfaceFormat], format: u32) -> (found: Option<SurfaceFormat>)
    ensures
        found == first_format(formats@, format),
{
    let mut i: usize = 0;
    assert(formats@.skip(0) =~= formats@);
    while i < formats.len()
        invariant
            i <= formats@.len(),
            first_format(formats@, format) == first_format(formats@.skip(i as int), format),
        decreases formats@.len() - i,
    {
        assert(formats@.skip(i as int)[0] == formats@[i as int]);
        if formats[i].format == format {
            return Some(formats[i]);
        }
        assert(formats@.skip(i as int).drop_first() =~= formats@.skip(i as int + 1));
        i = i + 1;
    }
    assert(formats@.skip(i as int).len() == 0);
    None
}

/// Pick the swapchain format from those the surface supports.
pub fn choose_surface_format(formats: &[SurfaceFormat]) -> (chosen: SurfaceFormat)
    ensures
        chosen == spec_surface_format(formats@),
{
    match find_format(formats, FORMAT_R8G8B8A8_UNORM) {
        Some(f) => f,
        None => match find_format(formats, FORMAT_B8G8R8A8_SRGB) {
            Some(f) => f,
            None => if formats.len() > 0 {
                formats[0]
            } else {
                SurfaceFormat { format: FORMAT_R8G8B8A8_UNORM, color_space: COLOR_SPACE_SRGB_NONLINEAR }
            },
        },
    }
}

/// Mailbox when the surface offers it, else FIFO, which every surface has.
pub open spec fn spec_present_mode(modes: Seq<u32>) -> u32 {
    if modes.contains(PRESENT_MODE_MAILBOX) {
        PRESENT_MODE_MAILBOX
    } else {
        PRESENT_MODE_FIFO
    }
}

pub fn choose_present_mode(modes: &[u32]) -> (mode: u32)
    ensures
        mode == spec_present_mode(modes@),
{
    let mut i: usize = 0;
    while i < modes.len()
        invariant
            i <= modes@.len(),
            forall|j: int| 0 <= j < i ==> modes@[j] != PRESENT_MODE_MAILBOX,
        decreases modes@.len() - i,
    {
        if modes[i] == PRESENT_MODE_MAILBOX {
            assert(modes@.contains(PRESENT_MODE_MAILBOX)) by {
                assert(modes@[i as int] == PRESENT_MODE_MAILBOX);
            }
            return PRESENT_MODE_MAILBOX;
        }
        i = i + 1;
    }
    PRESENT_MODE_FIFO
}

/// How the swapchain is made.
#[derive(Clone, Copy, Debug, PartialEq, Eq, Structural)]
pub struct SwapchainPlan {
    pub format: SurfaceFormat,
    pub present_mode: u32,
    pub width: u32,
    pub height: u32,
    pub min_image_count: u32,
}

/// The swapchain for a surface: its format and present mode as chosen above,
/// the surface's current extent unless the surface leaves it to the
/// swapchain (a zero width), in which case the window's own size, and at
/// least two images.
pub open spec fn spec_swapchain(
    formats: Seq<SurfaceFormat>,
    modes: Seq<u32>,
    min_image_count: u32,
    current: (u32, u32),
    size: (u32, u32),
) -> SwapchainPlan {
    SwapchainPlan {
        format: spec_surface_format(formats),
        present_mode: spec_present_mode(modes),
        width: if current.0 != 0 { current.0 } else { size.0 },
        height: if current.0 != 0 { current.1 } else { size.1 },
        min_image_count: if min_image_count < 2 { 2 } else { min_image_count },
    }
}

pub fn plan_swapchain(
    formats: &[SurfaceFormat],
    modes: &[u32],
    min_image_count: u32,
    current: (u32, u32),
    size: (u32, u32),
) -> (plan: SwapchainPlan)
    ensures
        plan == spec_swapchain(formats@, modes@, min_image_count, current, size),
{
    let (width, height) = if current.0 != 0 { current } else { size };
    SwapchainPlan {
        format: choose_surface_format(formats),
        present_mode: choose_present_mode(modes),
        width,
        height,
        min_image_count: if min_image_count < 2 { 2 } else { min_image_count },
    }
}

/// Whether memory type `i`, with property flags `flags`, may back a resource
/// that accepts the types in `type_bits` and needs the properties `required`.
pub open spec fn memory_type_suits(type_bits: u32, i: int, flags: u32, required: u32) -> bool {
    &&& type_bits & (1u32 << (i as u32)) != 0
    &&& flags & required == required
}

/// The first memory type that suits, among the device's `flags` (one entry
/// per type), or `None` when none does.
pub fn find_memory_type(type_bits: u32, flags: &[u32], required: u32) -> (found: Option<u32>)
    requires
        flags@.len() <= MAX_MEMORY_TYPES,
    ensures
        match found {
            Some(i) => {
                &&& i < flags@.len()
                &&& memory_type_suits(type_bits, i as int, flags@[i as int], required)
                &&& forall|j: int| 0 <= j < i ==> !memory_type_suits(type_bits, j, #[trigger] flags@[j], required)
            },
            None => forall|j: int| 0 <= j < flags@.len() ==> !memory_type_suits(type_bits, j, #[trigger] flags@[j], required),
        },
{
    let mut i: u32 = 0;
    while (i as usize) < flags.len()
        invariant
            flags@.len() <= MAX_MEMORY_TYPES,
            i <= flags@.len(),
            forall|j: int| 0 <= j < i ==> !memory_type_suits(type_bits, j, #[trigger] flags@[j], required),
        decreases flags@.len() - i,
    {
        if type_bits & (1u32 << i) != 0 && flags[i as usize] & required == required {
            return Some(i);
        }
        i = i + 1;
    }
    None
}

/// Whether a queue family with `flags`, and `present` support for the
/// surface, can both draw and present.
pub open spec fn family_suits(family: (u32, bool)) -> bool {
    family.0 & QUEUE_GRAPHICS_BIT != 0 && family.1
}

/// The first queue family that can draw and present.
pub fn find_queue_family(families: &[(u32, bool)]) -> (found: Option<u32>)
    requires
        families@.len() <= u32::MAX,
    ensures
        match found {
            Some(i) => {
                &&& i < families@.len()
                &&& family_suits(families@[i as int])
                &&& forall|j: int| 0 <= j < i ==> !family_suits(#[trigger] families@[j])
            },
            None => forall|j: int| 0 <= j < families@.len() ==> !family_suits(#[trigger] families@[j]),
        },
{
    let mut i: usize = 0;
    while i < families.len()
        invariant
            i <= families@.len() <= u32::MAX,
            forall|j: int| 0 <= j < i ==> !family_suits(#[trigger] families@[j]),
        decreases families@.len() - i,
    {
        let (flags, present) = families[i];
        if flags & QUEUE_GRAPHICS_BIT != 0 && present {
            return Some(i as u32);
        }
        i = i + 1;
    }
    None
}

/// `x + y`, held to the range of `i32`.
pub open spec fn saturating_i32(x: int, y: int) -> int {
    if x + y > i32::MAX {
        i32::MAX as int
    } else if x + y < i32::MIN {
        i32::MIN as int
    } else {
        x + y
    }
}

fn add_saturating(x: i32, y: i32) -> (sum: i32)
    ensures
        sum == saturating_i32(x as int, y as int),
{
    let wide: i64 = x as i64 + y as i64;
    if wide > i32::MAX as i64 {
        i32::MAX
    } else if wide < i32::MIN as i64 {
        i32::MIN
    } else {
        wide as i32
    }
}

/// The part of a `surface_width` x `surface_height` surface that a clear of
/// the rectangle at (`x`, `y`) of `width` x `height` covers, as (x, y, width,
/// height); `None` when it covers nothing. The sizes are taken as `i32`, as
/// the driver's rectangles are.
pub open spec fn spec_clear_region(x: i32, y: i32, width: u32, height: u32, surface_width: u32, surface_height: u32) -> Option<(i32, i32, u32, u32)> {
    let x0 = if x < 0 { 0 } else { x as int };
    let y0 = if y < 0 { 0 } else { y as int };
    let right = saturating_i32(x as int, (width as i32) as int);
    let bottom = saturating_i32(y as int, (height as i32) as int);
    let x1 = if right < (surface_width as i32) as int { right } else { (surface_width as i32) as int };
    let y1 = if bottom < (surface_height as i32) as int { bottom } else { (surface_height as i32) as int };
    if x1 <= x0 || y1 <= y0 {
        None
    } else {
        Some((x0 as i32, y0 as i32, (x1 - x0) as u32, (y1 - y0) as u32))
    }
}

pub fn clear_region(x: i32, y: i32, width: u32, height: u32, surface_width: u32, surface_height: u32) -> (region: Option<(i32, i32, u32, u32)>)
    ensures
        region == spec_clear_region(x, y, width, height, surface_width, surface_height),
{
    let x0: i32 = if x < 0 { 0 } else { x };
    let y0: i32 = if y < 0 { 0 } else { y };
    let right = add_saturating(x, width as i32);
    let bottom = add_saturating(y, height as i32);
    let sw = surface_width as i32;
    let sh = surface_height as i32;
    let x1: i32 = if right < sw { right } else { sw };
    let y1: i32 = if bottom < sh { bottom } else { sh };
    if x1 <= x0 || y1 <= y0 {
        None
    } else {
        Some((x0, y0, (x1 - x0) as u32, (y1 - y0) as u32))
    }
}


// ---------------------------------------------------------------------------
// What the device says of itself
// ---------------------------------------------------------------------------

/// The device type of a software rasteriser.
pub const DEVICE_TYPE_CPU: u32 = 4;

/// The lower-case hexadecimal digit for `d`.
pub open spec fn hex_digit(d: nat) -> char {
    if d < 10 {
        (('0' as u32) + d) as char
    } else {
        (('a' as u32) + (d - 10)) as char
    }
}

/// The lower-case hexadecimal digits of `n`.
pub open spec fn spec_hex(n: nat) -> Seq<char>
    decreases n,
{
    if n < 16 {
        seq![hex_digit(n)]
    } else {
        spec_hex(n / 16).push(hex_digit(n % 16))
    }
}

/// The hexadecimal digits of `n`, with zeros in front up to `width`
/// characters, as `{:0width$x}` writes them.
pub open spec fn spec_padded_hex(n: nat, width: nat) -> Seq<char> {
    let digits = spec_hex(n);
    if digits.len() < width {
        Seq::new((width - digits.len()) as nat, |i: int| '0') + digits
    } else {
        digits
    }
}

fn hex(n: u64) -> (text: String)
    ensures
        text@ == spec_hex(n as nat),
    decreases n,
{
    let d = n % 16;
    let digit = if d < 10 { (d as u32 + '0' as u32) as u8 as char } else { (d as u32 - 10 + 'a' as u32) as u8 as char };
    assert(digit == hex_digit(d as nat));
    if n < 16 {
        let mut text = String::new();
        push_char(&mut text, digit);
        proof {
            assert(text@ =~= spec_hex(n as nat));
        }
        text
    } else {
        let mut text = hex(n / 16);
        push_char(&mut text, digit);
        text
    }
}

fn padded_hex(n: u64, width: usize) -> (text: String)
    ensures
        text@ == spec_padded_hex(n as nat, width as nat),
{
    let digits = hex(n);
    let count = chars_of(digits.as_str()).len();
    if count < width {
        let mut text = String::new();
        let mut i: usize = 0;
        while i < width - count
            invariant
                i <= width - count,
                text@ == Seq::new(i as nat, |k: int| '0'),
            decreases width - count - i,
        {
            push_char(&mut text, '0');
            proof {
                assert(text@ =~= Seq::new((i + 1) as nat, |k: int| '0'));
            }
            i = i + 1;
        }
        concat(text.as_str(), digits.as_str())
    } else {
        digits
    }
}

/// How many bytes come before the first zero byte (all of them when there is
/// none).
pub open spec fn nul_position(bytes: Seq<u8>) -> nat
    decreases bytes.len(),
{
    if bytes.len() == 0 || bytes[0] == 0 {
        0
    } else {
        1 + nul_position(bytes.drop_first())
    }
}

proof fn lemma_nul_position(bytes: Seq<u8>, i: int)
    requires
        0 <= i <= bytes.len(),
        forall|j: int| 0 <= j < i ==> bytes[j] != 0,
        i == bytes.len() || bytes[i] == 0,
    ensures
        nul_position(bytes) == i,
    decreases i,
{
    if i > 0 {
        assert forall|j: int| 0 <= j < i - 1 implies bytes.drop_first()[j] != 0 by {
            assert(bytes.drop_first()[j] == bytes[j + 1]);
        }
        if i < bytes.len() {
            assert(bytes.drop_first()[i - 1] == bytes[i]);
        }
        lemma_nul_position(bytes.drop_first(), i - 1);
    }
}

/// What `String::from_utf8_lossy` makes of some bytes: their text, with
/// U+FFFD in place of each sequence that is not UTF-8.
pub uninterp spec fn lossy_text(bytes: Seq<u8>) -> Seq<char>;

/// `String::from_utf8_lossy`: a function of the bytes alone, named
/// `lossy_text`; for valid UTF-8 it is the text the bytes encode.
#[verifier::external_body]
fn utf8_lossy(bytes: &[u8]) -> (text: String)
    ensures
        text@ == lossy_text(bytes@),
        valid_utf8(bytes@) ==> text@ == decode_utf8(bytes@),
{
    String::from_utf8_lossy(bytes).into_owned()
}

/// What the renderer reports of the device.
pub struct GpuDescription {
    /// Whether the device is a software rasteriser.
    pub software: bool,
    pub device_name: String,
    /// "Vulkan" and the API version the device supports.
    pub driver_name: String,
    /// The vendor, device and driver numbers.
    pub driver_info: String,
}

/// "Vulkan major.minor.patch" for a packed API version.
pub open spec fn spec_driver_name(api_version: u32) -> Seq<char> {
    "Vulkan "@ + spec_decimal((api_version >> 22u32) as nat) + "."@
        + spec_decimal(((api_version >> 12u32) & 0x3ffu32) as nat) + "."@
        + spec_decimal((api_version & 0xfffu32) as nat)
}

/// The vendor and device as four hex digits at least, the driver as eight.
pub open spec fn spec_driver_info(vendor_id: u32, device_id: u32, driver_version: u32) -> Seq<char> {
    "vendor=0x"@ + spec_padded_hex(vendor_id as nat, 4) + " device=0x"@ + spec_padded_hex(device_id as nat, 4)
        + " driver=0x"@ + spec_padded_hex(driver_version as nat, 8)
}

/// Describe the device from the properties it reports: its packed API
/// version, driver version, vendor and device ids, device type, and the
/// bytes of its name, which end at the first zero byte.
pub fn describe_gpu(
    api_version: u32,
    driver_version: u32,
    vendor_id: u32,
    device_id: u32,
    device_type: u32,
    name: &[u8],
) -> (description: GpuDescription)
    ensures
        description.software == (device_type == DEVICE_TYPE_CPU),
        description.device_name@ == lossy_text(name@.take(nul_position(name@) as int)),
        valid_utf8(name@.take(nul_position(name@) as int))
            ==> description.device_name@ == decode_utf8(name@.take(nul_position(name@) as int)),
        description.driver_name@ == spec_driver_name(api_version),
        description.driver_info@ == spec_driver_info(vendor_id, device_id, driver_version),
{
    let mut end: usize = 0;
    while end < name.len() && name[end] != 0
        invariant
            end <= name@.len(),
            forall|j: int| 0 <= j < end ==> name@[j] != 0,
        decreases name@.len() - end,
    {
        end = end + 1;
    }
    proof {
        lemma_nul_position(name@, end as int);
    }
    let mut kept: Vec<u8> = Vec::new();
    let mut i: usize = 0;
    while i < end
        invariant
            i <= end <= name@.len(),
            kept@ == name@.take(i as int),
        decreases end - i,
    {
        kept.push(name[i]);
        proof {
            assert(kept@ =~= name@.take(i as int + 1));
        }
        i = i + 1;
    }
    let device_name = utf8_lossy(kept.as_slice());

    let major = decimal((api_version >> 22u32) as u64);
    let minor = decimal(((api_version >> 12u32) & 0x3ffu32) as u64);
    let patch = decimal((api_version & 0xfffu32) as u64);
    let a = concat("Vulkan ", major.as_str());
    let b = concat(a.as_str(), ".");
    let c = concat(b.as_str(), minor.as_str());
    let d = concat(c.as_str(), ".");
    let driver_name = concat(d.as_str(), patch.as_str());

    let vendor = padded_hex(vendor_id as u64, 4);
    let device = padded_hex(device_id as u64, 4);
    let driver = padded_hex(driver_version as u64, 8);
    let e = concat("vendor=0x", vendor.as_str());
    let f = concat(e.as_str(), " device=0x");
    let g = concat(f.as_str(), device.as_str());
    let h = concat(g.as_str(), " driver=0x");
    let driver_info = concat(h.as_str(), driver.as_str());

    GpuDescription { software: device_type == DEVICE_TYPE_CPU, device_name, driver_name, driver_info }
}


// ---------------------------------------------------------------------------
// What a frame copies to the device
// ---------------------------------------------------------------------------

/// How many bytes the first `n` uploads carry.
pub open spec fn data_offset(uploads: Seq<AtlasUpload>, n: int) -> int
    decreases n,
{
    if n <= 0 || n > uploads.len() {
        0
    } else {
        data_offset(uploads, n - 1) + uploads[n - 1].data@.len()
    }
}

/// The staging buffer of a frame's atlas uploads: its size, and where each
/// upload's bytes start in it.
pub struct StagingPlan {
    pub size: u64,
    pub offsets: Vec<u64>,
}

/// The size in bytes of the renderer's quad vertex buffer.
pub const QUAD_VERTEX_BUFFER_BYTES: u64 = 4194304;
/// The size in bytes of the renderer's glyph vertex buffer.
pub const GLYPH_VERTEX_BUFFER_BYTES: u64 = 2097152;

/// Why a frame cannot be drawn.
pub open spec fn spec_frame_error(quad_bytes: u64, quad_capacity: u64, glyph_bytes: u64, glyph_capacity: u64) -> Option<Seq<char>> {
    if quad_bytes > quad_capacity {
        Some("quad vertex buffer too small"@)
    } else if glyph_bytes > glyph_capacity {
        Some("glyph vertex buffer too small"@)
    } else {
        None
    }
}

/// The size of the staging buffer for `uploads`: all their bytes, and never
/// less than four.
pub open spec fn staging_size(uploads: Seq<AtlasUpload>) -> int {
    let total = data_offset(uploads, uploads.len() as int);
    if total < 4 { 4 } else { total }
}

/// Check that a frame's vertices fit their buffers, and lay out its atlas
/// uploads one after another in a staging buffer that holds all their bytes
/// (at least four); with no uploads there is no staging buffer.
pub fn plan_frame_copies(
    quad_bytes: u64,
    quad_capacity: u64,
    glyph_bytes: u64,
    glyph_capacity: u64,
    uploads: &[AtlasUpload],
) -> (plan: Result<Option<StagingPlan>, String>)
    requires
        data_offset(uploads@, uploads@.len() as int) <= u64::MAX,
    ensures
        match spec_frame_error(quad_bytes, quad_capacity, glyph_bytes, glyph_capacity) {
            Some(message) => plan matches Err(e) && e@ == message,
            None => plan is Ok,
        },
        plan matches Ok(staging) ==> (staging is None <==> uploads@.len() == 0),
        plan matches Ok(Some(staging)) ==> {
            &&& staging.size == staging_size(uploads@)
            &&& staging.offsets@.len() == uploads@.len()
            &&& forall|i: int| 0 <= i < uploads@.len() ==> #[trigger] staging.offsets@[i] == data_offset(uploads@, i)
        },
{
    if quad_bytes > quad_capacity {
        return Err(String::from_str("quad vertex buffer too small"));
    }
    if glyph_bytes > glyph_capacity {
        return Err(String::from_str("glyph vertex buffer too small"));
    }
    if uploads.len() == 0 {
        return Ok(None);
    }
    let mut offset: u64 = 0;
    let mut offsets: Vec<u64> = Vec::new();
    let mut i: usize = 0;
    while i < uploads.len()
        invariant
            i <= uploads@.len(),
            data_offset(uploads@, uploads@.len() as int) <= u64::MAX,
            offset == data_offset(uploads@, i as int),
            offsets@.len() == i,
            forall|k: int| 0 <= k < i ==> #[trigger] offsets@[k] == data_offset(uploads@, k),
        decreases uploads@.len() - i,
    {
        proof {
            lemma_offsets_grow(uploads@, i as int + 1, uploads@.len() as int);
        }
        offsets.push(offset);
        offset = offset + uploads[i].data.len() as u64;
        i = i + 1;
    }
    Ok(Some(StagingPlan { size: if offset < 4 { 4 } else { offset }, offsets }))
}

proof fn lemma_offsets_grow(uploads: Seq<AtlasUpload>, a: int, b: int)
    requires
        0 <= a <= b <= uploads.len(),
    ensures
        data_offset(uploads, a) <= data_offset(uploads, b),
    decreases b - a,
{
    if a < b {
        lemma_offsets_grow(uploads, a, b - 1);
    }
}

/// Each upload's bytes lie inside the staging buffer and end where the next
/// upload's begin, so every copy stays inside the buffer and no two uploads
/// share a byte.
pub proof fn uploads_fit_staging(uploads: Seq<AtlasUpload>, i: int)
    requires
        0 <= i < uploads.len(),
    ensures
        data_offset(uploads, i) + uploads[i].data@.len() == data_offset(uploads, i + 1),
        data_offset(uploads, i + 1) <= staging_size(uploads),
{
    lemma_offsets_grow(uploads, i + 1, uploads.len() as int);
}

} // verus!
