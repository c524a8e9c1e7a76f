//! CUPS RaS3 raster streams: a 4-byte magic that fixes the byte order,
//! then pages, each a 1796-byte header followed by its pixel data.

use vstd::prelude::*;
use vstd::slice::{slice_subrange, slice_to_vec};
use vstd::arithmetic::div_mod::lemma_fundamental_div_mod_converse;
use crate::text::{chars_to_string, push_str, push_decimal, push_hex2, decimal, hex2};

verus! {

// ---------------------------------------------------------------------------
// Layout of the stream
// ---------------------------------------------------------------------------

/// Size of a CUPS raster page header in bytes.
pub const HEADER_SIZE: usize = 1796;

// Byte offsets into the 1796-byte page header for the fields read here.
// The first 256 bytes are four 64-byte strings; u32 fields follow.

/// `AdvanceDistance` (field 4).
pub const OFF_ADVANCE_DISTANCE: usize = 256;
/// `HWResolution[0]`, horizontal resolution in dots per inch.
pub const OFF_HW_RES_X: usize = 276;
/// `PageSize[0]`, page width in points.
pub const OFF_PAGE_SIZE_W: usize = 352;
/// `PageSize[1]`, page height in points.
pub const OFF_PAGE_SIZE_H: usize = 356;
/// `cupsWidth` (field 33).
pub const OFF_CUPS_WIDTH: usize = 372;
/// `cupsHeight` (field 34).
pub const OFF_CUPS_HEIGHT: usize = 376;
/// `cupsMediaType` (field 35).
pub const OFF_CUPS_MEDIA_TYPE: usize = 380;
/// `cupsBitsPerPixel` (field 37).
pub const OFF_CUPS_BITS_PER_PIXEL: usize = 388;
/// `cupsColorSpace` (after `cupsColorOrder` at 396).
pub const OFF_CUPS_COLOUR_SPACE: usize = 400;
/// `cupsNumColors` (after `cupsRowStep` at 416).
pub const OFF_CUPS_NUM_COLOURS: usize = 420;
/// `cupsPageSize[0]`, page width in points as a 32-bit float.
pub const OFF_CUPS_PAGE_SIZE_W: usize = 428;
/// `cupsPageSize[1]`, page height in points as a 32-bit float.
pub const OFF_CUPS_PAGE_SIZE_H: usize = 432;

// ---------------------------------------------------------------------------
// Error and page types
// ---------------------------------------------------------------------------

/// Errors that can occur during RaS3 parsing.
#[derive(Debug)]
pub enum RasterError {
    /// No data was provided.
    Empty,
    /// The data is too short to contain the expected structure.
    TooShort { expected: usize, actual: usize },
    /// The magic bytes are not a recognised CUPS raster signature.
    BadMagic([u8; 4]),
    /// A page is not 8 bits per pixel, so its data is not one byte per pixel.
    UnsupportedBitsPerPixel(u32),
}

impl RasterError {
    /// The message that describes the error.
    pub open spec fn spec_message(&self) -> Seq<char> {
        match *self {
            RasterError::Empty => "no data received"@,
            RasterError::TooShort { expected, actual } =>
                "data too short: need "@ + decimal(expected as nat) + " bytes, got "@ + decimal(actual as nat),
            RasterError::BadMagic(m) =>
                "bad magic: "@ + hex2(m[0]) + " "@ + hex2(m[1]) + " "@ + hex2(m[2]) + " "@ + hex2(m[3]),
            RasterError::UnsupportedBitsPerPixel(bpp) =>
                "unsupported bits per pixel: "@ + decimal(bpp as nat) + " (only 8-bit grayscale)"@,
        }
    }

    /// The message that describes the error, such as
    /// `data too short: need 4 bytes, got 3` or `bad magic: 58 58 58 58`.
    pub fn message(&self) -> (s: String)
        ensures
            s@ == self.spec_message(),
    {
        let mut out: Vec<char> = Vec::new();
        match self {
            RasterError::Empty => {
                push_str(&mut out, "no data received");
            },
            RasterError::TooShort { expected, actual } => {
                push_str(&mut out, "data too short: need ");
                push_decimal(&mut out, *expected as u64);
                push_str(&mut out, " bytes, got ");
                push_decimal(&mut out, *actual as u64);
            },
            RasterError::BadMagic(m) => {
                push_str(&mut out, "bad magic: ");
                push_hex2(&mut out, m[0]);
                push_str(&mut out, " ");
                push_hex2(&mut out, m[1]);
                push_str(&mut out, " ");
                push_hex2(&mut out, m[2]);
                push_str(&mut out, " ");
                push_hex2(&mut out, m[3]);
            },
            RasterError::UnsupportedBitsPerPixel(bpp) => {
                push_str(&mut out, "unsupported bits per pixel: ");
                push_decimal(&mut out, *bpp as u64);
                push_str(&mut out, " (only 8-bit grayscale)");
            },
        }
        chars_to_string(out.as_slice())
    }
}

/// A single page extracted from a CUPS raster stream.
pub struct Page {
    pub width: u32,
    pub height: u32,
    pub media_type: u32,
    pub colour_space: u32,
    pub num_colours: u32,
    pub advance_distance: u32,
    /// Horizontal resolution in dots per inch (`HWResolution[0]`).
    pub hw_res_x: u32,
    /// Page width in points from the base header (`PageSize[0]`).
    pub page_size_w: u32,
    /// Page height in points from the base header (`PageSize[1]`).
    pub page_size_h: u32,
    /// Raw IEEE-754 single-precision bits of `cupsPageSize[0]` (points).
    pub page_width_pts_bits: u32,
    /// Raw IEEE-754 single-precision bits of `cupsPageSize[1]` (points).
    pub page_height_pts_bits: u32,
    /// Raw grayscale pixel data (1 byte per pixel, row-major).
    pub data: Vec<u8>,
}

/// What a page is, as a mathematical value.
pub struct PageModel {
    pub width: u32,
    pub height: u32,
    pub media_type: u32,
    pub colour_space: u32,
    pub num_colours: u32,
    pub advance_distance: u32,
    pub hw_res_x: u32,
    pub page_size_w: u32,
    pub page_size_h: u32,
    pub page_width_pts_bits: u32,
    pub page_height_pts_bits: u32,
    pub data: Seq<u8>,
}

impl View for Page {
    type V = PageModel;

    open spec fn view(&self) -> PageModel {
        PageModel {
            width: self.width,
            height: self.height,
            media_type: self.media_type,
            colour_space: self.colour_space,
            num_colours: self.num_colours,
            advance_distance: self.advance_distance,
            hw_res_x: self.hw_res_x,
            page_size_w: self.page_size_w,
            page_size_h: self.page_size_h,
            page_width_pts_bits: self.page_width_pts_bits,
            page_height_pts_bits: self.page_height_pts_bits,
            data: self.data@,
        }
    }
}

// ---------------------------------------------------------------------------
// Specification
// ---------------------------------------------------------------------------

/// The `u32` whose big-endian bytes are `b0 b1 b2 b3`.
pub open spec fn u32_from_be(b0: u8, b1: u8, b2: u8, b3: u8) -> u32 {
    (b0 as int * 0x100_0000 + b1 as int * 0x1_0000 + b2 as int * 0x100 + b3 as int) as u32
}

/// The header field stored at `at` in the byte order of the stream.
pub open spec fn field_at(s: Seq<u8>, at: int, big_endian: bool) -> u32 {
    if big_endian {
        u32_from_be(s[at], s[at + 1], s[at + 2], s[at + 3])
    } else {
        u32_from_be(s[at + 3], s[at + 2], s[at + 1], s[at])
    }
}

/// `RaS3`: a big-endian stream.
pub open spec fn is_magic_be(s: Seq<u8>) -> bool {
    s[0] == 0x52 && s[1] == 0x61 && s[2] == 0x53 && s[3] == 0x33
}

/// `3SaR`: a little-endian stream.
pub open spec fn is_magic_le(s: Seq<u8>) -> bool {
    s[0] == 0x33 && s[1] == 0x53 && s[2] == 0x61 && s[3] == 0x52
}

/// `x` when it fits in a `usize`, else `usize::MAX`.
pub open spec fn sat_usize(x: int) -> usize {
    if x <= usize::MAX { x as usize } else { usize::MAX }
}

/// The page whose header starts at `pos` and whose data ends at `data_end`.
pub open spec fn page_at(s: Seq<u8>, pos: int, big_endian: bool, data_end: int) -> PageModel {
    PageModel {
        width: field_at(s, pos + OFF_CUPS_WIDTH, big_endian),
        height: field_at(s, pos + OFF_CUPS_HEIGHT, big_endian),
        media_type: field_at(s, pos + OFF_CUPS_MEDIA_TYPE, big_endian),
        colour_space: field_at(s, pos + OFF_CUPS_COLOUR_SPACE, big_endian),
        num_colours: field_at(s, pos + OFF_CUPS_NUM_COLOURS, big_endian),
        advance_distance: field_at(s, pos + OFF_ADVANCE_DISTANCE, big_endian),
        hw_res_x: field_at(s, pos + OFF_HW_RES_X, big_endian),
        page_size_w: field_at(s, pos + OFF_PAGE_SIZE_W, big_endian),
        page_size_h: field_at(s, pos + OFF_PAGE_SIZE_H, big_endian),
        page_width_pts_bits: field_at(s, pos + OFF_CUPS_PAGE_SIZE_W, big_endian),
        page_height_pts_bits: field_at(s, pos + OFF_CUPS_PAGE_SIZE_H, big_endian),
        data: s.subrange(pos + HEADER_SIZE, data_end),
    }
}

/// The pages of the stream `s` from byte `pos` on. A page is a header and
/// then `width * height` bytes of 8-bit grayscale pixels. Where the stream
/// is too short for a header or a page, the error gives the length it
/// would need (`usize::MAX` when that does not fit in a `usize`).
pub open spec fn spec_pages_from(s: Seq<u8>, pos: nat, big_endian: bool) -> Result<Seq<PageModel>, RasterError>
    decreases s.len() - pos,
{
    if pos >= s.len() {
        Ok(Seq::empty())
    } else if pos + HEADER_SIZE > s.len() {
        Err(RasterError::TooShort { expected: sat_usize(pos + HEADER_SIZE), actual: s.len() as usize })
    } else {
        let width = field_at(s, pos + OFF_CUPS_WIDTH, big_endian);
        let height = field_at(s, pos + OFF_CUPS_HEIGHT, big_endian);
        let bpp = field_at(s, pos + OFF_CUPS_BITS_PER_PIXEL, big_endian);
        if width == 0 || height == 0 {
            Err(RasterError::TooShort {
                expected: sat_usize(pos + HEADER_SIZE + 1),
                actual: (pos + HEADER_SIZE) as usize,
            })
        } else if bpp != 8 {
            Err(RasterError::UnsupportedBitsPerPixel(bpp))
        } else {
            let data_end = pos + HEADER_SIZE + width as nat * height as nat;
            if data_end > s.len() {
                Err(RasterError::TooShort { expected: sat_usize(data_end), actual: s.len() as usize })
            } else {
                match spec_pages_from(s, data_end as nat, big_endian) {
                    Ok(rest) => Ok(seq![page_at(s, pos as int, big_endian, data_end)] + rest),
                    Err(e) => Err(e),
                }
            }
        }
    }
}

/// What parsing the stream `s` gives.
pub open spec fn spec_parse_ras3(s: Seq<u8>) -> Result<Seq<PageModel>, RasterError> {
    if s.len() == 0 {
        Err(RasterError::Empty)
    } else if s.len() < 4 {
        Err(RasterError::TooShort { expected: 4, actual: s.len() as usize })
    } else if is_magic_be(s) {
        spec_pages_from(s, 4, true)
    } else if is_magic_le(s) {
        spec_pages_from(s, 4, false)
    } else {
        Err(RasterError::BadMagic([s[0], s[1], s[2], s[3]]))
    }
}

/// `prefix` followed by the pages of `rest`, or the error of `rest`.
pub open spec fn prepend_pages(prefix: Seq<PageModel>, rest: Result<Seq<PageModel>, RasterError>) -> Result<Seq<PageModel>, RasterError> {
    match rest {
        Ok(pages) => Ok(prefix + pages),
        Err(e) => Err(e),
    }
}

// ---------------------------------------------------------------------------
// Byte-order helpers
// ---------------------------------------------------------------------------

/// Byte order determined from the raster stream magic.
#[derive(Clone, Copy)]
enum ByteOrder {
    Big,
    Little,
}

/// Read a `u32` from a byte slice at the given offset using the specified
/// byte order.
fn read_u32(buf: &[u8], offset: usize, order: ByteOrder) -> (v: u32)
    requires
        offset + 4 <= buf@.len(),
    ensures
        v == field_at(buf@, offset as int, order is Big),
{
    let b0 = buf[offset] as u32;
    let b1 = buf[offset + 1] as u32;
    let b2 = buf[offset + 2] as u32;
    let b3 = buf[offset + 3] as u32;
    match order {
        ByteOrder::Big => b0 * 0x100_0000 + b1 * 0x1_0000 + b2 * 0x100 + b3,
        ByteOrder::Little => b3 * 0x100_0000 + b2 * 0x1_0000 + b1 * 0x100 + b0,
    }
}

// ---------------------------------------------------------------------------
// RaS3 parser
// ---------------------------------------------------------------------------

/// Parse a CUPS RaS3 raster stream into a list of pages.
///
/// The entire input (including the 4-byte magic) must be provided as a
/// contiguous byte slice.
///
/// Returns [`RasterError`] if the input is empty, truncated, has an
/// unrecognised magic signature, or holds a page that is not 8 bits per
/// pixel.
pub fn parse_ras3(input: &[u8]) -> (res: Result<Vec<Page>, RasterError>)
    ensures
        match res {
            Ok(pages) => spec_parse_ras3(input@) == Ok::<Seq<PageModel>, RasterError>(pages@.map_values(|p: Page| p@)),
            Err(e) => spec_parse_ras3(input@) == Err::<Seq<PageModel>, RasterError>(e),
        },
{
    if input.is_empty() {
        return Err(RasterError::Empty);
    }
    if input.len() < 4 {
        return Err(RasterError::TooShort { expected: 4, actual: input.len() });
    }

    let magic: [u8; 4] = [input[0], input[1], input[2], input[3]];
    let order = if magic[0] == 0x52 && magic[1] == 0x61 && magic[2] == 0x53 && magic[3] == 0x33 {
        ByteOrder::Big
    } else if magic[0] == 0x33 && magic[1] == 0x53 && magic[2] == 0x61 && magic[3] == 0x52 {
        ByteOrder::Little
    } else {
        return Err(RasterError::BadMagic(magic));
    };
    let ghost big = order is Big;

    let mut pos: usize = 4;
    let mut pages: Vec<Page> = Vec::new();

    while pos < input.len()
        invariant_except_break
            4 <= pos <= input@.len(),
        invariant
            big == (order is Big),
            spec_parse_ras3(input@) == spec_pages_from(input@, 4, big),
            spec_pages_from(input@, 4, big) == prepend_pages(pages@.map_values(|p: Page| p@), spec_pages_from(input@, pos as nat, big)),
        ensures
            pos >= input@.len(),
        decreases input@.len() - pos,
    {
        // Ensure we can read the full header.
        if HEADER_SIZE > input.len() - pos {
            return Err(RasterError::TooShort { expected: pos.saturating_add(HEADER_SIZE), actual: input.len() });
        }

        let width = read_u32(input, pos + OFF_CUPS_WIDTH, order);
        let height = read_u32(input, pos + OFF_CUPS_HEIGHT, order);
        let media_type = read_u32(input, pos + OFF_CUPS_MEDIA_TYPE, order);
        let bits_per_pixel = read_u32(input, pos + OFF_CUPS_BITS_PER_PIXEL, order);
        let colour_space = read_u32(input, pos + OFF_CUPS_COLOUR_SPACE, order);
        let num_colours = read_u32(input, pos + OFF_CUPS_NUM_COLOURS, order);
        let advance_distance = read_u32(input, pos + OFF_ADVANCE_DISTANCE, order);
        let hw_res_x = read_u32(input, pos + OFF_HW_RES_X, order);
        let page_size_w = read_u32(input, pos + OFF_PAGE_SIZE_W, order);
        let page_size_h = read_u32(input, pos + OFF_PAGE_SIZE_H, order);
        let page_width_pts_bits = read_u32(input, pos + OFF_CUPS_PAGE_SIZE_W, order);
        let page_height_pts_bits = read_u32(input, pos + OFF_CUPS_PAGE_SIZE_H, order);

        let data_start = pos + HEADER_SIZE;
        if width == 0 || height == 0 {
            return Err(RasterError::TooShort { expected: data_start.saturating_add(1), actual: data_start });
        }
        if bits_per_pixel != 8 {
            return Err(RasterError::UnsupportedBitsPerPixel(bits_per_pixel));
        }

        assert(width as nat * height as nat <= u64::MAX) by (nonlinear_arith)
            requires width <= u32::MAX, height <= u32::MAX;
        let img_bytes: u64 = width as u64 * height as u64;
        let remaining = input.len() - data_start;
        if img_bytes > remaining as u64 {
            let expected = if img_bytes <= (usize::MAX - data_start) as u64 {
                data_start + img_bytes as usize
            } else {
                usize::MAX
            };
            return Err(RasterError::TooShort { expected, actual: input.len() });
        }
        let data_end = data_start + img_bytes as usize;

        let page = Page {
            width,
            height,
            media_type,
            colour_space,
            num_colours,
            advance_distance,
            hw_res_x,
            page_size_w,
            page_size_h,
            page_width_pts_bits,
            page_height_pts_bits,
            data: slice_to_vec(slice_subrange(input, data_start, data_end)),
        };
        let ghost old_views = pages@.map_values(|p: Page| p@);
        assert(page@ == page_at(input@, pos as int, big, data_end as int));
        pages.push(page);
        assert(pages@.map_values(|p: Page| p@) =~= old_views.push(page_at(input@, pos as int, big, data_end as int)));
        assert(old_views.push(page_at(input@, pos as int, big, data_end as int))
            =~= old_views + seq![page_at(input@, pos as int, big, data_end as int)]);
        proof {
            let p = page_at(input@, pos as int, big, data_end as int);
            assert(spec_pages_from(input@, pos as nat, big) == prepend_pages(seq![p], spec_pages_from(input@, data_end as nat, big)));
            match spec_pages_from(input@, data_end as nat, big) {
                Ok(rest) => {
                    assert(old_views + (seq![p] + rest) =~= (old_views + seq![p]) + rest);
                },
                Err(e) => {},
            }
        }

        pos = data_end;
    }

    assert(pages@.map_values(|p: Page| p@) + Seq::<PageModel>::empty() =~= pages@.map_values(|p: Page| p@));
    Ok(pages)
}

// ---------------------------------------------------------------------------
// Laws
// ---------------------------------------------------------------------------

/// Bytes that a run of pages takes in a stream: a header and the pixel
/// data of each.
pub open spec fn stream_size(pages: Seq<PageModel>) -> nat
    decreases pages.len(),
{
    if pages.len() == 0 {
        0
    } else {
        HEADER_SIZE as nat + pages[0].data.len() + stream_size(pages.drop_first())
    }
}

/// Every page read from `pos` on has a non-zero width and height and one
/// byte per pixel, and the pages take exactly the bytes from `pos` to the
/// end of the stream.
pub proof fn lemma_pages_from_tile(s: Seq<u8>, pos: nat, big_endian: bool)
    requires
        pos <= s.len(),
    ensures
        spec_pages_from(s, pos, big_endian) matches Ok(pages) ==> {
            &&& pos + stream_size(pages) == s.len()
            &&& forall|k: int| 0 <= k < pages.len() ==> page_well_formed(#[trigger] pages[k])
        },
    decreases s.len() - pos,
{
    if pos >= s.len() {
    } else if pos + HEADER_SIZE > s.len() {
    } else {
        let width = field_at(s, pos + OFF_CUPS_WIDTH, big_endian);
        let height = field_at(s, pos + OFF_CUPS_HEIGHT, big_endian);
        let bpp = field_at(s, pos + OFF_CUPS_BITS_PER_PIXEL, big_endian);
        if width == 0 || height == 0 || bpp != 8 {
        } else {
            let data_end = pos + HEADER_SIZE + width as nat * height as nat;
            if data_end > s.len() {
            } else {
                lemma_pages_from_tile(s, data_end as nat, big_endian);
                match spec_pages_from(s, data_end as nat, big_endian) {
                    Ok(rest) => {
                        let p = page_at(s, pos as int, big_endian, data_end);
                        let pages = seq![p] + rest;
                        assert(pages.drop_first() =~= rest);
                        assert(pages[0] == p);
                        assert forall|k: int| 0 <= k < pages.len() implies page_well_formed(#[trigger] pages[k]) by {
                            if k > 0 {
                                assert(pages[k] == rest[k - 1]);
                            }
                        }
                    },
                    Err(e) => {},
                }
            }
        }
    }
}

/// A page with a non-zero width and height and one byte per pixel.
pub open spec fn page_well_formed(p: PageModel) -> bool {
    p.width > 0 && p.height > 0 && p.data.len() == p.width as nat * p.height as nat
}

/// A stream that parses is its 4-byte magic followed by its pages, each a
/// header and its pixel data, with nothing left over; every page has a
/// non-zero width and height and one byte per pixel.
pub proof fn lemma_parse_ras3_tiles(s: Seq<u8>)
    ensures
        spec_parse_ras3(s) matches Ok(pages) ==> {
            &&& 4 + stream_size(pages) == s.len()
            &&& forall|k: int| 0 <= k < pages.len() ==> page_well_formed(#[trigger] pages[k])
        },
{
    if s.len() >= 4 {
        lemma_pages_from_tile(s, 4, true);
        lemma_pages_from_tile(s, 4, false);
    }
}

/// The empty stream, a stream shorter than its magic and a stream with an
/// unknown magic are each refused with their own error.
pub proof fn lemma_parse_ras3_refusals(s: Seq<u8>)
    ensures
        s.len() == 0 ==> spec_parse_ras3(s) == Err::<Seq<PageModel>, RasterError>(RasterError::Empty),
        0 < s.len() < 4 ==> spec_parse_ras3(s) == Err::<Seq<PageModel>, RasterError>(
            RasterError::TooShort { expected: 4, actual: s.len() as usize }),
        s.len() >= 4 && !is_magic_be(s) && !is_magic_le(s) ==> spec_parse_ras3(s) == Err::<Seq<PageModel>, RasterError>(
            RasterError::BadMagic([s[0], s[1], s[2], s[3]])),
        s.len() == 4 && (is_magic_be(s) || is_magic_le(s)) ==> spec_parse_ras3(s) == Ok::<Seq<PageModel>, RasterError>(Seq::empty()),
{
}

/// The value whose big-endian bytes are those of `v` in reverse order.
pub open spec fn swap_bytes_u32(v: u32) -> u32 {
    u32_from_be((v % 256) as u8, (v / 256 % 256) as u8, (v / 65536 % 256) as u8, (v / 16777216) as u8)
}

/// A header field read in little-endian order is the same four bytes read
/// in big-endian order, byte-swapped.
pub proof fn lemma_field_byte_orders(s: Seq<u8>, at: int)
    ensures
        field_at(s, at, false) == swap_bytes_u32(field_at(s, at, true)),
{
    let b0 = s[at] as int;
    let b1 = s[at + 1] as int;
    let b2 = s[at + 2] as int;
    let b3 = s[at + 3] as int;
    let v = b0 * 0x100_0000 + b1 * 0x1_0000 + b2 * 0x100 + b3;
    assert(0 <= v < 0x1_0000_0000);
    let q1 = b0 * 0x1_0000 + b1 * 0x100 + b2;
    lemma_fundamental_div_mod_converse(v, 256, q1, b3);
    let q2 = b0 * 0x100 + b1;
    lemma_fundamental_div_mod_converse(q1, 256, q2, b2);
    lemma_fundamental_div_mod_converse(v, 0x1_0000, q2, b2 * 256 + b3);
    lemma_fundamental_div_mod_converse(q2, 256, b0, b1);
    lemma_fundamental_div_mod_converse(v, 0x100_0000, b0, b1 * 0x1_0000 + b2 * 0x100 + b3);
    assert(field_at(s, at, true) as int == v);
}

/// The pages of an `Ok` result (empty for an error).
pub open spec fn ok_pages(r: Result<Seq<PageModel>, RasterError>) -> Seq<PageModel> {
    match r {
        Ok(pages) => pages,
        Err(_) => Seq::empty(),
    }
}

/// Bytes after a stream whose pages from `pos` on all parse do not change
/// those pages: the extended stream gives them, then what follows.
proof fn lemma_pages_extend(s: Seq<u8>, c: Seq<u8>, pos: nat, big_endian: bool)
    requires
        pos <= s.len(),
        spec_pages_from(s, pos, big_endian) is Ok,
    ensures
        spec_pages_from(s + c, pos, big_endian)
            == prepend_pages(ok_pages(spec_pages_from(s, pos, big_endian)), spec_pages_from(s + c, s.len(), big_endian)),
    decreases s.len() - pos,
{
    let t = s + c;
    if pos >= s.len() {
        match spec_pages_from(t, s.len(), big_endian) {
            Ok(rest) => { assert(Seq::<PageModel>::empty() + rest =~= rest); },
            Err(e) => {},
        }
    } else {
        let width = field_at(s, pos + OFF_CUPS_WIDTH, big_endian);
        let height = field_at(s, pos + OFF_CUPS_HEIGHT, big_endian);
        let data_end = pos + HEADER_SIZE + width as nat * height as nat;
        assert(field_at(t, pos + OFF_CUPS_WIDTH, big_endian) == width);
        assert(field_at(t, pos + OFF_CUPS_HEIGHT, big_endian) == height);
        assert(field_at(t, pos + OFF_CUPS_BITS_PER_PIXEL, big_endian) == field_at(s, pos + OFF_CUPS_BITS_PER_PIXEL, big_endian));
        let p = page_at(s, pos as int, big_endian, data_end);
        assert(page_at(t, pos as int, big_endian, data_end) == p) by {
            assert(t.subrange(pos + HEADER_SIZE, data_end) =~= s.subrange(pos + HEADER_SIZE, data_end));
        }
        lemma_pages_extend(s, c, data_end as nat, big_endian);
        let rest = ok_pages(spec_pages_from(s, data_end as nat, big_endian));
        match spec_pages_from(t, s.len(), big_endian) {
            Ok(tail) => { assert(seq![p] + (rest + tail) =~= (seq![p] + rest) + tail); },
            Err(e) => {},
        }
    }
}

/// Two streams that agree after their starts `k1` and `k2` give the same
/// pages from the same distance `q` past those starts on.
proof fn lemma_pages_shift(s1: Seq<u8>, k1: nat, s2: Seq<u8>, k2: nat, q: nat, big_endian: bool)
    requires
        k1 <= s1.len(),
        k2 <= s2.len(),
        s1.subrange(k1 as int, s1.len() as int) == s2.subrange(k2 as int, s2.len() as int),
        spec_pages_from(s2, k2 + q, big_endian) is Ok,
    ensures
        spec_pages_from(s1, k1 + q, big_endian) == spec_pages_from(s2, k2 + q, big_endian),
    decreases s2.len() - (k2 + q),
{
    assert(s1.subrange(k1 as int, s1.len() as int).len() == s1.len() - k1);
    assert(s2.subrange(k2 as int, s2.len() as int).len() == s2.len() - k2);
    let t1 = s1.subrange(k1 as int, s1.len() as int);
    let t2 = s2.subrange(k2 as int, s2.len() as int);
    assert forall|i: int| 0 <= i < s2.len() - k2 implies #[trigger] s1[k1 + i] == s2[k2 + i] by {
        assert(t1[i] == s1[k1 + i]);
        assert(t2[i] == s2[k2 + i]);
        assert(t1[i] == t2[i]);
    }
    let p1 = k1 + q;
    let p2 = k2 + q;
    if p2 >= s2.len() {
    } else {
        assert(s1.len() - k1 == s2.len() - k2);
        assert forall|o: int| 0 <= o && p2 + o + 4 <= s2.len() implies #[trigger] field_at(s1, p1 + o, big_endian) == field_at(s2, p2 + o, big_endian) by {
            assert(s1[k1 + (q + o)] == s2[k2 + (q + o)]);
            assert(s1[k1 + (q + o + 1)] == s2[k2 + (q + o + 1)]);
            assert(s1[k1 + (q + o + 2)] == s2[k2 + (q + o + 2)]);
            assert(s1[k1 + (q + o + 3)] == s2[k2 + (q + o + 3)]);
        }
        let width = field_at(s2, p2 + OFF_CUPS_WIDTH, big_endian);
        let height = field_at(s2, p2 + OFF_CUPS_HEIGHT, big_endian);
        assert(field_at(s1, p1 + OFF_CUPS_WIDTH, big_endian) == width);
        assert(field_at(s1, p1 + OFF_CUPS_HEIGHT, big_endian) == height);
        assert(field_at(s1, p1 + OFF_CUPS_BITS_PER_PIXEL, big_endian) == field_at(s2, p2 + OFF_CUPS_BITS_PER_PIXEL, big_endian));
        let n = width as nat * height as nat;
        let e1 = p1 + HEADER_SIZE + n;
        let e2 = p2 + HEADER_SIZE + n;
        assert(field_at(s1, p1 + OFF_CUPS_MEDIA_TYPE, big_endian) == field_at(s2, p2 + OFF_CUPS_MEDIA_TYPE, big_endian));
        assert(field_at(s1, p1 + OFF_CUPS_COLOUR_SPACE, big_endian) == field_at(s2, p2 + OFF_CUPS_COLOUR_SPACE, big_endian));
        assert(field_at(s1, p1 + OFF_CUPS_NUM_COLOURS, big_endian) == field_at(s2, p2 + OFF_CUPS_NUM_COLOURS, big_endian));
        assert(field_at(s1, p1 + OFF_ADVANCE_DISTANCE, big_endian) == field_at(s2, p2 + OFF_ADVANCE_DISTANCE, big_endian));
        assert(field_at(s1, p1 + OFF_HW_RES_X, big_endian) == field_at(s2, p2 + OFF_HW_RES_X, big_endian));
        assert(field_at(s1, p1 + OFF_PAGE_SIZE_W, big_endian) == field_at(s2, p2 + OFF_PAGE_SIZE_W, big_endian));
        assert(field_at(s1, p1 + OFF_PAGE_SIZE_H, big_endian) == field_at(s2, p2 + OFF_PAGE_SIZE_H, big_endian));
        assert(field_at(s1, p1 + OFF_CUPS_PAGE_SIZE_W, big_endian) == field_at(s2, p2 + OFF_CUPS_PAGE_SIZE_W, big_endian));
        assert(field_at(s1, p1 + OFF_CUPS_PAGE_SIZE_H, big_endian) == field_at(s2, p2 + OFF_CUPS_PAGE_SIZE_H, big_endian));
        if e2 <= s2.len() {
            assert(s1.subrange(p1 + HEADER_SIZE, e1) =~= s2.subrange(p2 + HEADER_SIZE, e2)) by {
                assert forall|i: int| 0 <= i < n implies #[trigger] s1.subrange(p1 + HEADER_SIZE, e1)[i] == s2.subrange(p2 + HEADER_SIZE, e2)[i] by {
                    assert(s1[k1 + (q + HEADER_SIZE + i)] == s2[k2 + (q + HEADER_SIZE + i)]);
                }
            }
            assert(page_at(s1, p1 as int, big_endian, e1) == page_at(s2, p2 as int, big_endian, e2));
            lemma_pages_shift(s1, k1, s2, k2, (q + HEADER_SIZE + n) as nat, big_endian);
        }
    }
}

/// Joining two streams of the same byte order (the second without its
/// magic) gives the pages of the first followed by those of the second.
pub proof fn lemma_parse_ras3_join(a: Seq<u8>, b: Seq<u8>)
    requires
        a.len() >= 4,
        b.len() >= 4,
        a.subrange(0, 4) == b.subrange(0, 4),
        spec_parse_ras3(a) is Ok,
        spec_parse_ras3(b) is Ok,
    ensures
        spec_parse_ras3(a + b.subrange(4, b.len() as int))
            == Ok::<Seq<PageModel>, RasterError>(ok_pages(spec_parse_ras3(a)) + ok_pages(spec_parse_ras3(b))),
{
    let c = b.subrange(4, b.len() as int);
    let j = a + c;
    let ma = a.subrange(0, 4);
    let mb = b.subrange(0, 4);
    assert forall|i: int| 0 <= i < 4 implies #[trigger] a[i] == b[i] && j[i] == a[i] by {
        assert(ma[i] == a[i]);
        assert(mb[i] == b[i]);
        assert(ma[i] == mb[i]);
    }
    let big = is_magic_be(b);
    assert(is_magic_be(a) == big && is_magic_le(a) == is_magic_le(b));
    assert(is_magic_be(j) == big && is_magic_le(j) == is_magic_le(b));
    assert(big || is_magic_le(b));
    assert(spec_parse_ras3(b) == spec_pages_from(b, 4, big));
    assert(spec_parse_ras3(a) == spec_pages_from(a, 4, big));
    assert(spec_parse_ras3(j) == spec_pages_from(j, 4, big));
    lemma_pages_extend(a, c, 4, big);
    assert(j.subrange(a.len() as int, j.len() as int) =~= b.subrange(4, b.len() as int));
    lemma_pages_shift(j, a.len(), b, 4, 0, big);
}

} // verus!
