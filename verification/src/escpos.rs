//! ESC/POS page encoding for the three Phomemo printer families: the M110
//! family (M110, M120, M220, M421), the M02 family (M02, M02 Pro, M02S,
//! T02) and the D30.

use vstd::prelude::*;
use crate::grid::{grid, grid_row, lemma_grid_extend, lemma_cell_of_index, lemma_grid_index};
use crate::image::{
    row_bytes, packed_cell, lemma_packed_byte_bits, spec_to_1bit, spec_rotate, rotated_cell, spec_resize, resized_height, resize_fits, resize_reads_within,
    to_1bit, rotate_90_ccw, resize_nearest, msb_bit, is_black,
};
use crate::raster::{Page, PageModel};
use crate::text::{chars_to_string, push_str};

verus! {

// ---------------------------------------------------------------------------
// Common pieces
// ---------------------------------------------------------------------------

/// Why a page cannot be printed.
#[derive(Debug)]
pub enum FilterError {
    /// The page is not 1-colour grayscale (colour space 0, one colour).
    InvalidColourSpace,
}

impl FilterError {
    /// The message that describes the error.
    pub open spec fn spec_message(&self) -> Seq<char> {
        match *self {
            FilterError::InvalidColourSpace => "invalid colour space: only monochrome supported"@,
        }
    }

    /// The message that describes the error.
    pub fn message(&self) -> (s: String)
        ensures
            s@ == self.spec_message(),
    {
        let mut out: Vec<char> = Vec::new();
        match self {
            FilterError::InvalidColourSpace => push_str(&mut out, "invalid colour space: only monochrome supported"),
        }
        chars_to_string(out.as_slice())
    }
}

/// The printers only take monochrome pages: colour space 0 with one colour.
pub open spec fn is_monochrome(page: PageModel) -> bool {
    page.colour_space == 0 && page.num_colours == 1
}

/// Little-endian bytes of a 16-bit value.
pub open spec fn le16(v: u16) -> Seq<u8> {
    seq![(v % 256) as u8, (v / 256) as u8]
}

/// `n` zero bytes.
pub open spec fn zeros(n: nat) -> Seq<u8> {
    Seq::new(n, |i: int| 0u8)
}

/// `GS v 0` raster command with mode 0.
pub open spec fn gs_v_0() -> Seq<u8> {
    seq![0x1du8, 0x76u8, 0x30u8, 0x00u8]
}

fn push_le16(out: &mut Vec<u8>, v: u16)
    ensures
        final(out)@ == old(out)@ + le16(v),
{
    out.push((v % 256) as u8);
    out.push((v / 256) as u8);
    assert(final(out)@ =~= old(out)@ + le16(v));
}

fn push_bytes(out: &mut Vec<u8>, bytes: &[u8])
    ensures
        final(out)@ == old(out)@ + bytes@,
{
    let mut i: usize = 0;
    while i < bytes.len()
        invariant
            i <= bytes@.len(),
            out@ == old(out)@ + bytes@.take(i as int),
        decreases bytes@.len() - i,
    {
        out.push(bytes[i]);
        assert(bytes@.take(i as int + 1) =~= bytes@.take(i as int).push(bytes@[i as int]));
        i = i + 1;
    }
    assert(bytes@.take(bytes@.len() as int) =~= bytes@);
}

fn push_zeros(out: &mut Vec<u8>, n: usize)
    ensures
        final(out)@ == old(out)@ + zeros(n as nat),
{
    let mut i: usize = 0;
    while i < n
        invariant
            i <= n,
            out@ == old(out)@ + zeros(i as nat),
        decreases n - i,
    {
        out.push(0u8);
        assert(zeros(i as nat + 1) =~= zeros(i as nat).push(0u8));
        i = i + 1;
    }
}

// ---------------------------------------------------------------------------
// D30
// ---------------------------------------------------------------------------

/// Bytes per raster line of a D30 page: the rotated width, `height`
/// pixels, rounded up to whole bytes, as the 16-bit field of the command.
pub open spec fn d30_bytes_per_line(page: PageModel) -> u16 {
    row_bytes(page.height as nat) as u16
}

/// The D30 output for one page: init, `ESC @`, then the page turned a
/// quarter turn counter-clockwise as a `GS v 0` raster, followed by
/// `advance_distance` blank lines of feed.
pub open spec fn d30_page_output(page: PageModel) -> Seq<u8> {
    let rotated = spec_rotate(page.data, page.width as nat, page.height as nat);
    let packed = spec_to_1bit(rotated, page.height as nat);
    let bpl = d30_bytes_per_line(page);
    seq![0x1fu8, 0x11u8, 0x24u8, 0x00u8, 0x1bu8, 0x40u8]
        + gs_v_0() + le16(bpl) + le16(page.width as u16)
        + packed
        + zeros(bpl as nat * page.advance_distance as nat)
}

/// What encoding a D30 page asks of the page: a height (the rotated
/// width), as many pixels as its dimensions say, and a feed whose byte
/// count fits in a `usize`.
pub open spec fn d30_encodable(page: PageModel) -> bool {
    &&& page.height > 0
    &&& page.data.len() >= page.width as nat * page.height as nat
    &&& u16::MAX as nat * page.advance_distance as nat <= usize::MAX
}

/// Encode one page for the D30. Fails when the page is not monochrome.
pub fn encode_d30_page(page: &Page) -> (res: Result<Vec<u8>, FilterError>)
    requires
        is_monochrome(page@) ==> d30_encodable(page@),
    ensures
        match res {
            Ok(out) => is_monochrome(page@) && out@ == d30_page_output(page@),
            Err(e) => !is_monochrome(page@) && e == FilterError::InvalidColourSpace,
        },
{
    if page.colour_space != 0 || page.num_colours != 1 {
        return Err(FilterError::InvalidColourSpace);
    }

    // Rotate 90 degrees counter-clockwise, then threshold to 1-bit.
    let (rotated, rot_w, rot_h) = rotate_90_ccw(page.data.as_slice(), page.width, page.height);
    let mut packed = to_1bit(rotated.as_slice(), rot_w);

    let bytes_per_line = (rot_w / 8 + if rot_w % 8 == 0 { 0 } else { 1 }) as u16;
    assert(bytes_per_line == d30_bytes_per_line(page@));
    let height = rot_h as u16;
    let feed_lines = page.advance_distance;

    let mut out: Vec<u8> = Vec::new();
    // Init
    out.push(0x1f);
    out.push(0x11);
    out.push(0x24);
    out.push(0x00);
    // ESC @
    out.push(0x1b);
    out.push(0x40);
    // Raster: GS v 0
    out.push(0x1d);
    out.push(0x76);
    out.push(0x30);
    out.push(0x00);
    push_le16(&mut out, bytes_per_line);
    push_le16(&mut out, height);
    let ghost head = out@;
    out.append(&mut packed);

    // Feed padding
    assert(bytes_per_line as nat * feed_lines as nat <= usize::MAX) by (nonlinear_arith)
        requires
            bytes_per_line <= u16::MAX,
            u16::MAX as nat * feed_lines as nat <= usize::MAX;
    let padding_bytes = bytes_per_line as usize * feed_lines as usize;
    push_zeros(&mut out, padding_bytes);
    assert(out@ =~= d30_page_output(page@));
    Ok(out)
}

// ---------------------------------------------------------------------------
// M02 family
// ---------------------------------------------------------------------------

/// M02 print head width in pixels.
pub const M02_PRINT_WIDTH: u32 = 384;

/// Maximum number of raster lines per `GS v 0` block.
pub const M02_MAX_BLOCK_LINES: usize = 256;

/// Bytes per raster line (384 / 8).
pub const M02_BYTES_PER_LINE: u16 = 48;

/// The printer reads 0x0a in raster data as LineFeed: it is sent as 0x14.
pub open spec fn substitute_linefeed(b: u8) -> u8 {
    if b == 0x0a { 0x14 } else { b }
}

/// The page scaled to the print head width (when it is not that wide
/// already), with its width and height.
pub open spec fn m02_scaled(page: PageModel) -> (Seq<u8>, u32, u32) {
    if page.width != 384 {
        (
            spec_resize(page.data, page.width as nat, page.height as nat, 384),
            384u32,
            resized_height(page.width as nat, page.height as nat, 384) as u32,
        )
    } else {
        (page.data, page.width, page.height)
    }
}

/// The M02 uses inverted bit polarity: each grayscale value `p` is packed
/// as `255 - p`.
pub open spec fn m02_packed(page: PageModel) -> Seq<u8> {
    let scaled = m02_scaled(page);
    spec_to_1bit(scaled.0.map_values(|p: u8| (255 - p) as u8), scaled.1 as nat)
}

/// The `GS v 0` blocks that carry `remaining` lines of `packed` from line
/// `line` on: at most 256 lines each, the line count sent minus one.
pub open spec fn m02_blocks(packed: Seq<u8>, line: nat, remaining: nat) -> Seq<u8>
    decreases remaining,
{
    if remaining == 0 {
        Seq::empty()
    } else {
        let lines: nat = if remaining < 256 { remaining } else { 256 };
        gs_v_0() + le16(48) + le16((lines - 1) as u16)
            + packed.subrange((line * 48) as int, ((line + lines) * 48) as int).map_values(|b: u8| substitute_linefeed(b))
            + m02_blocks(packed, line + lines, (remaining - lines) as nat)
    }
}

/// Lines fed after an M02 page: `advance_distance`, 2 when it is 0.
pub open spec fn m02_feed(page: PageModel) -> u8 {
    if page.advance_distance == 0 { 2 } else { page.advance_distance as u8 }
}

/// The M02 output for one page: `ESC @`, `ESC a 1` (centre), init, the
/// raster blocks, two `ESC d` feeds and the closing commands.
pub open spec fn m02_page_output(page: PageModel) -> Seq<u8> {
    let feed = m02_feed(page);
    seq![0x1bu8, 0x40u8, 0x1bu8, 0x61u8, 0x01u8, 0x1fu8, 0x11u8, 0x02u8, 0x04u8]
        + m02_blocks(m02_packed(page), 0, m02_scaled(page).2 as nat)
        + seq![0x1bu8, 0x64u8, feed, 0x1bu8, 0x64u8, feed,
               0x1fu8, 0x11u8, 0x08u8, 0x1fu8, 0x11u8, 0x0eu8,
               0x1fu8, 0x11u8, 0x07u8, 0x1fu8, 0x11u8, 0x09u8]
}

/// What encoding an M02 page asks of the page: a width (for the scaling
/// ratio); at the print head width, as many pixels as its dimensions say;
/// at another width, the pixels the scaling reads, and scaling sizes that
/// fit in a `usize`.
pub open spec fn m02_encodable(page: PageModel) -> bool {
    &&& page.width > 0
    &&& page.width == 384 ==> page.data.len() >= 384 * page.height as nat
    &&& page.width != 384 ==> resize_fits(page.width as nat, page.height as nat, 384)
    &&& page.width != 384 ==> resize_reads_within(page.data.len(), page.width as nat, page.height as nat, 384)
}

proof fn lemma_m02_blocks_unfold(packed: Seq<u8>, line: nat, remaining: nat, lines: nat)
    requires
        remaining > 0,
        lines == if remaining < 256 { remaining } else { 256 },
    ensures
        m02_blocks(packed, line, remaining) == gs_v_0() + le16(48) + le16((lines - 1) as u16)
            + packed.subrange((line * 48) as int, ((line + lines) * 48) as int).map_values(|b: u8| substitute_linefeed(b))
            + m02_blocks(packed, line + lines, (remaining - lines) as nat),
{
}

/// Turn every grayscale value `p` into `255 - p`.
fn invert_grey(grey: &mut Vec<u8>)
    ensures
        final(grey)@ == old(grey)@.map_values(|p: u8| (255 - p) as u8),
{
    let ghost source = grey@;
    let mut i: usize = 0;
    while i < grey.len()
        invariant
            grey@.len() == source.len(),
            i <= grey@.len(),
            forall|k: int| 0 <= k < i ==> grey@[k] == (255 - source[k]) as u8,
            forall|k: int| i <= k < grey@.len() ==> grey@[k] == source[k],
        decreases grey@.len() - i,
    {
        let p = grey[i];
        grey.set(i, 255 - p);
        i = i + 1;
    }
    assert(grey@ =~= source.map_values(|p: u8| (255 - p) as u8));
}

/// Append the raster blocks that carry the first `height` lines of `packed`.
fn push_m02_blocks(out: &mut Vec<u8>, packed: &Vec<u8>, height: usize)
    requires
        height * 48 <= packed@.len(),
    ensures
        final(out)@ == old(out)@ + m02_blocks(packed@, 0, height as nat),
{
    let bpl = M02_BYTES_PER_LINE as usize;
    let ghost start_out = out@;
    let plen = packed.len();
    let mut remaining = height;
    let mut line: usize = 0;
    while remaining > 0
        invariant
            bpl == 48,
            line + remaining == height,
            height * 48 <= packed@.len(),
            plen == packed@.len(),
            out@ + m02_blocks(packed@, line as nat, remaining as nat) == start_out + m02_blocks(packed@, 0, height as nat),
        decreases remaining,
    {
        let lines = if remaining < M02_MAX_BLOCK_LINES { remaining } else { M02_MAX_BLOCK_LINES };
        proof {
            lemma_m02_blocks_unfold(packed@, line as nat, remaining as nat, lines as nat);
        }
        let ghost before = out@;

        // GS v 0
        out.push(0x1d);
        out.push(0x76);
        out.push(0x30);
        out.push(0x00);
        push_le16(out, M02_BYTES_PER_LINE);
        push_le16(out, (lines - 1) as u16);
        let ghost block_head = out@;

        assert(line * 48 <= (line + lines) * 48 <= height * 48) by (nonlinear_arith)
            requires line + lines <= height;
        let start = line * bpl;
        let end = (line + lines) * bpl;
        let mut k = start;
        while k < end
            invariant
                start <= k <= end,
                end <= packed@.len(),
                out@ == block_head + packed@.subrange(start as int, k as int).map_values(|b: u8| substitute_linefeed(b)),
            decreases end - k,
        {
            let mut byte = packed[k];
            // 0x0a is interpreted as LineFeed by the printer: substitute.
            if byte == 0x0a {
                byte = 0x14;
            }
            out.push(byte);
            assert(packed@.subrange(start as int, k as int + 1).map_values(|b: u8| substitute_linefeed(b))
                =~= packed@.subrange(start as int, k as int).map_values(|b: u8| substitute_linefeed(b)).push(byte));
            k = k + 1;
        }
        assert(out@ + m02_blocks(packed@, (line + lines) as nat, (remaining - lines) as nat)
            =~= before + m02_blocks(packed@, line as nat, remaining as nat));

        line = line + lines;
        remaining = remaining - lines;
    }
    assert(out@ + m02_blocks(packed@, line as nat, 0) =~= out@);
}

/// Scale the page to the print head width unless it is that wide already.
fn m02_scale(page: &Page) -> (res: (Vec<u8>, u32, u32))
    requires
        m02_encodable(page@),
    ensures
        res.0@ == m02_scaled(page@).0,
        res.1 == m02_scaled(page@).1,
        res.2 == m02_scaled(page@).2,
        res.0@.len() >= 384 * res.2 as nat,
{
    if page.width != M02_PRINT_WIDTH {
        let (resized, w, h) = resize_nearest(page.data.as_slice(), page.width, page.height, M02_PRINT_WIDTH);
        proof {
            let dh = resized_height(page.width as nat, page.height as nat, 384);
            assert(resized@.len() == dh * 384);
            assert(h as nat <= dh);
            assert(384 * h as nat <= dh * 384) by (nonlinear_arith)
                requires h as nat <= dh;
        }
        (resized, w, h)
    } else {
        (page.data.clone(), page.width, page.height)
    }
}

/// Encode one page for the M02 family. Fails when the page is not
/// monochrome.
#[verifier::spinoff_prover]
#[verifier::rlimit(40)]
pub fn encode_m02_page(page: &Page) -> (res: Result<Vec<u8>, FilterError>)
    requires
        is_monochrome(page@) ==> m02_encodable(page@),
    ensures
        match res {
            Ok(out) => is_monochrome(page@) && out@ == m02_page_output(page@),
            Err(e) => !is_monochrome(page@) && e == FilterError::InvalidColourSpace,
        },
{
    if page.colour_space != 0 || page.num_colours != 1 {
        return Err(FilterError::InvalidColourSpace);
    }

    // Resize to 384px wide if needed.
    let (mut grey, width, height) = m02_scale(page);

    // The M02 uses inverted bit polarity: bit 0 = print, bit 1 = no print.
    // Invert the grayscale data before 1-bit packing so that to_1bit()
    // (which sets bit 1 for dark pixels) produces the correct output.
    invert_grey(&mut grey);

    // Threshold to 1-bit.
    let packed = to_1bit(grey.as_slice(), width);
    let height = height as usize;
    assert(height * 48 <= packed@.len()) by (nonlinear_arith)
        requires
            grey@.len() >= 384 * height,
            packed@.len() == (grey@.len() / 384) * 48;
    assert(packed@ == m02_packed(page@));

    let mut out: Vec<u8> = Vec::new();
    // Header: ESC @ initialise, ESC a centre justify, init.
    out.push(0x1b);
    out.push(0x40);
    out.push(0x1b);
    out.push(0x61);
    out.push(0x01);
    out.push(0x1f);
    out.push(0x11);
    out.push(0x02);
    out.push(0x04);

    // Raster blocks (max 256 lines each)
    push_m02_blocks(&mut out, &packed, height);

    // Footer
    let feed: u8 = if page.advance_distance == 0 { 2 } else { page.advance_distance as u8 };
    out.push(0x1b);
    out.push(0x64);
    out.push(feed);
    out.push(0x1b);
    out.push(0x64);
    out.push(feed);
    out.push(0x1f);
    out.push(0x11);
    out.push(0x08);
    out.push(0x1f);
    out.push(0x11);
    out.push(0x0e);
    out.push(0x1f);
    out.push(0x11);
    out.push(0x07);
    out.push(0x1f);
    out.push(0x11);
    out.push(0x09);
    assert(out@ =~= m02_page_output(page@));
    Ok(out)
}

// ---------------------------------------------------------------------------
// M110 family
// ---------------------------------------------------------------------------

/// M110/M120 print head width in bytes (384 dots, 48mm at 203 DPI).
pub const M110_HEAD_WIDTH_BYTES: usize = 48;

/// Where the raster of an M110 page sits on the print head.
///
/// Every row is `dst_bpl` bytes: `pad_left` zero bytes, the `src_bpl`
/// bytes of a packed image row, then `pad_right` zero bytes. `top_pad`
/// blank rows come before the `height` image rows.
#[derive(Clone, Copy, Debug)]
pub struct M110Layout {
    /// Packed bytes per image row.
    pub src_bpl: usize,
    /// Width of the label stock in bytes.
    pub page_bytes: usize,
    /// Bytes per row sent to the printer.
    pub dst_bpl: usize,
    pub pad_left: usize,
    pub pad_right: usize,
    pub top_pad: usize,
    /// Rows sent to the printer: the image rows plus `top_pad`.
    pub total_height: usize,
}

/// `a - b`, or 0 when `b` is the larger.
pub open spec fn sat_sub(a: nat, b: nat) -> nat {
    if a >= b { (a - b) as nat } else { 0 }
}

/// The larger of two naturals.
pub open spec fn max_nat(a: nat, b: nat) -> nat {
    if a >= b { a } else { b }
}

/// Width of the label stock in bytes. The page width in dots comes from the
/// float `cupsPageSize` (`float_width_dots`, its value when that size is
/// positive, already rounded to dots), else from the integer `PageSize`
/// (in points, at `hw_res_x` dots per inch, rounded down to whole bytes and
/// never below the raster), else the raster width itself. Without a
/// resolution the raster width is used.
pub open spec fn m110_page_bytes(page: PageModel, float_width_dots: Option<usize>) -> nat {
    let src_bpl = row_bytes(page.width as nat);
    if page.hw_res_x > 0 {
        match float_width_dots {
            Some(dots) => row_bytes(dots as nat),
            None => if page.page_size_w > 0 {
                max_nat((page.page_size_w as nat * page.hw_res_x as nat) / 72 / 8, src_bpl)
            } else {
                src_bpl
            },
        }
    } else {
        src_bpl
    }
}

/// Height of the label stock in dots, chosen as the width is.
pub open spec fn m110_page_height_dots(page: PageModel, float_height_dots: Option<usize>) -> nat {
    if page.hw_res_x > 0 {
        match float_height_dots {
            Some(dots) => dots as nat,
            None => if page.page_size_h > 0 {
                (page.page_size_h as nat * page.hw_res_x as nat) / 72
            } else {
                page.height as nat
            },
        }
    } else {
        page.height as nat
    }
}

/// The layout of an M110 page: the row is at least the print head wide
/// (wider when the stock or the raster is); the stock is right-aligned on
/// the head and the raster centred in the stock; blank rows on top centre
/// the raster vertically in the stock.
pub open spec fn spec_m110_layout(page: PageModel, float_width_dots: Option<usize>, float_height_dots: Option<usize>) -> M110Layout {
    let src_bpl = row_bytes(page.width as nat);
    let page_bytes = m110_page_bytes(page, float_width_dots);
    let dst_bpl = max_nat(max_nat(48, page_bytes), src_bpl);
    let stock_pad = (dst_bpl - page_bytes) as nat;
    let margin_left = sat_sub(page_bytes, src_bpl) / 2;
    let pad_left = stock_pad + margin_left;
    let top_pad = sat_sub(m110_page_height_dots(page, float_height_dots), page.height as nat) / 2;
    M110Layout {
        src_bpl: src_bpl as usize,
        page_bytes: page_bytes as usize,
        dst_bpl: dst_bpl as usize,
        pad_left: pad_left as usize,
        pad_right: (dst_bpl - pad_left - src_bpl) as usize,
        top_pad: top_pad as usize,
        total_height: (page.height + top_pad) as usize,
    }
}

/// What the layout asks of its inputs: a stock no narrower than the raster
/// (else the right padding would be negative), and sums and products that
/// fit in a `usize`.
pub open spec fn m110_layout_fits(page: PageModel, float_width_dots: Option<usize>, float_height_dots: Option<usize>) -> bool {
    &&& m110_page_bytes(page, float_width_dots) >= row_bytes(page.width as nat)
    &&& page.page_size_w as nat * page.hw_res_x as nat <= usize::MAX
    &&& page.page_size_h as nat * page.hw_res_x as nat <= usize::MAX
    &&& page.height as nat + sat_sub(m110_page_height_dots(page, float_height_dots), page.height as nat) / 2 <= usize::MAX
}

/// Width of the label stock in bytes (see `m110_page_bytes`).
fn m110_stock_bytes(page: &Page, float_width_dots: Option<usize>, src_bpl: usize) -> (b: usize)
    requires
        src_bpl == row_bytes(page.width as nat),
        page.page_size_w as nat * page.hw_res_x as nat <= usize::MAX,
    ensures
        b == m110_page_bytes(page@, float_width_dots),
{
    if page.hw_res_x > 0 {
        match float_width_dots {
            // float cupsPageSize: precise
            Some(dots) => dots / 8 + if dots % 8 == 0 { 0 } else { 1 },
            None => if page.page_size_w > 0 {
                // Base-header integer PageSize: floor to avoid rounding
                // past a byte boundary.
                let dots = (page.page_size_w as usize * page.hw_res_x as usize) / 72;
                let stock = dots / 8;
                if stock >= src_bpl { stock } else { src_bpl }
            } else {
                src_bpl
            },
        }
    } else {
        src_bpl
    }
}

/// Height of the label stock in dots (see `m110_page_height_dots`).
fn m110_stock_height_dots(page: &Page, float_height_dots: Option<usize>) -> (d: usize)
    requires
        page.page_size_h as nat * page.hw_res_x as nat <= usize::MAX,
    ensures
        d == m110_page_height_dots(page@, float_height_dots),
{
    if page.hw_res_x > 0 {
        match float_height_dots {
            Some(dots) => dots,
            None => if page.page_size_h > 0 {
                (page.page_size_h as usize * page.hw_res_x as usize) / 72
            } else {
                page.height as usize
            },
        }
    } else {
        page.height as usize
    }
}

/// Work out where an M110 page goes on the print head.
pub fn m110_layout(page: &Page, float_width_dots: Option<usize>, float_height_dots: Option<usize>) -> (l: M110Layout)
    requires
        m110_layout_fits(page@, float_width_dots, float_height_dots),
    ensures
        l == spec_m110_layout(page@, float_width_dots, float_height_dots),
{
    let width = page.width;
    let src_bpl = (width / 8 + if width % 8 == 0 { 0 } else { 1 }) as usize;

    // Physical page width (stock width) from the raster header.
    let page_bytes = m110_stock_bytes(page, float_width_dots, src_bpl);

    // Total row width: at least the print head, but wider if the page or
    // raster exceeds it (e.g. M220 wide labels).
    let wide = if M110_HEAD_WIDTH_BYTES >= page_bytes { M110_HEAD_WIDTH_BYTES } else { page_bytes };
    let dst_bpl = if wide >= src_bpl { wide } else { src_bpl };

    // Right-align the stock on the print head, then centre the raster data
    // within the stock.
    let stock_pad = dst_bpl - page_bytes;
    let margin_left = page_bytes.saturating_sub(src_bpl) / 2;
    let pad_left = stock_pad + margin_left;
    let pad_right = dst_bpl - pad_left - src_bpl;

    // Vertical centering: blank rows at the top push the content down
    // (no bottom padding, to keep within the label stock).
    let page_height_dots = m110_stock_height_dots(page, float_height_dots);
    let content_h = page.height as usize;
    let top_pad = page_height_dots.saturating_sub(content_h) / 2;
    let total_height = content_h + top_pad;

    M110Layout { src_bpl, page_bytes, dst_bpl, pad_left, pad_right, top_pad, total_height }
}

/// The stock is right-aligned on the print head and the raster centred in
/// the stock to within one byte (any odd byte goes to the right); every row
/// is at least the print head wide; blank rows on top centre the raster
/// vertically to within one row.
pub proof fn lemma_m110_layout_centres(page: PageModel, float_width_dots: Option<usize>, float_height_dots: Option<usize>)
    requires
        m110_layout_fits(page, float_width_dots, float_height_dots),
    ensures
        ({
            let l = spec_m110_layout(page, float_width_dots, float_height_dots);
            let phd = m110_page_height_dots(page, float_height_dots);
            &&& l.pad_left + l.src_bpl + l.pad_right == l.dst_bpl
            &&& l.dst_bpl >= 48
            &&& l.dst_bpl >= l.page_bytes
            &&& l.pad_left >= l.dst_bpl - l.page_bytes
            &&& l.pad_left - (l.dst_bpl - l.page_bytes) <= l.pad_right <= l.pad_left - (l.dst_bpl - l.page_bytes) + 1
            &&& l.total_height == page.height + l.top_pad
            &&& (phd >= page.height ==> 2 * l.top_pad <= phd - page.height <= 2 * l.top_pad + 1)
        }),
{
}

/// Byte `c` of row `r` of the M110 raster: blank above the image and
/// beside it, the packed image byte where the image sits.
pub open spec fn m110_cell(packed: Seq<u8>, l: M110Layout) -> spec_fn(int, int) -> u8 {
    |r: int, c: int|
        if r < l.top_pad || c < l.pad_left || c >= l.pad_left + l.src_bpl {
            0u8
        } else {
            packed[(r - l.top_pad) * l.src_bpl + (c - l.pad_left)]
        }
}

/// The M110 output for one page: speed, density and media type commands,
/// the page as one `GS v 0` raster laid out by `spec_m110_layout`, and the
/// two closing commands.
pub open spec fn m110_page_output(page: PageModel, float_width_dots: Option<usize>, float_height_dots: Option<usize>) -> Seq<u8> {
    let l = spec_m110_layout(page, float_width_dots, float_height_dots);
    let packed = spec_to_1bit(page.data, page.width as nat);
    seq![0x1bu8, 0x4eu8, 0x0du8, 0x05u8, 0x1bu8, 0x4eu8, 0x04u8, 0x0au8, 0x1fu8, 0x11u8, page.media_type as u8]
        + gs_v_0() + le16(l.dst_bpl as u16) + le16(l.total_height as u16)
        + grid(l.total_height as nat, l.dst_bpl as nat, m110_cell(packed, l))
        + seq![0x1fu8, 0xf0u8, 0x05u8, 0x00u8, 0x1fu8, 0xf0u8, 0x03u8, 0x00u8]
}

/// What encoding an M110 page asks of the page: a width, as many pixels as
/// its dimensions say, and a layout that fits.
pub open spec fn m110_encodable(page: PageModel, float_width_dots: Option<usize>, float_height_dots: Option<usize>) -> bool {
    &&& page.width > 0
    &&& page.data.len() >= page.width as nat * page.height as nat
    &&& m110_layout_fits(page, float_width_dots, float_height_dots)
}

/// Append the laid-out raster rows.
fn push_m110_raster(out: &mut Vec<u8>, packed: &Vec<u8>, l: M110Layout, height: usize)
    requires
        l.pad_left + l.src_bpl + l.pad_right == l.dst_bpl,
        l.total_height == height + l.top_pad,
        height * l.src_bpl <= packed@.len(),
    ensures
        final(out)@ == old(out)@ + grid(l.total_height as nat, l.dst_bpl as nat, m110_cell(packed@, l)),
{
    let ghost f = m110_cell(packed@, l);
    let ghost start_out = out@;
    let plen = packed.len();
    let mut r: usize = 0;
    while r < l.total_height
        invariant
            l.pad_left + l.src_bpl + l.pad_right == l.dst_bpl,
            l.total_height == height + l.top_pad,
            height * l.src_bpl <= packed@.len(),
            plen == packed@.len(),
            f == m110_cell(packed@, l),
            r <= l.total_height,
            out@ == start_out + grid(r as nat, l.dst_bpl as nat, f),
        decreases l.total_height - r,
    {
        let mut c: usize = 0;
        while c < l.dst_bpl
            invariant
                l.pad_left + l.src_bpl + l.pad_right == l.dst_bpl,
                l.total_height == height + l.top_pad,
                height * l.src_bpl <= packed@.len(),
                plen == packed@.len(),
                f == m110_cell(packed@, l),
                r < l.total_height,
                c <= l.dst_bpl,
                out@ == start_out + grid(r as nat, l.dst_bpl as nat, f) + grid_row(l.dst_bpl as nat, f, r as int).take(c as int),
            decreases l.dst_bpl - c,
        {
            let v = if r < l.top_pad || c < l.pad_left || c >= l.pad_left + l.src_bpl {
                0u8
            } else {
                let row = r - l.top_pad;
                let col = c - l.pad_left;
                assert(row * l.src_bpl + col < height * l.src_bpl) by (nonlinear_arith)
                    requires row < height, col < l.src_bpl;
                packed[row * l.src_bpl + col]
            };
            assert(v == f(r as int, c as int));
            out.push(v);
            assert(grid_row(l.dst_bpl as nat, f, r as int).take(c as int + 1)
                =~= grid_row(l.dst_bpl as nat, f, r as int).take(c as int).push(v));
            c = c + 1;
        }
        proof {
            lemma_grid_extend(r as nat, l.dst_bpl as nat, f);
            assert(grid_row(l.dst_bpl as nat, f, r as int).take(l.dst_bpl as int) =~= grid_row(l.dst_bpl as nat, f, r as int));
            assert(start_out + grid(r as nat, l.dst_bpl as nat, f) + grid_row(l.dst_bpl as nat, f, r as int)
                =~= start_out + grid(r as nat + 1, l.dst_bpl as nat, f));
        }
        r = r + 1;
    }
}

/// Encode one page for the M110 family. Fails when the page is not
/// monochrome. `float_width_dots` and `float_height_dots` are the page
/// size from the float `cupsPageSize` fields converted to dots, present
/// when that size is positive.
pub fn encode_m110_page(page: &Page, float_width_dots: Option<usize>, float_height_dots: Option<usize>) -> (res: Result<Vec<u8>, FilterError>)
    requires
        is_monochrome(page@) ==> m110_encodable(page@, float_width_dots, float_height_dots),
    ensures
        match res {
            Ok(out) => is_monochrome(page@) && out@ == m110_page_output(page@, float_width_dots, float_height_dots),
            Err(e) => !is_monochrome(page@) && e == FilterError::InvalidColourSpace,
        },
        // The image rows come out in order, upright, below the top padding.
        res matches Ok(out) ==> ({
            let l = spec_m110_layout(page@, float_width_dots, float_height_dots);
            forall|i: int, j: int| 0 <= i < page.height && 0 <= j < l.src_bpl ==>
                #[trigger] out@[m110_raster_start() + (l.top_pad + i) * l.dst_bpl + l.pad_left + j]
                    == spec_to_1bit(page.data@, page.width as nat)[i * l.src_bpl + j]
        }),
{
    if page.colour_space != 0 || page.num_colours != 1 {
        return Err(FilterError::InvalidColourSpace);
    }

    // Threshold to 1-bit: black (<= 127) -> bit 1 (print), white -> bit 0.
    let packed = to_1bit(page.data.as_slice(), page.width);
    let l = m110_layout(page, float_width_dots, float_height_dots);
    proof {
        lemma_m110_layout_centres(page@, float_width_dots, float_height_dots);
        let w = page.width as nat;
        let h = page.height as nat;
        let len = page.data@.len();
        assert(h <= len / w) by (nonlinear_arith)
            requires w > 0, len >= w * h;
        assert(h * row_bytes(w) <= (len / w) * row_bytes(w)) by (nonlinear_arith)
            requires h <= len / w;
    }

    let mut out: Vec<u8> = Vec::new();
    // Speed
    out.push(0x1b);
    out.push(0x4e);
    out.push(0x0d);
    out.push(0x05);
    // Density
    out.push(0x1b);
    out.push(0x4e);
    out.push(0x04);
    out.push(0x0a);
    // Media type
    out.push(0x1f);
    out.push(0x11);
    out.push(page.media_type as u8);

    // Raster: GS v 0
    out.push(0x1d);
    out.push(0x76);
    out.push(0x30);
    out.push(0x00);
    push_le16(&mut out, l.dst_bpl as u16);
    push_le16(&mut out, l.total_height as u16);
    push_m110_raster(&mut out, &packed, l, page.height as usize);

    // Footer
    out.push(0x1f);
    out.push(0xf0);
    out.push(0x05);
    out.push(0x00);
    out.push(0x1f);
    out.push(0xf0);
    out.push(0x03);
    out.push(0x00);
    assert(out@ =~= m110_page_output(page@, float_width_dots, float_height_dots));
    proof {
        lemma_m110_raster_placement(page@, float_width_dots, float_height_dots);
    }
    Ok(out)
}

// ---------------------------------------------------------------------------
// Checks before encoding
// ---------------------------------------------------------------------------

fn is_monochrome_page(page: &Page) -> (b: bool)
    ensures
        b == is_monochrome(page@),
{
    page.colour_space == 0 && page.num_colours == 1
}

/// Whether the page holds at least `width * height` pixels.
fn has_all_pixels(page: &Page) -> (b: bool)
    ensures
        b == (page.data@.len() >= page.width as nat * page.height as nat),
{
    let len = page.data.len();
    match (page.width as usize).checked_mul(page.height as usize) {
        Some(n) => len >= n,
        None => false,
    }
}

/// Whether `encode_d30_page` can take the page: it is refused for its
/// colours, or it can be encoded.
pub fn d30_accepts(page: &Page) -> (b: bool)
    ensures
        b == (is_monochrome(page@) ==> d30_encodable(page@)),
{
    !is_monochrome_page(page) || page.height > 0 && has_all_pixels(page)
        && (u16::MAX as usize).checked_mul(page.advance_distance as usize).is_some()
}

/// Whether `encode_m02_page` can take the page: it is refused for its
/// colours, or it can be encoded.
pub fn m02_accepts(page: &Page) -> (b: bool)
    ensures
        b == (is_monochrome(page@) ==> m02_encodable(page@)),
{
    if !is_monochrome_page(page) {
        return true;
    }
    if page.width == 0 {
        return false;
    }
    if page.width == M02_PRINT_WIDTH {
        let len = page.data.len();
        return match (M02_PRINT_WIDTH as usize).checked_mul(page.height as usize) {
            Some(n) => len >= n,
            None => false,
        };
    }
    let sw = page.width as usize;
    let sh = page.height as usize;
    let dw = M02_PRINT_WIDTH as usize;
    let scaled = match sh.checked_mul(dw) {
        Some(n) => n,
        None => return false,
    };
    let dh = scaled / sw;
    if dw.checked_mul(sw).is_none() || dw.checked_mul(dh).is_none() || dh.checked_mul(sh).is_none() {
        return false;
    }
    if dh == 0 {
        return true;
    }
    assert((dh - 1) * sh <= dh * sh) by (nonlinear_arith)
        requires dh >= 1;
    let last_row = (dh - 1) * sh / dh;
    assert((dw - 1) * sw <= dw * sw) by (nonlinear_arith)
        requires dw >= 1;
    let last_col = (dw - 1) * sw / dw;
    let len = page.data.len();
    match last_row.checked_mul(sw) {
        Some(n) => match n.checked_add(last_col) {
            Some(last) => last < len,
            None => false,
        },
        None => false,
    }
}

/// Whether `encode_m110_page` can take the page with these float sizes: it
/// is refused for its colours, or it can be encoded.
pub fn m110_accepts(page: &Page, float_width_dots: Option<usize>, float_height_dots: Option<usize>) -> (b: bool)
    ensures
        b == (is_monochrome(page@) ==> m110_encodable(page@, float_width_dots, float_height_dots)),
{
    if !is_monochrome_page(page) {
        return true;
    }
    if page.width == 0 || !has_all_pixels(page) {
        return false;
    }
    let res = page.hw_res_x as usize;
    if (page.page_size_w as usize).checked_mul(res).is_none() || (page.page_size_h as usize).checked_mul(res).is_none() {
        return false;
    }
    let width = page.width;
    let src_bpl = (width / 8 + if width % 8 == 0 { 0 } else { 1 }) as usize;
    if m110_stock_bytes(page, float_width_dots, src_bpl) < src_bpl {
        return false;
    }
    let page_height_dots = m110_stock_height_dots(page, float_height_dots);
    let top_pad = page_height_dots.saturating_sub(page.height as usize) / 2;
    (page.height as usize).checked_add(top_pad).is_some()
}

// ---------------------------------------------------------------------------
// Laws
// ---------------------------------------------------------------------------

/// M02 polarity is inverted: a dot of the scaled M02 image is printed
/// (its bit is 1) exactly when its grayscale value is 128 or more, where
/// the M110 and D30 print values of 127 or less.
pub proof fn lemma_m02_inverted_polarity(page: PageModel, r: int, col: int)
    requires
        0 <= col < 384,
        0 <= r,
        r * 384 + col < m02_scaled(page).0.len(),
    ensures
        ({
            let scaled = m02_scaled(page);
            let inverted = scaled.0.map_values(|p: u8| (255 - p) as u8);
            (packed_cell(inverted, 384)(r, col / 8) >> (7 - col % 8) as u8) & 1 == 1 <==> scaled.0[r * 384 + col] >= 128
        }),
{
    let scaled = m02_scaled(page);
    let inverted = scaled.0.map_values(|p: u8| (255 - p) as u8);
    lemma_packed_byte_bits(inverted, 384, r, col / 8, (col % 8) as u8);
    assert((col / 8) * 8 + col % 8 == col);
}

/// The blocks that carry `remaining` lines: an 8-byte `GS v 0` command per
/// block of at most 256 lines, and 48 bytes per line.
pub proof fn lemma_m02_blocks_len(packed: Seq<u8>, line: nat, remaining: nat)
    requires
        (line + remaining) * 48 <= packed.len(),
    ensures
        m02_blocks(packed, line, remaining).len() == 8 * ((remaining + 255) / 256) + 48 * remaining,
    decreases remaining,
{
    if remaining > 0 {
        let lines: nat = if remaining < 256 { remaining } else { 256 };
        assert((line + lines) * 48 <= (line + remaining) * 48) by (nonlinear_arith)
            requires lines <= remaining;
        assert(line * 48 <= (line + lines) * 48) by (nonlinear_arith);
        lemma_m02_blocks_len(packed, line + lines, (remaining - lines) as nat);
        assert((line + lines) * 48 - line * 48 == lines * 48) by (nonlinear_arith);
    }
}

/// Bytes of the M110 output before the raster: speed, density and media
/// type commands, then `GS v 0` with the row width and row count.
pub open spec fn m110_raster_start() -> int {
    19
}

/// The M110 raster carries the image upright: below `top_pad` blank rows,
/// output row `top_pad + i` holds image row `i`, its packed bytes in order
/// after `pad_left` zero bytes, and bit `7 - b` of byte `j` is 1 exactly
/// when pixel `j * 8 + b` of image row `i` exists and is black. Every other
/// raster byte (the top rows and the left and right padding) is 0, and the
/// output ends after the raster and the 8-byte footer.
pub proof fn lemma_m110_raster_placement(page: PageModel, float_width_dots: Option<usize>, float_height_dots: Option<usize>)
    requires
        m110_encodable(page, float_width_dots, float_height_dots),
    ensures
        ({
            let l = spec_m110_layout(page, float_width_dots, float_height_dots);
            let out = m110_page_output(page, float_width_dots, float_height_dots);
            let s = m110_raster_start();
            let w = page.width as int;
            &&& out.len() == s + l.total_height * l.dst_bpl + 8
            &&& forall|i: int, j: int| 0 <= i < page.height && 0 <= j < l.src_bpl ==>
                #[trigger] out[s + (l.top_pad + i) * l.dst_bpl + l.pad_left + j]
                    == spec_to_1bit(page.data, page.width as nat)[i * l.src_bpl + j]
            &&& forall|i: int, j: int, b: u8| 0 <= i < page.height && 0 <= j < l.src_bpl && b < 8 ==>
                (#[trigger] msb_bit(out[s + (l.top_pad + i) * l.dst_bpl + l.pad_left + j], b)
                    <==> (j * 8 + b < w && is_black(page.data[i * w + j * 8 + b])))
            &&& forall|r: int, c: int| 0 <= r < l.total_height && 0 <= c < l.dst_bpl
                && (r < l.top_pad || c < l.pad_left || c >= l.pad_left + l.src_bpl) ==>
                #[trigger] out[s + r * l.dst_bpl + c] == 0
        }),
{
    let l = spec_m110_layout(page, float_width_dots, float_height_dots);
    let out = m110_page_output(page, float_width_dots, float_height_dots);
    let s = m110_raster_start();
    let w = page.width as nat;
    let packed = spec_to_1bit(page.data, w);
    let f = m110_cell(packed, l);
    let g = grid(l.total_height as nat, l.dst_bpl as nat, f);
    lemma_m110_layout_centres(page, float_width_dots, float_height_dots);
    let head = seq![0x1bu8, 0x4eu8, 0x0du8, 0x05u8, 0x1bu8, 0x4eu8, 0x04u8, 0x0au8, 0x1fu8, 0x11u8, page.media_type as u8]
        + gs_v_0() + le16(l.dst_bpl as u16) + le16(l.total_height as u16);
    assert(head.len() == s);
    let foot = seq![0x1fu8, 0xf0u8, 0x05u8, 0x00u8, 0x1fu8, 0xf0u8, 0x03u8, 0x00u8];
    assert(out == head + g + foot);
    assert(g.len() == l.total_height * l.dst_bpl);
    let rows = page.data.len() / w;
    assert(page.height as nat <= rows) by (nonlinear_arith)
        requires w > 0, page.data.len() >= w * page.height as nat, rows == page.data.len() / w;
    assert forall|r: int, c: int| 0 <= r < l.total_height && 0 <= c < l.dst_bpl implies
        #[trigger] out[s + r * l.dst_bpl + c] == f(r, c) by {
        lemma_grid_index(l.total_height as nat, l.dst_bpl as nat, f, r, c);
        assert((head + g)[s + r * l.dst_bpl + c] == g[r * l.dst_bpl + c]);
    }
    assert forall|i: int, j: int| 0 <= i < page.height && 0 <= j < l.src_bpl implies
        #[trigger] out[s + (l.top_pad + i) * l.dst_bpl + l.pad_left + j] == packed[i * l.src_bpl + j] by {
        let r = l.top_pad + i;
        let c = l.pad_left + j;
        assert(s + r * l.dst_bpl + c == s + (l.top_pad + i) * l.dst_bpl + l.pad_left + j);
        assert(out[s + r * l.dst_bpl + c] == f(r, c));
        lemma_grid_index(rows, row_bytes(w), packed_cell(page.data, w), i, j);
    }
    assert forall|i: int, j: int, b: u8| 0 <= i < page.height && 0 <= j < l.src_bpl && b < 8 implies
        (#[trigger] msb_bit(out[s + (l.top_pad + i) * l.dst_bpl + l.pad_left + j], b)
            <==> (j * 8 + b < page.width && is_black(page.data[i * page.width + j * 8 + b]))) by {
        lemma_grid_index(rows, row_bytes(w), packed_cell(page.data, w), i, j);
        lemma_packed_byte_bits(page.data, w, i, j, b);
        assert(out[s + (l.top_pad + i) * l.dst_bpl + l.pad_left + j] == packed[i * l.src_bpl + j]);
    }
}

/// Where line `L` of the packed raster lands in the M02 blocks: each block
/// of up to 256 lines starts with its 8-byte `GS v 0` command, so byte `k`
/// of line `L` sits after `L / 256 + 1` commands and `L` earlier lines, in
/// line order, with 0x0a sent as 0x14. Block `q` starts with a command for
/// the lines it carries: 256, or what is left for the last block.
pub proof fn lemma_m02_blocks_lines(packed: Seq<u8>, line: nat, remaining: nat)
    requires
        (line + remaining) * 48 <= packed.len(),
    ensures
        forall|l: int, k: int| 0 <= l < remaining && 0 <= k < 48 ==>
            #[trigger] m02_blocks(packed, line, remaining)[8 * (l / 256 + 1) + l * 48 + k]
                == substitute_linefeed(packed[(line + l) * 48 + k]),
        forall|q: int| 0 <= q && q * 256 < remaining ==>
            #[trigger] m02_blocks(packed, line, remaining).subrange(q * (8 + 256 * 48), q * (8 + 256 * 48) + 8)
                == gs_v_0() + le16(48) + le16(((if remaining - q * 256 < 256 { remaining - q * 256 } else { 256 }) - 1) as u16),
    decreases remaining,
{
    if remaining > 0 {
        let lines: nat = if remaining < 256 { remaining } else { 256 };
        let rest_n = (remaining - lines) as nat;
        let rest = m02_blocks(packed, line + lines, rest_n);
        let data = packed.subrange((line * 48) as int, ((line + lines) * 48) as int).map_values(|b: u8| substitute_linefeed(b));
        let head = gs_v_0() + le16(48) + le16((lines - 1) as u16);
        let all = m02_blocks(packed, line, remaining);
        assert((line + lines) * 48 <= (line + remaining) * 48) by (nonlinear_arith)
            requires lines <= remaining;
        assert(line * 48 <= (line + lines) * 48) by (nonlinear_arith);
        assert((line + lines) * 48 - line * 48 == lines * 48) by (nonlinear_arith);
        assert(all == head + data + rest);
        assert(head.len() == 8);
        lemma_m02_blocks_lines(packed, line + lines, rest_n);
        assert forall|l: int, k: int| 0 <= l < remaining && 0 <= k < 48 implies
            #[trigger] all[8 * (l / 256 + 1) + l * 48 + k] == substitute_linefeed(packed[(line + l) * 48 + k]) by {
            if l < lines {
                assert(l / 256 == 0);
                assert(l * 48 + k < lines * 48) by (nonlinear_arith)
                    requires l < lines, k < 48;
                assert(all[8 + l * 48 + k] == data[l * 48 + k]);
                assert((line + l) * 48 + k == line * 48 + (l * 48 + k)) by (nonlinear_arith);
            } else {
                let l2 = l - 256;
                assert(lines == 256);
                assert(l / 256 == l2 / 256 + 1);
                assert(8 * (l / 256 + 1) + l * 48 + k == 8 + 256 * 48 + (8 * (l2 / 256 + 1) + l2 * 48 + k));
                assert(rest[8 * (l2 / 256 + 1) + l2 * 48 + k] == substitute_linefeed(packed[(line + 256 + l2) * 48 + k]));
                assert(0 <= 8 * (l2 / 256 + 1) + l2 * 48 + k < rest.len()) by {
                    lemma_m02_blocks_len(packed, line + lines, rest_n);
                    assert(8 * (l2 / 256 + 1) <= 8 * ((rest_n + 255) / 256)) by (nonlinear_arith)
                        requires 0 <= l2 < rest_n;
                    assert(l2 * 48 + k < 48 * rest_n) by (nonlinear_arith)
                        requires 0 <= l2 < rest_n, 0 <= k < 48;
                }
            }
        }
        assert forall|q: int| 0 <= q && q * 256 < remaining implies
            #[trigger] all.subrange(q * (8 + 256 * 48), q * (8 + 256 * 48) + 8)
                == gs_v_0() + le16(48) + le16(((if remaining - q * 256 < 256 { remaining - q * 256 } else { 256 }) - 1) as u16) by {
            if q == 0 {
                assert(all.subrange(0, 8) =~= head);
            } else {
                let q2 = q - 1;
                assert(lines == 256);
                assert(q2 * 256 < rest_n);
                let start = q * (8 + 256 * 48);
                assert(start == 8 + 256 * 48 + q2 * (8 + 256 * 48));
                lemma_m02_blocks_len(packed, line + lines, rest_n);
                assert(q2 * (8 + 256 * 48) + 8 <= rest.len()) by (nonlinear_arith)
                    requires q2 * 256 < rest_n, q2 >= 0, rest.len() == 8 * ((rest_n + 255) / 256) + 48 * rest_n;
                assert(all.subrange(start, start + 8) =~= rest.subrange(q2 * (8 + 256 * 48), q2 * (8 + 256 * 48) + 8));
                assert(remaining - q * 256 == rest_n - q2 * 256);
            }
        }
    }
}

/// The D30 raster is the page turned a quarter turn counter-clockwise:
/// after the 14 command bytes, bit `7 - b` of byte `j` of raster row `r`
/// is 1 exactly when the page pixel at row `j * 8 + b`, column
/// `width - 1 - r` exists and is black. So the page's right-hand column
/// prints first and its top row runs along each printed line.
pub proof fn lemma_d30_raster_pixels(page: PageModel)
    requires
        d30_encodable(page),
    ensures
        forall|r: int, j: int, b: u8|
            0 <= r < page.width && 0 <= j < row_bytes(page.height as nat) && b < 8 ==>
            (#[trigger] msb_bit(d30_page_output(page)[14 + r * row_bytes(page.height as nat) + j], b)
                <==> (j * 8 + b < page.height
                    && is_black(page.data[(j * 8 + b) * page.width + (page.width - 1 - r)]))),
{
    let w = page.width as nat;
    let h = page.height as nat;
    let rot = spec_rotate(page.data, w, h);
    let packed = spec_to_1bit(rot, h);
    let rb = row_bytes(h);
    let bpl = d30_bytes_per_line(page);
    let head = seq![0x1fu8, 0x11u8, 0x24u8, 0x00u8, 0x1bu8, 0x40u8] + gs_v_0() + le16(bpl) + le16(page.width as u16);
    let out = d30_page_output(page);
    assert(out == head + packed + zeros(bpl as nat * page.advance_distance as nat));
    assert(head.len() == 14);
    assert(rot.len() / h == w) by (nonlinear_arith)
        requires rot.len() == w * h, h > 0;
    assert forall|r: int, j: int, b: u8|
        0 <= r < page.width && 0 <= j < rb && b < 8 implies
        (#[trigger] msb_bit(out[14 + r * rb + j], b)
            <==> (j * 8 + b < page.height
                && is_black(page.data[(j * 8 + b) * page.width + (page.width - 1 - r)]))) by {
        lemma_grid_index(w, rb, packed_cell(rot, h), r, j);
        assert(out[14 + r * rb + j] == packed[r * rb + j]);
        lemma_packed_byte_bits(rot, h, r, j, b);
        if j * 8 + b < h {
            lemma_grid_index(w, h, rotated_cell(page.data, w), r, j * 8 + b);
        }
    }
}

} // verus!
