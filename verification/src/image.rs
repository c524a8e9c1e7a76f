//! Grayscale image processing: 1-bit packing, nearest-neighbour resizing
//! and quarter-turn rotation. Images are row-major, one byte per pixel.

use vstd::prelude::*;
use crate::grid::{grid, grid_row, lemma_grid_extend, lemma_grid_index, lemma_cell_of_index};
use vstd::arithmetic::div_mod::{lemma_div_is_ordered, lemma_fundamental_div_mod_converse};
use vstd::arithmetic::mul::{lemma_mul_inequality, lemma_mul_strict_inequality};

verus! {

// ---------------------------------------------------------------------------
// 1-bit packing
// ---------------------------------------------------------------------------

/// Number of packed bytes that hold one row of `width` pixels.
pub open spec fn row_bytes(width: nat) -> nat {
    (width + 7) / 8
}

/// A grayscale value prints as a black dot when it is at most 127.
pub open spec fn is_black(p: u8) -> bool {
    p <= 127
}

/// Whether the pixel that bit `b` of packed byte `j` of row `r` stands for
/// exists and is black.
pub open spec fn dot_is_set(data: Seq<u8>, width: nat, r: int, j: int, b: int) -> bool {
    j * 8 + b < width && is_black(data[r * width + j * 8 + b])
}

/// Packed byte `j` of row `r` with only its first `n` bits (from the most
/// significant bit) filled in.
pub open spec fn packed_bits(data: Seq<u8>, width: nat, r: int, j: int, n: nat) -> u8
    decreases n,
{
    if n == 0 {
        0
    } else {
        let prev = packed_bits(data, width, r, j, (n - 1) as nat);
        if dot_is_set(data, width, r, j, n - 1) {
            prev | (1u8 << ((7 - (n - 1)) as u8))
        } else {
            prev
        }
    }
}

/// The cell function of the packed raster: byte `j` of row `r`.
pub open spec fn packed_cell(data: Seq<u8>, width: nat) -> spec_fn(int, int) -> u8 {
    |r: int, j: int| packed_bits(data, width, r, j, 8)
}

/// The packed raster of a grayscale image `width` pixels wide: one row of
/// `row_bytes(width)` bytes per full image row, 8 pixels per byte, most
/// significant bit first, 1 for a black pixel, the unused bits of the last
/// byte of a row 0.
pub open spec fn spec_to_1bit(data: Seq<u8>, width: nat) -> Seq<u8> {
    grid(data.len() / width, row_bytes(width), packed_cell(data, width))
}

proof fn lemma_or_bit(x: u8, b: u8, k: u8)
    requires
        b < 8,
        k < 8,
    ensures
        ((x | (1u8 << (7 - b) as u8)) >> (7 - k) as u8) & 1 == (if k == b { 1u8 } else { (x >> (7 - k) as u8) & 1 }),
{
    assert(((x | (1u8 << (7 - b) as u8)) >> (7 - k) as u8) & 1 == (if k == b { 1u8 } else { (x >> (7 - k) as u8) & 1 })) by (bit_vector)
        requires b < 8, k < 8;
}

proof fn lemma_packed_bits_bits(data: Seq<u8>, width: nat, r: int, j: int, n: nat)
    requires
        n <= 8,
    ensures
        forall|k: u8| k < 8 ==> ((#[trigger] (packed_bits(data, width, r, j, n) >> (7 - k) as u8)) & 1 == 1
            <==> (k < n && dot_is_set(data, width, r, j, k as int))),
    decreases n,
{
    if n == 0 {
        assert forall|k: u8| k < 8 implies ((#[trigger] (packed_bits(data, width, r, j, n) >> (7 - k) as u8)) & 1 != 1) by {
            assert((0u8 >> (7 - k) as u8) & 1 == 0) by (bit_vector)
                requires k < 8;
        }
    } else {
        lemma_packed_bits_bits(data, width, r, j, (n - 1) as nat);
        let prev = packed_bits(data, width, r, j, (n - 1) as nat);
        assert forall|k: u8| k < 8 implies ((#[trigger] (packed_bits(data, width, r, j, n) >> (7 - k) as u8)) & 1 == 1
            <==> (k < n && dot_is_set(data, width, r, j, k as int))) by {
            if dot_is_set(data, width, r, j, n - 1) {
                lemma_or_bit(prev, (n - 1) as u8, k);
            }
            assert((prev >> (7 - k) as u8) & 1 == 1 <==> (k < n - 1 && dot_is_set(data, width, r, j, k as int)));
        }
    }
}

/// Bit `7 - b` of packed byte `j` of row `r` is 1 exactly when pixel
/// `j * 8 + b` of that row exists and is black (grayscale value <= 127).
pub proof fn lemma_packed_byte_bits(data: Seq<u8>, width: nat, r: int, j: int, b: u8)
    requires
        b < 8,
    ensures
        (packed_cell(data, width)(r, j) >> (7 - b) as u8) & 1 == 1 <==> dot_is_set(data, width, r, j, b as int),
{
    lemma_packed_bits_bits(data, width, r, j, 8);
    assert(((packed_bits(data, width, r, j, 8) >> (7 - b) as u8)) & 1 == 1 <==> (b < 8 && dot_is_set(data, width, r, j, b as int)));
}

/// Convert a grayscale image to packed 1-bit data.
///
/// Pixels are packed 8 per byte, MSB first. A pixel value <= 127 produces a
/// 1-bit (black); a value > 127 produces a 0-bit (white). Each row is padded
/// to a byte boundary; the number of bytes per row is `(width + 7) / 8`.
/// Only the whole rows of `data` are packed.
pub fn to_1bit(data: &[u8], width: u32) -> (out: Vec<u8>)
    requires
        width > 0,
    ensures
        out@ == spec_to_1bit(data@, width as nat),
        out@.len() == (data@.len() / (width as nat)) * row_bytes(width as nat),
        // Byte `j` of packed row `r`, most significant bit first: bit `7 - b`
        // is 1 exactly when pixel `j * 8 + b` of image row `r` is black.
        forall|r: int, j: int, b: u8|
            0 <= r < data@.len() / (width as nat) && 0 <= j < (width + 7) / 8 && b < 8 ==>
            (#[trigger] msb_bit(out@[r * ((width + 7) / 8) + j], b)
                <==> (j * 8 + b < width && data@[r * width + j * 8 + b] <= 127)),
{
    let w = width as usize;
    let bytes_per_row: usize = w / 8 + if w % 8 == 0 { 0 } else { 1 };
    let height = data.len() / w;
    let ghost f = packed_cell(data@, w as nat);
    assert(bytes_per_row * height <= data.len()) by (nonlinear_arith)
        requires
            w > 0,
            bytes_per_row == w / 8 + if w % 8 == 0 { 0int } else { 1int },
            height == data.len() / w,
    {
        assert(bytes_per_row <= w);
        assert(height * w <= data.len());
        assert(bytes_per_row * height <= w * height);
    }
    assert(bytes_per_row == row_bytes(w as nat));
    let mut out: Vec<u8> = Vec::with_capacity(bytes_per_row * height);
    let mut row: usize = 0;
    while row < height
        invariant
            w == width as usize,
            w > 0,
            height == data.len() / w,
            bytes_per_row == row_bytes(w as nat),
            bytes_per_row * height <= data.len(),
            f == packed_cell(data@, w as nat),
            row <= height,
            out@ == grid(row as nat, bytes_per_row as nat, f),
        decreases height - row,
    {
        assert(row * w + w <= data.len()) by (nonlinear_arith)
            requires row < height, height == data.len() / w, w > 0;
        let row_start = row * w;
        let mut byte_idx: usize = 0;
        while byte_idx < bytes_per_row
            invariant
                w == width as usize,
                w > 0,
                bytes_per_row == row_bytes(w as nat),
                f == packed_cell(data@, w as nat),
                row < height,
                row_start == row * w,
                row_start + w <= data.len(),
                byte_idx <= bytes_per_row,
                out@ == grid(row as nat, bytes_per_row as nat, f) + grid_row(bytes_per_row as nat, f, row as int).take(byte_idx as int),
            decreases bytes_per_row - byte_idx,
        {
            assert(byte_idx * 8 < w) by (nonlinear_arith)
                requires byte_idx < bytes_per_row, bytes_per_row == (w + 7) / 8;
            let base = byte_idx * 8;
            let mut byte: u8 = 0;
            let mut bit: u8 = 0;
            while bit < 8
                invariant
                    w == width as usize,
                    base == byte_idx * 8,
                    base < w,
                    row_start == row * w,
                    row_start + w <= data.len(),
                    bit <= 8,
                    byte == packed_bits(data@, w as nat, row as int, byte_idx as int, bit as nat),
                decreases 8 - bit,
            {
                let set = (bit as usize) < w - base && data[row_start + base + bit as usize] <= 127;
                assert(set == dot_is_set(data@, w as nat, row as int, byte_idx as int, bit as int));
                if set {
                    byte = byte | (1u8 << (7 - bit));
                }
                bit = bit + 1;
            }
            out.push(byte);
            assert(grid_row(bytes_per_row as nat, f, row as int).take(byte_idx as int + 1)
                =~= grid_row(bytes_per_row as nat, f, row as int).take(byte_idx as int).push(byte));
            byte_idx = byte_idx + 1;
        }
        proof {
            lemma_grid_extend(row as nat, bytes_per_row as nat, f);
            assert(grid_row(bytes_per_row as nat, f, row as int).take(bytes_per_row as int)
                =~= grid_row(bytes_per_row as nat, f, row as int));
        }
        row = row + 1;
    }
    proof {
        let rows = data@.len() / (w as nat);
        assert forall|r: int, j: int, b: u8|
            0 <= r < rows && 0 <= j < (width + 7) / 8 && b < 8 implies
            (#[trigger] msb_bit(out@[r * ((width + 7) / 8) + j], b)
                <==> (j * 8 + b < width && data@[r * width + j * 8 + b] <= 127)) by {
            lemma_grid_index(rows, bytes_per_row as nat, f, r, j);
            lemma_packed_byte_bits(data@, w as nat, r, j, b);
        }
    }
    out
}

// ---------------------------------------------------------------------------
// Nearest-neighbour resize
// ---------------------------------------------------------------------------

/// Height of an image `src_width` x `src_height` scaled to `dst_width`
/// pixels wide, keeping its proportions (rounded down).
pub open spec fn resized_height(src_width: nat, src_height: nat, dst_width: nat) -> nat {
    (src_height * dst_width) / src_width
}

/// Pixel `(oy, ox)` of the resized image: the source pixel that the
/// nearest-neighbour mapping picks, row `oy * sh / dh`, column `ox * sw / dw`.
pub open spec fn resized_cell(data: Seq<u8>, sw: nat, sh: nat, dw: nat, dh: nat) -> spec_fn(int, int) -> u8 {
    |oy: int, ox: int| data[(oy * sh / (dh as int)) * sw + ox * sw / (dw as int)]
}

/// The resized image, `dst_width` pixels wide and `resized_height` rows high.
pub open spec fn spec_resize(data: Seq<u8>, sw: nat, sh: nat, dw: nat) -> Seq<u8> {
    grid(resized_height(sw, sh, dw), dw, resized_cell(data, sw, sh, dw, resized_height(sw, sh, dw)))
}

/// The sizes that `resize_nearest` multiplies fit in a `usize`.
pub open spec fn resize_fits(sw: nat, sh: nat, dw: nat) -> bool {
    &&& sh * dw <= usize::MAX
    &&& dw * sw <= usize::MAX
    &&& dw * resized_height(sw, sh, dw) <= usize::MAX
    &&& resized_height(sw, sh, dw) * sh <= usize::MAX
}

/// The pixels that `resize_nearest` reads lie within `len` bytes: the last
/// one it reads is at row `(dh - 1) * sh / dh`, column `(dw - 1) * sw / dw`
/// (none is read when the result has no rows).
pub open spec fn resize_reads_within(len: nat, sw: nat, sh: nat, dw: nat) -> bool {
    let dh = resized_height(sw, sh, dw);
    dh == 0 || ((dh - 1) * sh / (dh as int)) * sw + (dw - 1) * sw / (dw as int) < len
}

/// Resize a grayscale image to `dst_width` pixels wide using
/// nearest-neighbour interpolation. The height is scaled proportionally.
///
/// Returns `(new_data, dst_width, dst_height)`.
pub fn resize_nearest(data: &[u8], src_width: u32, src_height: u32, dst_width: u32) -> (res: (Vec<u8>, u32, u32))
    requires
        src_width > 0,
        resize_reads_within(data@.len(), src_width as nat, src_height as nat, dst_width as nat),
        resize_fits(src_width as nat, src_height as nat, dst_width as nat),
    ensures
        res.0@ == spec_resize(data@, src_width as nat, src_height as nat, dst_width as nat),
        res.0@.len() == dst_width * resized_height(src_width as nat, src_height as nat, dst_width as nat),
        // Output pixel (oy, ox) is source pixel (oy * sh / dh, ox * sw / dw).
        forall|oy: int, ox: int|
            0 <= oy < resized_height(src_width as nat, src_height as nat, dst_width as nat) && 0 <= ox < dst_width ==>
            #[trigger] res.0@[oy * dst_width + ox] == data@[
                (oy * src_height / (resized_height(src_width as nat, src_height as nat, dst_width as nat) as int)) * src_width
                + ox * src_width / (dst_width as int)],
        res.1 == dst_width,
        res.2 == resized_height(src_width as nat, src_height as nat, dst_width as nat) as u32,
{
    let sw = src_width as usize;
    let sh = src_height as usize;
    let dw = dst_width as usize;
    let dh = (sh * dw) / sw;
    let len = data.len();
    let ghost f = resized_cell(data@, sw as nat, sh as nat, dw as nat, dh as nat);

    let mut out: Vec<u8> = Vec::with_capacity(dw * dh);
    let mut oy: usize = 0;
    while oy < dh
        invariant
            sw == src_width as usize,
            sh == src_height as usize,
            dw == dst_width as usize,
            sw > 0,
            dh == resized_height(sw as nat, sh as nat, dw as nat),
            resize_reads_within(data@.len(), sw as nat, sh as nat, dw as nat),
            len == data@.len(),
            resize_fits(sw as nat, sh as nat, dw as nat),
            f == resized_cell(data@, sw as nat, sh as nat, dw as nat, dh as nat),
            oy <= dh,
            out@ == grid(oy as nat, dw as nat, f),
        decreases dh - oy,
    {
        assert(sh > 0) by (nonlinear_arith)
            requires dh == (sh * dw) / (sw as int), oy < dh, sw > 0;
        assert(oy * sh < dh * sh) by (nonlinear_arith)
            requires oy < dh, sh > 0;
        let sy = oy * sh / dh;
        assert(dw > 0) by (nonlinear_arith)
            requires dh == (sh * dw) / (sw as int), oy < dh, sw > 0;
        assert(sy <= (dh - 1) * sh / (dh as int)) by {
            lemma_mul_inequality(oy as int, dh - 1, sh as int);
            lemma_div_is_ordered(oy * sh, (dh - 1) * sh, dh as int);
        }
        let mut ox: usize = 0;
        while ox < dw
            invariant
                sw == src_width as usize,
                sh == src_height as usize,
                dw == dst_width as usize,
                sw > 0,
                dh == resized_height(sw as nat, sh as nat, dw as nat),
                resize_reads_within(data@.len(), sw as nat, sh as nat, dw as nat),
                len == data@.len(),
                resize_fits(sw as nat, sh as nat, dw as nat),
                f == resized_cell(data@, sw as nat, sh as nat, dw as nat, dh as nat),
                oy < dh,
                sy == oy * sh / (dh as int),
                sy <= (dh - 1) * sh / (dh as int),
                dw > 0,
                ox <= dw,
                out@ == grid(oy as nat, dw as nat, f) + grid_row(dw as nat, f, oy as int).take(ox as int),
            decreases dw - ox,
        {
            assert(ox * sw < dw * sw) by (nonlinear_arith)
                requires ox < dw, sw > 0;
            let sx = ox * sw / dw;
            assert(sx < sw) by (nonlinear_arith)
                requires sx == ox * sw / (dw as int), ox < dw, sw > 0;
            assert(sx <= (dw - 1) * sw / (dw as int)) by {
                lemma_mul_inequality(ox as int, dw - 1, sw as int);
                lemma_div_is_ordered(ox * sw, (dw - 1) * sw, dw as int);
            }
            assert(sy * sw <= ((dh - 1) * sh / (dh as int)) * sw) by {
                lemma_mul_inequality(sy as int, (dh - 1) * sh / (dh as int), sw as int);
            }
            out.push(data[sy * sw + sx]);
            assert(grid_row(dw as nat, f, oy as int).take(ox as int + 1)
                =~= grid_row(dw as nat, f, oy as int).take(ox as int).push(data@[sy * sw + sx]));
            ox = ox + 1;
        }
        proof {
            lemma_grid_extend(oy as nat, dw as nat, f);
            assert(grid_row(dw as nat, f, oy as int).take(dw as int) =~= grid_row(dw as nat, f, oy as int));
        }
        oy = oy + 1;
    }
    proof {
        assert(dh * dw == dw * dh) by (nonlinear_arith);
        assert forall|oy: int, ox: int| 0 <= oy < dh && 0 <= ox < dw implies
            #[trigger] out@[oy * dw + ox] == data@[(oy * sh / (dh as int)) * sw + ox * sw / (dw as int)] by {
            lemma_grid_index(dh as nat, dw as nat, f, oy, ox);
        }
    }
    (out, dst_width, #[verifier::truncate] (dh as u32))
}

// ---------------------------------------------------------------------------
// Rotation
// ---------------------------------------------------------------------------

/// Pixel `(r, c)` of an image `width` pixels wide turned a quarter turn
/// counter-clockwise: the source pixel at row `c`, column `width - 1 - r`.
pub open spec fn rotated_cell(data: Seq<u8>, width: nat) -> spec_fn(int, int) -> u8 {
    |r: int, c: int| data[c * width + (width - 1 - r)]
}

/// The `width` x `height` image turned a quarter turn counter-clockwise:
/// `height` pixels wide and `width` rows high.
pub open spec fn spec_rotate(data: Seq<u8>, width: nat, height: nat) -> Seq<u8> {
    grid(width, height, rotated_cell(data, width))
}

/// Rotate a grayscale image 90 degrees counter-clockwise.
///
/// Input dimensions are `width` x `height` (row-major). The output has
/// dimensions `height` x `width` (i.e. the old height becomes the new width).
///
/// Returns `(new_data, new_width, new_height)`.
pub fn rotate_90_ccw(data: &[u8], width: u32, height: u32) -> (res: (Vec<u8>, u32, u32))
    requires
        data@.len() >= width as nat * height as nat,
    ensures
        res.0@ == spec_rotate(data@, width as nat, height as nat),
        res.0@.len() == width * height,
        // Output row `r`, column `c` is input row `c`, column `width - 1 - r`:
        // the input's right-hand column becomes the top row.
        forall|r: int, c: int| 0 <= r < width && 0 <= c < height ==>
            #[trigger] res.0@[r * height + c] == data@[c * width + (width - 1 - r)],
        res.1 == height,
        res.2 == width,
{
    let w = width as usize;
    let h = height as usize;
    let new_w = h;
    let new_h = w;
    let len = data.len();
    let ghost f = rotated_cell(data@, w as nat);
    assert(new_w * new_h <= data.len()) by (nonlinear_arith)
        requires new_w == h, new_h == w, data@.len() >= w * h;
    let mut out: Vec<u8> = Vec::with_capacity(new_w * new_h);
    let mut out_row: usize = 0;
    while out_row < new_h
        invariant
            w == width as usize,
            h == height as usize,
            new_w == h,
            new_h == w,
            data@.len() >= w * h,
            len == data@.len(),
            f == rotated_cell(data@, w as nat),
            out_row <= new_h,
            out@ == grid(out_row as nat, new_w as nat, f),
        decreases new_h - out_row,
    {
        let mut out_col: usize = 0;
        while out_col < new_w
            invariant
                w == width as usize,
                h == height as usize,
                new_w == h,
                new_h == w,
                data@.len() >= w * h,
                len == data@.len(),
                f == rotated_cell(data@, w as nat),
                out_row < new_h,
                out_col <= new_w,
                out@ == grid(out_row as nat, new_w as nat, f) + grid_row(new_w as nat, f, out_row as int).take(out_col as int),
            decreases new_w - out_col,
        {
            assert(out_col * w + (w - 1 - out_row) < w * h) by (nonlinear_arith)
                requires out_col < h, out_row < w;
            let v = data[out_col * w + (w - 1 - out_row)];
            out.push(v);
            assert(grid_row(new_w as nat, f, out_row as int).take(out_col as int + 1)
                =~= grid_row(new_w as nat, f, out_row as int).take(out_col as int).push(v));
            out_col = out_col + 1;
        }
        proof {
            lemma_grid_extend(out_row as nat, new_w as nat, f);
            assert(grid_row(new_w as nat, f, out_row as int).take(new_w as int) =~= grid_row(new_w as nat, f, out_row as int));
        }
        out_row = out_row + 1;
    }
    proof {
        assert(w * h == h * w) by (nonlinear_arith);
        assert forall|r: int, c: int| 0 <= r < width && 0 <= c < height implies
            #[trigger] out@[r * height + c] == data@[c * width + (width - 1 - r)] by {
            lemma_grid_index(new_h as nat, new_w as nat, f, r, c);
        }
    }
    (out, new_w as u32, new_h as u32)
}

// ---------------------------------------------------------------------------
// Laws
// ---------------------------------------------------------------------------

/// Two quarter turns are a half turn: the pixels of a `width` x `height`
/// image come out in reverse order.
pub proof fn lemma_rotate_twice_reverses(data: Seq<u8>, width: nat, height: nat)
    requires
        data.len() == width * height,
    ensures
        spec_rotate(spec_rotate(data, width, height), height, width) == data.reverse(),
{
    let rot1 = spec_rotate(data, width, height);
    let rot2 = spec_rotate(rot1, height, width);
    assert(height * width == width * height) by (nonlinear_arith);
    assert forall|i: int| 0 <= i < rot2.len() implies rot2[i] == data.reverse()[i] by {
        lemma_cell_of_index(height, width, i);
        let r = i / (width as int);
        let c = i % (width as int);
        lemma_grid_index(width, height, rotated_cell(data, width), c, height - 1 - r);
        assert((height - 1 - r) * width + (width - 1 - c) == width * height - 1 - i) by (nonlinear_arith)
            requires i == r * width + c;
    }
    assert(rot2 =~= data.reverse());
}

/// Four quarter turns give the image back.
pub proof fn lemma_rotate_four_times(data: Seq<u8>, width: nat, height: nat)
    requires
        data.len() == width * height,
    ensures
        spec_rotate(spec_rotate(spec_rotate(spec_rotate(data, width, height), height, width), width, height), height, width) == data,
{
    lemma_rotate_twice_reverses(data, width, height);
    lemma_rotate_twice_reverses(data.reverse(), width, height);
    assert(data.reverse().reverse() =~= data);
}

/// Resizing an image to its own width gives its pixels back unchanged.
pub proof fn lemma_resize_same_width(data: Seq<u8>, width: nat, height: nat)
    requires
        width > 0,
        data.len() >= width * height,
    ensures
        resized_height(width, height, width) == height,
        spec_resize(data, width, height, width) == data.subrange(0, (width * height) as int),
{
    assert((height * width) / width == height) by (nonlinear_arith)
        requires width > 0;
    let out = spec_resize(data, width, height, width);
    let expected = data.subrange(0, (width * height) as int);
    assert(height * width == width * height) by (nonlinear_arith);
    assert forall|i: int| 0 <= i < out.len() implies out[i] == expected[i] by {
        lemma_cell_of_index(height, width, i);
        let r = i / (width as int);
        let c = i % (width as int);
        assert(r * height / (height as int) == r) by (nonlinear_arith)
            requires height > 0;
        assert(c * width / (width as int) == c) by (nonlinear_arith)
            requires width > 0;
    }
    assert(out =~= expected);
}

// ---------------------------------------------------------------------------
// Laws of the packing
// ---------------------------------------------------------------------------

/// Bit `7 - b` of `x`: the bit of the `b`-th pixel of a packed byte.
pub open spec fn msb_bit(x: u8, b: u8) -> bool {
    (x >> (7 - b) as u8) & 1 == 1
}

proof fn lemma_u8_eq_by_bits(x: u8, y: u8)
    requires
        forall|b: u8| b < 8 ==> (msb_bit(x, b) <==> #[trigger] msb_bit(y, b)),
    ensures
        x == y,
{
    assert(msb_bit(x, 0) <==> msb_bit(y, 0));
    assert(msb_bit(x, 1) <==> msb_bit(y, 1));
    assert(msb_bit(x, 2) <==> msb_bit(y, 2));
    assert(msb_bit(x, 3) <==> msb_bit(y, 3));
    assert(msb_bit(x, 4) <==> msb_bit(y, 4));
    assert(msb_bit(x, 5) <==> msb_bit(y, 5));
    assert(msb_bit(x, 6) <==> msb_bit(y, 6));
    assert(msb_bit(x, 7) <==> msb_bit(y, 7));
    assert(x == y) by (bit_vector)
        requires
            ((x >> 7u8) & 1 == 1) <==> ((y >> 7u8) & 1 == 1),
            ((x >> 6u8) & 1 == 1) <==> ((y >> 6u8) & 1 == 1),
            ((x >> 5u8) & 1 == 1) <==> ((y >> 5u8) & 1 == 1),
            ((x >> 4u8) & 1 == 1) <==> ((y >> 4u8) & 1 == 1),
            ((x >> 3u8) & 1 == 1) <==> ((y >> 3u8) & 1 == 1),
            ((x >> 2u8) & 1 == 1) <==> ((y >> 2u8) & 1 == 1),
            ((x >> 1u8) & 1 == 1) <==> ((y >> 1u8) & 1 == 1),
            ((x >> 0u8) & 1 == 1) <==> ((y >> 0u8) & 1 == 1);
}

proof fn lemma_u8_zero_by_bits(x: u8)
    requires
        forall|b: u8| b < 8 ==> !#[trigger] msb_bit(x, b),
    ensures
        x == 0,
{
    assert(!msb_bit(x, 0) && !msb_bit(x, 1) && !msb_bit(x, 2) && !msb_bit(x, 3));
    assert(!msb_bit(x, 4) && !msb_bit(x, 5) && !msb_bit(x, 6) && !msb_bit(x, 7));
    assert(x == 0) by (bit_vector)
        requires
            (x >> 7u8) & 1 != 1, (x >> 6u8) & 1 != 1, (x >> 5u8) & 1 != 1, (x >> 4u8) & 1 != 1,
            (x >> 3u8) & 1 != 1, (x >> 2u8) & 1 != 1, (x >> 1u8) & 1 != 1, (x >> 0u8) & 1 != 1;
}

proof fn lemma_not_and_bit(x: u8, m: u8, b: u8)
    requires
        b < 8,
    ensures
        msb_bit(!x & m, b) <==> (!msb_bit(x, b) && msb_bit(m, b)),
        msb_bit(x & !m, b) <==> (msb_bit(x, b) && !msb_bit(m, b)),
{
    assert(((!x & m) >> (7 - b) as u8) & 1 == 1 <==> ((x >> (7 - b) as u8) & 1 != 1 && (m >> (7 - b) as u8) & 1 == 1)) by (bit_vector)
        requires b < 8;
    assert(((x & !m) >> (7 - b) as u8) & 1 == 1 <==> ((x >> (7 - b) as u8) & 1 == 1 && (m >> (7 - b) as u8) & 1 != 1)) by (bit_vector)
        requires b < 8;
}

/// The bits of byte `j` of a packed row `width` pixels wide that stand for
/// pixels: all of them but in the last byte of a row, where only the first
/// `width - 8 * j` are.
pub open spec fn row_mask(width: nat, j: int) -> u8 {
    if j * 8 + 8 <= width {
        0xFF
    } else if j * 8 >= width {
        0
    } else {
        0xFFu8 << (8 - (width - j * 8)) as u8
    }
}

proof fn lemma_row_mask_bits(width: nat, j: int, b: u8)
    requires
        b < 8,
    ensures
        msb_bit(row_mask(width, j), b) <==> j * 8 + b < width,
{
    if j * 8 + 8 <= width {
        assert((0xFFu8 >> (7 - b) as u8) & 1 == 1) by (bit_vector)
            requires b < 8;
    } else if j * 8 >= width {
        assert((0u8 >> (7 - b) as u8) & 1 != 1) by (bit_vector)
            requires b < 8;
    } else {
        let n = (width - j * 8) as u8;
        assert(((0xFFu8 << (8 - n) as u8) >> (7 - b) as u8) & 1 == 1 <==> b < n) by (bit_vector)
            requires b < 8, 0 < n < 8;
    }
}

/// The bytes of two packed rows are equal when the dots they stand for are.
proof fn lemma_packed_bits_same_dots(d1: Seq<u8>, r1: int, d2: Seq<u8>, r2: int, width: nat, j: int, n: nat)
    requires
        n <= 8,
        forall|b: int| 0 <= b < n ==> dot_is_set(d1, width, r1, j, b) == #[trigger] dot_is_set(d2, width, r2, j, b),
    ensures
        packed_bits(d1, width, r1, j, n) == packed_bits(d2, width, r2, j, n),
    decreases n,
{
    if n > 0 {
        lemma_packed_bits_same_dots(d1, r1, d2, r2, width, j, (n - 1) as nat);
        assert(dot_is_set(d1, width, r1, j, n - 1) == dot_is_set(d2, width, r2, j, n - 1));
    }
}

/// Packing the inverted image (each value `p` turned into `255 - p`) gives
/// the complement of the packing, restricted to the bits that stand for
/// pixels.
pub proof fn lemma_to_1bit_inverted(data: Seq<u8>, width: nat)
    requires
        width > 0,
    ensures
        ({
            let inv = data.map_values(|p: u8| (255 - p) as u8);
            let a = spec_to_1bit(inv, width);
            let b = spec_to_1bit(data, width);
            &&& a.len() == b.len()
            &&& forall|k: int| 0 <= k < a.len() ==> #[trigger] a[k] == !b[k] & row_mask(width, k % (row_bytes(width) as int))
        }),
{
    let inv = data.map_values(|p: u8| (255 - p) as u8);
    let a = spec_to_1bit(inv, width);
    let bb = spec_to_1bit(data, width);
    let bpr = row_bytes(width);
    let rows = data.len() / width;
    assert forall|k: int| 0 <= k < a.len() implies #[trigger] a[k] == !bb[k] & row_mask(width, k % (bpr as int)) by {
        lemma_cell_of_index(rows, bpr, k);
        let r = k / (bpr as int);
        let j = k % (bpr as int);
        let x = packed_cell(inv, width)(r, j);
        let y = packed_cell(data, width)(r, j);
        let m = row_mask(width, j);
        assert forall|b: u8| b < 8 implies (msb_bit(x, b) <==> #[trigger] msb_bit(!y & m, b)) by {
            lemma_packed_byte_bits(inv, width, r, j, b);
            lemma_packed_byte_bits(data, width, r, j, b);
            lemma_not_and_bit(y, m, b);
            lemma_row_mask_bits(width, j, b);
            if j * 8 + b < width {
                assert(r * width + j * 8 + b < data.len()) by (nonlinear_arith)
                    requires 0 <= r < rows, rows == data.len() / width, j * 8 + b < width, j >= 0, width > 0;
            }
        }
        lemma_u8_eq_by_bits(x, !y & m);
    }
}

/// Rows are packed independently: packing whole rows followed by more
/// pixels gives the packing of the rows followed by that of the rest.
pub proof fn lemma_to_1bit_concat(a: Seq<u8>, b: Seq<u8>, width: nat)
    requires
        width > 0,
        (a.len() as int) % (width as int) == 0,
    ensures
        spec_to_1bit(a + b, width) == spec_to_1bit(a, width) + spec_to_1bit(b, width),
{
    let bpr = row_bytes(width);
    let ra = a.len() / width;
    let rb = b.len() / width;
    let ab = a + b;
    assert(ab.len() / width == ra + rb && a.len() == ra * width) by {
        assert(a.len() == ra * width) by (nonlinear_arith)
            requires ra == a.len() / width, (a.len() as int) % (width as int) == 0, width > 0;
        let q = (b.len() as int) / (width as int);
        let rem = (b.len() as int) % (width as int);
        assert(b.len() == q * width + rem && 0 <= rem < width) by (nonlinear_arith)
            requires width > 0, q == (b.len() as int) / (width as int), rem == (b.len() as int) % (width as int);
        assert(ab.len() == (ra + q) * width + rem) by (nonlinear_arith)
            requires ab.len() == a.len() + b.len(), a.len() == ra * width, b.len() == q * width + rem;
        lemma_fundamental_div_mod_converse(ab.len() as int, width as int, ra + q, rem);
    }
    let lhs = spec_to_1bit(ab, width);
    let x = spec_to_1bit(a, width);
    let y = spec_to_1bit(b, width);
    assert((ra + rb) * bpr == ra * bpr + rb * bpr) by (nonlinear_arith);
    assert forall|k: int| 0 <= k < lhs.len() implies #[trigger] lhs[k] == (x + y)[k] by {
        lemma_cell_of_index(ra + rb, bpr, k);
        let r = k / (bpr as int);
        let j = k % (bpr as int);
        if r < ra {
            lemma_grid_index(ra, bpr, packed_cell(a, width), r, j);
            assert forall|c: int| 0 <= c < 8 implies dot_is_set(ab, width, r, j, c) == #[trigger] dot_is_set(a, width, r, j, c) by {
                if j * 8 + c < width {
                    assert(r * width + j * 8 + c < a.len()) by (nonlinear_arith)
                        requires 0 <= r < ra, a.len() == ra * width, j * 8 + c < width, j >= 0, c >= 0;
                }
            }
            lemma_packed_bits_same_dots(ab, r, a, r, width, j, 8);
        } else {
            let r2 = r - ra;
            assert(k - ra * bpr == r2 * bpr + j) by (nonlinear_arith)
                requires k == r * bpr + j, r2 == r - ra;
            lemma_grid_index(rb, bpr, packed_cell(b, width), r2, j);
            assert forall|c: int| 0 <= c < 8 implies dot_is_set(ab, width, r, j, c) == #[trigger] dot_is_set(b, width, r2, j, c) by {
                if j * 8 + c < width {
                    assert(r2 * width + j * 8 + c < b.len() && r * width + j * 8 + c == a.len() + r2 * width + j * 8 + c) by (nonlinear_arith)
                        requires 0 <= r2 < rb, rb == b.len() / width, width > 0, r2 == r - ra, a.len() == ra * width,
                            j * 8 + c < width, j >= 0, c >= 0;
                }
            }
            lemma_packed_bits_same_dots(ab, r, b, r2, width, j, 8);
        }
    }
    assert(lhs =~= x + y);
}

/// Packing is monotone in darkness: where one image is everywhere at least
/// as dark as another, every dot printed for the lighter one is printed
/// for the darker one too.
pub proof fn lemma_to_1bit_monotone(dark: Seq<u8>, light: Seq<u8>, width: nat)
    requires
        width > 0,
        dark.len() == light.len(),
        forall|i: int| 0 <= i < dark.len() ==> dark[i] <= light[i],
    ensures
        ({
            let d = spec_to_1bit(dark, width);
            let l = spec_to_1bit(light, width);
            &&& d.len() == l.len()
            &&& forall|k: int| 0 <= k < l.len() ==> #[trigger] l[k] & !d[k] == 0
        }),
{
    let d = spec_to_1bit(dark, width);
    let l = spec_to_1bit(light, width);
    let bpr = row_bytes(width);
    let rows = light.len() / width;
    assert forall|k: int| 0 <= k < l.len() implies #[trigger] l[k] & !d[k] == 0 by {
        lemma_cell_of_index(rows, bpr, k);
        let r = k / (bpr as int);
        let j = k % (bpr as int);
        let x = packed_cell(light, width)(r, j);
        let y = packed_cell(dark, width)(r, j);
        assert forall|b: u8| b < 8 implies !#[trigger] msb_bit(x & !y, b) by {
            lemma_packed_byte_bits(light, width, r, j, b);
            lemma_packed_byte_bits(dark, width, r, j, b);
            lemma_not_and_bit(x, y, b);
            if j * 8 + b < width {
                assert(r * width + j * 8 + b < light.len()) by (nonlinear_arith)
                    requires 0 <= r < rows, rows == light.len() / width, j * 8 + b < width, j >= 0, width > 0;
            }
        }
        lemma_u8_zero_by_bits(x & !y);
    }
}

/// Scaling up by a whole factor `k` turns each source pixel into a `k` x `k`
/// block.
pub proof fn lemma_resize_integer_upscale(data: Seq<u8>, w: nat, h: nat, k: nat, y: int, x: int, i: int, j: int)
    requires
        w > 0,
        k > 0,
        data.len() == w * h,
        0 <= y < h,
        0 <= x < w,
        0 <= i < k,
        0 <= j < k,
    ensures
        resized_height(w, h, k * w) == k * h,
        spec_resize(data, w, h, k * w)[(y * k + i) * (k * w) + x * k + j] == data[y * w + x],
{
    assert((h * (k * w)) / w == k * h) by (nonlinear_arith)
        requires w > 0;
    let dh = k * h;
    let dw = k * w;
    let r = y * k + i;
    let c = x * k + j;
    assert(0 <= y * k && y * k + i < (y + 1) * k && (y + 1) * k <= h * k) by (nonlinear_arith)
        requires 0 <= y < h, 0 <= i < k;
    assert(0 <= x * k && x * k + j < (x + 1) * k && (x + 1) * k <= w * k) by (nonlinear_arith)
        requires 0 <= x < w, 0 <= j < k;
    assert(h * k == dh && w * k == dw) by (nonlinear_arith)
        requires dh == k * h, dw == k * w;
    lemma_grid_index(dh, dw, resized_cell(data, w, h, dw, dh), r, c);
    assert(r * h == y * dh + i * h && 0 <= i * h < dh) by (nonlinear_arith)
        requires r == y * k + i, dh == k * h, 0 <= i < k, h > 0;
    lemma_fundamental_div_mod_converse(r * h, dh as int, y, i * h);
    assert(c * w == x * dw + j * w && 0 <= j * w < dw) by (nonlinear_arith)
        requires c == x * k + j, dw == k * w, 0 <= j < k, w > 0;
    lemma_fundamental_div_mod_converse(c * w, dw as int, x, j * w);
}

/// Nearest-neighbour sampling: output pixel `(oy, ox)` of an image scaled
/// from `sw` x `sh` to `dw` x `dh` is the source pixel that contains the
/// output pixel's top-left corner, mapped back to the source: the row `r`
/// with `r * dh <= oy * sh < (r + 1) * dh` and the column `c` with
/// `c * dw <= ox * sw < (c + 1) * dw`. So rows and columns keep their order:
/// nothing is mirrored or shuffled, whatever the scale.
pub proof fn lemma_resize_samples_covering_pixel(data: Seq<u8>, sw: nat, sh: nat, dw: nat, oy: int, ox: int, r: int, c: int)
    requires
        sw > 0,
        0 <= oy < resized_height(sw, sh, dw),
        0 <= ox < dw,
        0 <= r,
        0 <= c,
        r * resized_height(sw, sh, dw) <= oy * sh < (r + 1) * resized_height(sw, sh, dw),
        c * dw <= ox * sw < (c + 1) * dw,
    ensures
        r < sh,
        c < sw,
        spec_resize(data, sw, sh, dw)[oy * dw + ox] == data[r * sw + c],
{
    let dh = resized_height(sw, sh, dw);
    lemma_grid_index(dh, dw, resized_cell(data, sw, sh, dw, dh), oy, ox);
    assert(oy * sh == r * dh + (oy * sh - r * dh) && 0 <= oy * sh - r * dh < dh) by (nonlinear_arith)
        requires r * dh <= oy * sh < (r + 1) * dh;
    lemma_fundamental_div_mod_converse(oy * sh, dh as int, r, oy * sh - r * dh);
    assert(ox * sw == c * dw + (ox * sw - c * dw) && 0 <= ox * sw - c * dw < dw) by (nonlinear_arith)
        requires c * dw <= ox * sw < (c + 1) * dw;
    lemma_fundamental_div_mod_converse(ox * sw, dw as int, c, ox * sw - c * dw);
    assert(sh > 0) by (nonlinear_arith)
        requires dh == (sh * dw) / sw, 0 <= oy < dh, sw > 0;
    lemma_mul_strict_inequality(oy, dh as int, sh as int);
    if r >= sh {
        lemma_mul_inequality(sh as int, r, dh as int);
        assert(sh * dh == dh * sh) by (nonlinear_arith);
    }
    lemma_mul_strict_inequality(ox, dw as int, sw as int);
    if c >= sw {
        lemma_mul_inequality(sw as int, c, dw as int);
        assert(sw * dw == dw * sw) by (nonlinear_arith);
    }
}

/// Along a row of the resized image the source columns never go back: of
/// two output pixels, the one further right samples a source column at
/// least as far right, and likewise down a column for rows.
pub proof fn lemma_resize_keeps_order(sw: nat, sh: nat, dw: nat, a: int, b: int)
    requires
        sw > 0,
        dw > 0,
        0 <= a <= b,
    ensures
        a * sw / (dw as int) <= b * sw / (dw as int),
        resized_height(sw, sh, dw) > 0 ==> a * sh / (resized_height(sw, sh, dw) as int) <= b * sh / (resized_height(sw, sh, dw) as int),
{
    lemma_mul_inequality(a, b, sw as int);
    lemma_div_is_ordered(a * sw, b * sw, dw as int);
    let dh = resized_height(sw, sh, dw);
    if dh > 0 {
        lemma_mul_inequality(a, b, sh as int);
        lemma_div_is_ordered(a * sh, b * sh, dh as int);
    }
}

} // verus!
