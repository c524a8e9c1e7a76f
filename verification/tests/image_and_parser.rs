use phomemo_filters::{
    parse_ras3, resize_nearest, rotate_90_ccw, to_1bit, RasterError, HEADER_SIZE,
    OFF_CUPS_BITS_PER_PIXEL, OFF_CUPS_HEIGHT, OFF_CUPS_NUM_COLOURS, OFF_CUPS_WIDTH,
    OFF_ADVANCE_DISTANCE, OFF_CUPS_MEDIA_TYPE, OFF_HW_RES_X, OFF_PAGE_SIZE_W,
    OFF_CUPS_PAGE_SIZE_W,
};

#[test]
fn test_to_1bit_simple() {
    // 8 pixels wide: [0, 0, 0, 0, 255, 255, 255, 255]
    // Pixels <= 127 -> bit=1, > 127 -> bit=0
    // Bits: 1 1 1 1 0 0 0 0 = 0xF0
    let data = vec![0, 0, 0, 0, 255, 255, 255, 255];
    let result = to_1bit(&data, 8);
    assert_eq!(result, vec![0xF0]);
}

#[test]
fn test_to_1bit_padding() {
    // 3 pixels wide: [0, 255, 0]
    // Bits: 1 0 1 0 0 0 0 0 = 0xA0
    let data = vec![0, 255, 0];
    let result = to_1bit(&data, 3);
    assert_eq!(result, vec![0xA0]);
}

#[test]
fn test_to_1bit_threshold_boundary() {
    // Exactly 127 -> bit=1 (black), 128 -> bit=0 (white)
    let data = vec![127, 128];
    let result = to_1bit(&data, 2);
    // Bits: 1 0 0 0 0 0 0 0 = 0x80
    assert_eq!(result, vec![0x80]);
}

#[test]
fn test_resize_nearest() {
    // 4x2 image -> resize to 2px wide -> 2x1
    let data = vec![10, 20, 30, 40, 50, 60, 70, 80];
    let (out, w, h) = resize_nearest(&data, 4, 2, 2);
    assert_eq!(w, 2);
    assert_eq!(h, 1);
    // oy=0: sy=0*2/1=0, ox=0: sx=0*4/2=0 -> 10, ox=1: sx=1*4/2=2 -> 30
    assert_eq!(out, vec![10, 30]);
}

#[test]
fn test_rotate_90_ccw() {
    // Input 3x2 (W=3, H=2):
    //   A B C
    //   D E F
    // CCW 90 degrees -> 2x3:
    //   C F
    //   B E
    //   A D
    let data = vec![1, 2, 3, 4, 5, 6];
    let (out, w, h) = rotate_90_ccw(&data, 3, 2);
    assert_eq!(w, 2);
    assert_eq!(h, 3);
    assert_eq!(out, vec![3, 6, 2, 5, 1, 4]);
}

#[test]
fn test_parse_ras3_empty() {
    assert!(parse_ras3(&[]).is_err());
}

#[test]
fn test_parse_ras3_bad_magic() {
    assert!(parse_ras3(b"XXXX").is_err());
}

#[test]
fn test_parse_ras3_le_single_page() {
    // Build a minimal valid RaS3 stream: magic + header + 4 pixels.
    let mut buf = Vec::new();
    buf.extend_from_slice(b"3SaR"); // LE magic

    // 1796-byte header (zeroed, then set the fields we care about).
    let mut header = vec![0u8; HEADER_SIZE];

    // cupsWidth = 2 at offset 372
    header[OFF_CUPS_WIDTH..OFF_CUPS_WIDTH + 4].copy_from_slice(&2u32.to_le_bytes());
    // cupsHeight = 2 at offset 376
    header[OFF_CUPS_HEIGHT..OFF_CUPS_HEIGHT + 4].copy_from_slice(&2u32.to_le_bytes());
    // cupsBitsPerPixel = 8 at offset 388
    header[OFF_CUPS_BITS_PER_PIXEL..OFF_CUPS_BITS_PER_PIXEL + 4]
        .copy_from_slice(&8u32.to_le_bytes());
    // cupsNumColours = 1
    header[OFF_CUPS_NUM_COLOURS..OFF_CUPS_NUM_COLOURS + 4].copy_from_slice(&1u32.to_le_bytes());

    buf.extend_from_slice(&header);

    // 2x2 grayscale image: 4 bytes.
    buf.extend_from_slice(&[10, 20, 30, 40]);

    let pages = parse_ras3(&buf).unwrap();
    assert_eq!(pages.len(), 1);
    assert_eq!(pages[0].width, 2);
    assert_eq!(pages[0].height, 2);
    assert_eq!(pages[0].num_colours, 1);
    assert_eq!(pages[0].data, vec![10, 20, 30, 40]);
}

// ---------------------------------------------------------------------------
// Further cases
// ---------------------------------------------------------------------------

fn header_with(width: u32, height: u32, bpp: u32, big_endian: bool) -> Vec<u8> {
    let mut header = vec![0u8; HEADER_SIZE];
    let put = |h: &mut Vec<u8>, off: usize, v: u32| {
        let bytes = if big_endian { v.to_be_bytes() } else { v.to_le_bytes() };
        h[off..off + 4].copy_from_slice(&bytes);
    };
    put(&mut header, OFF_CUPS_WIDTH, width);
    put(&mut header, OFF_CUPS_HEIGHT, height);
    put(&mut header, OFF_CUPS_BITS_PER_PIXEL, bpp);
    put(&mut header, OFF_CUPS_NUM_COLOURS, 1);
    put(&mut header, OFF_CUPS_MEDIA_TYPE, 10);
    put(&mut header, OFF_ADVANCE_DISTANCE, 7);
    put(&mut header, OFF_HW_RES_X, 203);
    put(&mut header, OFF_PAGE_SIZE_W, 74);
    put(&mut header, OFF_CUPS_PAGE_SIZE_W, 73.700787f32.to_bits());
    header
}

#[test]
fn parse_ras3_error_variants() {
    assert!(matches!(parse_ras3(&[]), Err(RasterError::Empty)));
    assert!(matches!(
        parse_ras3(b"3Sa"),
        Err(RasterError::TooShort { expected: 4, actual: 3 })
    ));
    match parse_ras3(b"XYZW") {
        Err(RasterError::BadMagic(m)) => assert_eq!(m, *b"XYZW"),
        _ => panic!("expected BadMagic"),
    }
    // Magic alone: no pages.
    assert_eq!(parse_ras3(b"RaS3").unwrap().len(), 0);
    // Truncated header.
    let mut buf = b"3SaR".to_vec();
    buf.extend_from_slice(&[0u8; 10]);
    assert!(matches!(
        parse_ras3(&buf),
        Err(RasterError::TooShort { expected: 1800, actual: 14 })
    ));
    // Zero width.
    let mut buf = b"3SaR".to_vec();
    buf.extend_from_slice(&header_with(0, 2, 8, false));
    assert!(matches!(
        parse_ras3(&buf),
        Err(RasterError::TooShort { expected: 1801, actual: 1800 })
    ));
    // Pixel data shorter than the header says.
    let mut buf = b"3SaR".to_vec();
    buf.extend_from_slice(&header_with(2, 2, 8, false));
    buf.extend_from_slice(&[1, 2, 3]);
    assert!(matches!(
        parse_ras3(&buf),
        Err(RasterError::TooShort { expected: 1804, actual: 1803 })
    ));
}

#[test]
fn parse_ras3_big_endian_two_pages() {
    let mut buf = b"RaS3".to_vec();
    buf.extend_from_slice(&header_with(2, 1, 8, true));
    buf.extend_from_slice(&[1, 2]);
    buf.extend_from_slice(&header_with(1, 3, 8, true));
    buf.extend_from_slice(&[3, 4, 5]);
    let pages = parse_ras3(&buf).unwrap();
    assert_eq!(pages.len(), 2);
    assert_eq!((pages[0].width, pages[0].height), (2, 1));
    assert_eq!(pages[0].data, vec![1, 2]);
    assert_eq!((pages[1].width, pages[1].height), (1, 3));
    assert_eq!(pages[1].data, vec![3, 4, 5]);
    assert_eq!(pages[1].media_type, 10);
    assert_eq!(pages[1].advance_distance, 7);
    assert_eq!(pages[1].hw_res_x, 203);
    assert_eq!(pages[1].page_size_w, 74);
    assert_eq!(f32::from_bits(pages[1].page_width_pts_bits), 73.700787f32);
    assert_eq!(pages[1].page_height_pts_bits, 0);
}

#[test]
fn parse_ras3_refuses_other_bit_depths() {
    // 1 bit per pixel: the page data would not be one byte per pixel.
    let mut buf = b"3SaR".to_vec();
    buf.extend_from_slice(&header_with(16, 2, 1, false));
    buf.extend_from_slice(&[0xAA, 0xBB, 0xCC, 0xDD]);
    assert!(matches!(parse_ras3(&buf), Err(RasterError::UnsupportedBitsPerPixel(1))));
    let mut buf = b"3SaR".to_vec();
    buf.extend_from_slice(&header_with(2, 2, 16, false));
    buf.extend_from_slice(&[0u8; 8]);
    assert!(matches!(parse_ras3(&buf), Err(RasterError::UnsupportedBitsPerPixel(16))));
}

#[test]
fn parse_ras3_huge_record_is_too_short() {
    // A record of (2^32 - 1)^2 pixels and no data: refused with the true size.
    let mut buf = b"3SaR".to_vec();
    buf.extend_from_slice(&header_with(u32::MAX, u32::MAX, 8, false));
    let need = (u32::MAX as u128) * (u32::MAX as u128) + 1800;
    let expected = if need <= usize::MAX as u128 { need as usize } else { usize::MAX };
    match parse_ras3(&buf) {
        Err(RasterError::TooShort { expected: e, actual }) => {
            assert_eq!(e, expected);
            assert_eq!(actual, 1800);
        }
        _ => panic!("expected TooShort"),
    }
    // 2^31 x 2^31 pixels: the size that would wrap around is still refused.
    let mut buf = b"3SaR".to_vec();
    buf.extend_from_slice(&header_with(1 << 31, 1 << 31, 8, false));
    assert!(matches!(parse_ras3(&buf), Err(RasterError::TooShort { actual: 1800, .. })));
}

#[test]
fn raster_error_messages() {
    assert_eq!(RasterError::Empty.message(), "no data received");
    assert_eq!(
        RasterError::TooShort { expected: 1804, actual: 3 }.message(),
        "data too short: need 1804 bytes, got 3"
    );
    assert_eq!(RasterError::TooShort { expected: 0, actual: 10 }.message(), "data too short: need 0 bytes, got 10");
    assert_eq!(RasterError::BadMagic(*b"XY\x0a\xff").message(), "bad magic: 58 59 0a ff");
    assert_eq!(
        RasterError::UnsupportedBitsPerPixel(1).message(),
        "unsupported bits per pixel: 1 (only 8-bit grayscale)"
    );
}

#[test]
fn joined_streams_give_both_page_lists() {
    let mut a = b"RaS3".to_vec();
    a.extend_from_slice(&header_with(2, 1, 8, true));
    a.extend_from_slice(&[1, 2]);
    let mut b = b"RaS3".to_vec();
    b.extend_from_slice(&header_with(1, 2, 8, true));
    b.extend_from_slice(&[3, 4]);
    let mut joined = a.clone();
    joined.extend_from_slice(&b[4..]);
    let pages = parse_ras3(&joined).unwrap();
    assert_eq!(pages.len(), 2);
    assert_eq!(pages[0].data, parse_ras3(&a).unwrap()[0].data);
    assert_eq!(pages[1].data, parse_ras3(&b).unwrap()[0].data);
    assert_eq!((pages[1].width, pages[1].height), (1, 2));
}

#[test]
fn header_fields_in_both_byte_orders() {
    let mut le = b"3SaR".to_vec();
    le.extend_from_slice(&header_with(0x0102_0304, 1, 8, false));
    let mut be = b"RaS3".to_vec();
    be.extend_from_slice(&header_with(0x0102_0304, 1, 8, true));
    // Both refuse for lack of data, naming the same size.
    let need = |r| match r {
        Err(RasterError::TooShort { expected, .. }) => expected,
        _ => panic!("expected TooShort"),
    };
    assert_eq!(need(parse_ras3(&le)), need(parse_ras3(&be)));
    assert_eq!(need(parse_ras3(&le)), 1800 + 0x0102_0304);
}

#[test]
fn to_1bit_inverted_is_masked_complement() {
    let data: Vec<u8> = vec![0, 200, 127, 128, 10, 255, 90, 30, 77, 250, 5, 140];
    let inv: Vec<u8> = data.iter().map(|p| 255 - p).collect();
    let a = to_1bit(&data, 10);
    let b = to_1bit(&inv, 10);
    assert_eq!(a.len(), b.len());
    let masks = [0xFFu8, 0xC0];
    for k in 0..a.len() {
        assert_eq!(b[k], !a[k] & masks[k % 2]);
    }
}

#[test]
fn to_1bit_of_whole_rows_concatenates() {
    let a: Vec<u8> = vec![0, 255, 0, 255, 0, 255];
    let b: Vec<u8> = vec![255, 0, 0, 7];
    let mut ab = a.clone();
    ab.extend_from_slice(&b);
    let mut expected = to_1bit(&a, 3);
    expected.extend_from_slice(&to_1bit(&b, 3));
    assert_eq!(to_1bit(&ab, 3), expected);
}

#[test]
fn to_1bit_darker_prints_more() {
    let light: Vec<u8> = vec![200, 128, 127, 0, 255, 130, 140, 90, 255];
    let dark: Vec<u8> = vec![100, 127, 127, 0, 128, 20, 140, 90, 0];
    let l = to_1bit(&light, 9);
    let d = to_1bit(&dark, 9);
    for k in 0..l.len() {
        assert_eq!(l[k] & !d[k], 0);
    }
    assert_ne!(l, d);
}

#[test]
fn integer_upscale_makes_blocks() {
    let data = vec![1, 2, 3, 4, 5, 6];
    let (out, w, h) = resize_nearest(&data, 3, 2, 9);
    assert_eq!((w, h), (9, 6));
    for y in 0..2 {
        for x in 0..3 {
            for i in 0..3 {
                for j in 0..3 {
                    assert_eq!(out[(y * 3 + i) * 9 + x * 3 + j], data[y * 3 + x]);
                }
            }
        }
    }
}

#[test]
fn resize_downscale_reads_only_the_rows_it_needs() {
    // 4 x 4 scaled to 2 wide reads rows 0 and 2 only: the last row may be missing.
    let data = vec![1, 2, 3, 4, 5, 6, 7, 8, 9, 10, 11, 12];
    let (out, w, h) = resize_nearest(&data, 4, 4, 2);
    assert_eq!((w, h), (2, 2));
    assert_eq!(out, vec![1, 3, 9, 11]);
    // Scaled to no rows: nothing is read.
    let (out, w, h) = resize_nearest(&[], 400, 1, 2);
    assert_eq!((w, h), (2, 0));
    assert!(out.is_empty());
}

#[test]
fn to_1bit_rows_and_bits() {
    // 10 pixels wide, 2 rows: 2 bytes per row, last 6 bits of each row unused.
    let mut data = vec![255u8; 20];
    data[0] = 0; // row 0, col 0
    data[9] = 100; // row 0, col 9
    data[10 + 8] = 127; // row 1, col 8
    let out = to_1bit(&data, 10);
    assert_eq!(out, vec![0x80, 0x40, 0x00, 0x80]);
    // A partial trailing row is not packed.
    let out = to_1bit(&[0, 0, 0], 2);
    assert_eq!(out, vec![0xC0]);
}

#[test]
fn rotate_twice_reverses_and_four_times_restores() {
    let data: Vec<u8> = (1..=12).collect();
    let (r1, w1, h1) = rotate_90_ccw(&data, 4, 3);
    assert_eq!((w1, h1), (3, 4));
    let (r2, w2, h2) = rotate_90_ccw(&r1, w1, h1);
    assert_eq!((w2, h2), (4, 3));
    let mut reversed = data.clone();
    reversed.reverse();
    assert_eq!(r2, reversed);
    let (r3, w3, h3) = rotate_90_ccw(&r2, w2, h2);
    let (r4, w4, h4) = rotate_90_ccw(&r3, w3, h3);
    assert_eq!((w4, h4), (4, 3));
    assert_eq!(r4, data);
}

#[test]
fn resize_same_width_is_identity_and_upscale_repeats() {
    let data = vec![1, 2, 3, 4, 5, 6, 99];
    let (out, w, h) = resize_nearest(&data, 3, 2, 3);
    assert_eq!((w, h), (3, 2));
    assert_eq!(out, vec![1, 2, 3, 4, 5, 6]);
    // 2x1 doubled: 4x2.
    let (out, w, h) = resize_nearest(&[7, 9], 2, 1, 4);
    assert_eq!((w, h), (4, 2));
    assert_eq!(out, vec![7, 7, 9, 9, 7, 7, 9, 9]);
}
