use phomemo_filters::escpos::{M02_BYTES_PER_LINE, M110_HEAD_WIDTH_BYTES};
use phomemo_filters::transport::{BLE_CHUNK_SIZE, BLE_SYNC_INTERVAL, CRTSCTS, WRITE_CHAR_UUID};
use phomemo_filters::{
    ble_device_name_start, chunk_write, d30_accepts, discovery_line, find_peripheral, m02_accepts, m110_accepts, encode_d30_page, encode_m02_page, encode_m110_page,
    is_bluetooth_device, is_phomemo_name, m110_layout, select_write_characteristic, serial_plan,
    write_step, CharInfo, ChunkWrite, FilterError, Page, Termios, WriteStep,
};

fn page(width: u32, height: u32, fill: u8) -> Page {
    Page {
        width,
        height,
        media_type: 10,
        colour_space: 0,
        num_colours: 1,
        advance_distance: 0,
        hw_res_x: 0,
        page_size_w: 0,
        page_size_h: 0,
        page_width_pts_bits: 0,
        page_height_pts_bits: 0,
        data: vec![fill; (width * height) as usize],
    }
}

#[test]
fn encoders_refuse_colour_pages() {
    let mut p = page(8, 1, 0);
    p.colour_space = 1;
    assert!(matches!(encode_m110_page(&p, None, None), Err(FilterError::InvalidColourSpace)));
    assert!(matches!(encode_m02_page(&p), Err(FilterError::InvalidColourSpace)));
    assert!(matches!(encode_d30_page(&p), Err(FilterError::InvalidColourSpace)));
    let mut p = page(8, 1, 0);
    p.num_colours = 3;
    assert!(matches!(encode_m110_page(&p, None, None), Err(FilterError::InvalidColourSpace)));
    assert!(matches!(encode_m02_page(&p), Err(FilterError::InvalidColourSpace)));
    assert!(matches!(encode_d30_page(&p), Err(FilterError::InvalidColourSpace)));
}

#[test]
fn m110_layout_right_aligns_stock_and_centres_raster() {
    // 21-byte raster (168 px) on a 26-byte stock: 27 bytes of stock padding
    // would not fit, so stock_pad = 22, margin = (26 - 21) / 2 = 2.
    let mut p = page(168, 1, 0);
    p.hw_res_x = 203;
    let l = m110_layout(&p, Some(208), None);
    assert_eq!(l.src_bpl, 21);
    assert_eq!(l.page_bytes, 26);
    assert_eq!(l.dst_bpl, M110_HEAD_WIDTH_BYTES);
    assert_eq!(l.pad_left, 22 + 2);
    assert_eq!(l.pad_right, 3);
    assert_eq!(l.pad_left + l.src_bpl + l.pad_right, l.dst_bpl);
    // A raster wider than the head widens the rows.
    let p = page(400, 1, 0);
    let l = m110_layout(&p, None, None);
    assert_eq!(l.dst_bpl, 50);
    assert_eq!((l.pad_left, l.pad_right), (0, 0));
    // Vertical centring: 11 dots of stock for 4 rows puts 3 rows on top.
    let mut p = page(8, 4, 0);
    p.hw_res_x = 203;
    let l = m110_layout(&p, None, Some(11));
    assert_eq!((l.top_pad, l.total_height), (3, 7));
    // Base-header page height: 10pt at 203 dpi = 28 dots.
    p.page_size_h = 10;
    let l = m110_layout(&p, None, None);
    assert_eq!((l.top_pad, l.total_height), (12, 16));
}

#[test]
fn m02_block_sizes_follow_the_line_count() {
    // 513 lines: blocks of 256, 256 and 1 line, 8 command bytes each.
    let p = page(384, 513, 255);
    let out = encode_m02_page(&p).unwrap();
    let raster = 8 * 3 + 48 * 513;
    assert_eq!(out.len(), 9 + raster + 18);
    assert_eq!(&out[9..13], b"\x1d\x76\x30\x00");
    assert_eq!(u16::from_le_bytes([out[13], out[14]]), M02_BYTES_PER_LINE);
    assert_eq!(u16::from_le_bytes([out[15], out[16]]), 255);
    let third = 9 + 2 * (8 + 48 * 256);
    assert_eq!(u16::from_le_bytes([out[third + 6], out[third + 7]]), 0);
    // All-white page inverts to all-black: every raster byte is 0xFF.
    assert!(out[17..17 + 48].iter().all(|&b| b == 0xFF));
}

#[test]
fn d30_output_layout() {
    let mut p = page(3, 9, 0);
    p.advance_distance = 2;
    let out = encode_d30_page(&p).unwrap();
    // Rotated: 9 px wide (2 bytes), 3 rows; 2 lines of feed = 4 zero bytes.
    assert_eq!(&out[0..10], b"\x1f\x11\x24\x00\x1b\x40\x1dv0\x00");
    assert_eq!(u16::from_le_bytes([out[10], out[11]]), 2);
    assert_eq!(u16::from_le_bytes([out[12], out[13]]), 3);
    assert_eq!(&out[14..20], &[0xFF, 0x80, 0xFF, 0x80, 0xFF, 0x80]);
    assert_eq!(&out[20..], &[0, 0, 0, 0]);
}

#[test]
fn termios_zeroed_and_flow_control() {
    let mut t = Termios::zeroed();
    assert_eq!((t.c_iflag, t.c_oflag, t.c_cflag, t.c_lflag), (0, 0, 0, 0));
    assert_eq!(t.c_cc, [0u8; 20]);
    assert_eq!((t.c_ispeed, t.c_ospeed), (0, 0));
    t.c_cflag = 0x0003_4b00;
    t.c_ispeed = 115200;
    t.disable_hardware_flow_control();
    assert_eq!(t.c_cflag, 0x0000_4b00);
    assert_eq!(t.c_cflag & CRTSCTS, 0);
    assert_eq!(t.c_ispeed, 115200);
}

#[test]
fn serial_device_kind_and_pacing() {
    assert!(is_bluetooth_device("/dev/cu.Q002E0CP0670069"));
    assert!(!is_bluetooth_device("/dev/cu.usbmodem1101"));
    assert!(!is_bluetooth_device("/cu.Q"));
    let bt = serial_plan(true);
    assert_eq!((bt.settle_us, bt.chunk_size, bt.chunk_delay_us, bt.drain, bt.final_wait_us), (500_000, 512, 10_000, false, 2_000_000));
    let usb = serial_plan(false);
    assert_eq!((usb.settle_us, usb.chunk_size, usb.chunk_delay_us, usb.drain, usb.final_wait_us), (0, 4096, 0, true, 0));
}

#[test]
fn write_steps() {
    assert!(matches!(write_step(10, 5, false), WriteStep::Advance(15)));
    assert!(matches!(write_step(10, 0, true), WriteStep::Advance(10)));
    assert!(matches!(write_step(10, -1, true), WriteStep::Retry));
    assert!(matches!(write_step(10, -1, false), WriteStep::Fail));
}

#[test]
fn write_characteristic_selection() {
    let other = CharInfo { uuid: 0x1234, write: true, write_without_response: false };
    let wwr = CharInfo { uuid: 0x5678, write: false, write_without_response: true };
    let phomemo = CharInfo { uuid: WRITE_CHAR_UUID, write: true, write_without_response: true };
    assert_eq!(select_write_characteristic(&[other, wwr, phomemo]), Some(2));
    assert_eq!(select_write_characteristic(&[other, wwr, wwr]), Some(1));
    assert_eq!(select_write_characteristic(&[other]), None);
    assert_eq!(select_write_characteristic(&[]), None);
    assert_eq!(WRITE_CHAR_UUID, 0x0000ff02_0000_1000_8000_00805f9b34fb);
}

#[test]
fn chunk_writes_sync_every_eighth() {
    assert_eq!((BLE_CHUNK_SIZE, BLE_SYNC_INTERVAL), (100, 8));
    assert!(matches!(chunk_write(true, 0), ChunkWrite::WithoutResponse));
    assert!(matches!(chunk_write(true, 7), ChunkWrite::WithoutResponse));
    assert!(matches!(chunk_write(true, 8), ChunkWrite::WithResponse));
    assert!(matches!(chunk_write(true, 16), ChunkWrite::WithResponse));
    assert!(matches!(chunk_write(false, 8), ChunkWrite::WithoutResponseThenPause));
}

#[test]
fn phomemo_names_and_device_uris() {
    for name in ["M110-A1", "M120", "M220x", "M02S", "D30", "T02", "Q002E0CP0670069"] {
        assert!(is_phomemo_name(name), "{name}");
    }
    for name in ["", "M1", "m110", "X110", "Headphones", "Q"] {
        assert!(!is_phomemo_name(name), "{name}");
    }
    let uri = "phomemo-ble://Q002E0CP0670069";
    assert_eq!(&uri[ble_device_name_start(uri)..], "Q002E0CP0670069");
    assert_eq!(ble_device_name_start("M110-A1"), 0);
    assert_eq!(ble_device_name_start("phomemo-ble:/x"), 0);
}

#[test]
fn encoders_accept_what_they_can_encode() {
    let ok = page(8, 2, 0);
    assert!(m110_accepts(&ok, None, None));
    assert!(m02_accepts(&ok));
    assert!(d30_accepts(&ok));
    // Too few pixels for the dimensions.
    let mut short = page(8, 2, 0);
    short.data.truncate(15);
    assert!(!m110_accepts(&short, None, None));
    assert!(!m02_accepts(&short));
    assert!(!d30_accepts(&short));
    // A colour page is refused by the encoder, so it is accepted.
    short.colour_space = 2;
    assert!(m110_accepts(&short, None, None));
    assert!(m02_accepts(&short));
    assert!(d30_accepts(&short));
    // A float stock narrower than the raster would leave negative padding.
    let mut p = page(160, 1, 0);
    p.hw_res_x = 203;
    assert!(!m110_accepts(&p, Some(120), None));
    assert!(m110_accepts(&p, Some(160), None));
    // Without a resolution the float stock is not used.
    p.hw_res_x = 0;
    assert!(m110_accepts(&p, Some(120), None));
}

#[test]
fn filter_error_message_and_discovery_line() {
    assert_eq!(FilterError::InvalidColourSpace.message(), "invalid colour space: only monochrome supported");
    assert_eq!(
        discovery_line("M110-A1"),
        "direct phomemo-ble://M110-A1 \"Phomemo BLE (M110-A1)\" \"Phomemo Label Printer BLE (M110-A1)\" \"MFG:Phomemo;CMD:ESCPOS;\""
    );
}

#[test]
fn peripheral_found_by_name() {
    let names = vec![None, Some("M02S".to_string()), Some("Q0X".to_string()), Some("Q0X".to_string())];
    assert_eq!(find_peripheral(&names, "Q0X"), Some(2));
    assert_eq!(find_peripheral(&names, "M02S"), Some(1));
    assert_eq!(find_peripheral(&names, "D30"), None);
    assert_eq!(find_peripheral(&[], "D30"), None);
}

#[test]
fn m02_scaled_page_may_lack_unread_rows() {
    // 768 x 3 scales to 384 x 1 and reads source row 0 only.
    let mut p = page(768, 3, 0);
    p.data.truncate(768);
    assert!(m02_accepts(&p));
    let out = encode_m02_page(&p).unwrap();
    assert_eq!(u16::from_le_bytes([out[15], out[16]]), 0);
    // 500 x 1 scales to no rows at all: no pixel is read.
    let mut p = page(500, 1, 0);
    p.data.clear();
    assert!(m02_accepts(&p));
    assert_eq!(encode_m02_page(&p).unwrap().len(), 9 + 18);
}
