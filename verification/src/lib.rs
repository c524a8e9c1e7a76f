//! Phomemo label-printer raster pipeline: CUPS RaS3 parsing, grayscale
//! image processing and ESC/POS page encoding, with the decisions of the
//! serial and Bluetooth transports.
//!
//! - `raster`: the RaS3 stream parser.
//! - `image`: 1-bit packing, nearest-neighbour resizing, rotation.
//! - `escpos`: the page encodings of the M110, M02 and D30 printer families.
//! - `transport`: pacing and selection decisions of the serial and BLE senders.
//! - `text`: the messages and lines the programs print.
//! - `grid`: the row-major raster shape the others are stated over.

pub mod grid;
pub mod image;
pub mod raster;
pub mod escpos;
pub mod transport;
pub mod text;

pub use image::{to_1bit, resize_nearest, rotate_90_ccw};
pub use raster::{
    parse_ras3, Page, RasterError, HEADER_SIZE, OFF_ADVANCE_DISTANCE, OFF_CUPS_BITS_PER_PIXEL,
    OFF_CUPS_COLOUR_SPACE, OFF_CUPS_HEIGHT, OFF_CUPS_MEDIA_TYPE, OFF_CUPS_NUM_COLOURS,
    OFF_CUPS_PAGE_SIZE_H, OFF_CUPS_PAGE_SIZE_W, OFF_CUPS_WIDTH, OFF_HW_RES_X, OFF_PAGE_SIZE_H,
    OFF_PAGE_SIZE_W,
};
pub use escpos::{
    d30_accepts, encode_d30_page, encode_m02_page, encode_m110_page, m02_accepts,
    m110_accepts, m110_layout, FilterError, M110Layout,
};
pub use transport::{
    ble_device_name_start, chunk_write, discovery_line, find_peripheral, is_bluetooth_device,
    is_phomemo_name,
    select_write_characteristic, serial_plan, write_step, CharInfo, ChunkWrite, SerialPlan,
    Termios, WriteStep,
};
