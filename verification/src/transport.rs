//! Decisions of the two transports that carry ESC/POS data to a printer:
//! the serial sender (USB CDC or Bluetooth RFCOMM) and the Bluetooth LE
//! helper. The device work itself stays with the caller; these functions
//! say what to do.

use vstd::prelude::*;
use vstd::string::StringSliceAdditionalSpecFns;
use crate::text::{chars_to_string, push_str};

verus! {

// ---------------------------------------------------------------------------
// Byte-string helpers
// ---------------------------------------------------------------------------

/// `s` starts with `prefix`.
pub open spec fn has_prefix(s: Seq<u8>, prefix: Seq<u8>) -> bool {
    prefix.len() <= s.len() && s.subrange(0, prefix.len() as int) == prefix
}

/// `needle` occurs somewhere in `s`.
pub open spec fn has_infix(s: Seq<u8>, needle: Seq<u8>) -> bool {
    exists|i: int| 0 <= i && i + needle.len() <= s.len() && #[trigger] s.subrange(i, i + needle.len()) == needle
}

fn starts_with_at(s: &[u8], at: usize, prefix: &[u8]) -> (b: bool)
    requires
        at <= s@.len(),
    ensures
        b == has_prefix(s@.subrange(at as int, s@.len() as int), prefix@),
{
    if prefix.len() > s.len() - at {
        return false;
    }
    let n = s.len();
    let mut i: usize = 0;
    while i < prefix.len()
        invariant
            n == s@.len(),
            at <= n,
            prefix@.len() <= s@.len() - at,
            i <= prefix@.len(),
            forall|k: int| 0 <= k < i ==> s@[at + k] == prefix@[k],
        decreases prefix@.len() - i,
    {
        if s[at + i] != prefix[i] {
            assert(s@.subrange(at as int, s@.len() as int).subrange(0, prefix@.len() as int)[i as int] != prefix@[i as int]);
            return false;
        }
        i = i + 1;
    }
    assert(s@.subrange(at as int, s@.len() as int).subrange(0, prefix@.len() as int) =~= prefix@);
    true
}

fn starts_with(s: &[u8], prefix: &[u8]) -> (b: bool)
    ensures
        b == has_prefix(s@, prefix@),
{
    let b = starts_with_at(s, 0, prefix);
    assert(s@.subrange(0, s@.len() as int) =~= s@);
    b
}

fn contains(s: &[u8], needle: &[u8]) -> (b: bool)
    ensures
        b == has_infix(s@, needle@),
{
    if needle.len() > s.len() {
        return false;
    }
    let last = s.len() - needle.len();
    let mut i: usize = 0;
    while i <= last
        invariant
            last == s@.len() - needle@.len(),
            i <= last,
            forall|k: int| 0 <= k < i ==> #[trigger] s@.subrange(k, k + needle@.len()) != needle@,
        decreases last + 1 - i,
    {
        if starts_with_at(s, i, needle) {
            assert(s@.subrange(i as int, s@.len() as int).subrange(0, needle@.len() as int)
                =~= s@.subrange(i as int, i + needle@.len()));
            return true;
        }
        assert(s@.subrange(i as int, s@.len() as int).subrange(0, needle@.len() as int)
            =~= s@.subrange(i as int, i + needle@.len()));
        if i == last {
            assert forall|k: int| 0 <= k && k + needle@.len() <= s@.len()
                implies #[trigger] s@.subrange(k, k + needle@.len()) != needle@ by {
                if k < i {
                } else {
                    assert(k == i);
                }
            }
            return false;
        }
        i = i + 1;
    }
    false
}

// ---------------------------------------------------------------------------
// Serial sender
// ---------------------------------------------------------------------------

/// macOS `CRTSCTS`: hardware (RTS/CTS) flow control.
pub const CRTSCTS: u64 = 0x0003_0000;

/// Serial line settings, laid out as macOS `struct termios` (72 bytes).
#[derive(Clone, Copy)]
pub struct Termios {
    pub c_iflag: u64,
    pub c_oflag: u64,
    pub c_cflag: u64,
    pub c_lflag: u64,
    pub c_cc: [u8; 20],
    pub c_ispeed: u64,
    pub c_ospeed: u64,
}

impl Termios {
    /// Settings with every flag, control character and speed zero.
    pub fn zeroed() -> (t: Self)
        ensures
            t.c_iflag == 0,
            t.c_oflag == 0,
            t.c_cflag == 0,
            t.c_lflag == 0,
            t.c_cc@ == Seq::new(20, |i: int| 0u8),
            t.c_ispeed == 0,
            t.c_ospeed == 0,
    {
        let t = Self {
            c_iflag: 0,
            c_oflag: 0,
            c_cflag: 0,
            c_lflag: 0,
            c_cc: [0u8; 20],
            c_ispeed: 0,
            c_ospeed: 0,
        };
        assert(t.c_cc@ =~= Seq::new(20, |i: int| 0u8));
        t
    }

    /// Turn hardware flow control off, leaving every other setting as it is.
    pub fn disable_hardware_flow_control(&mut self)
        ensures
            final(self).c_cflag == old(self).c_cflag & !CRTSCTS,
            final(self).c_iflag == old(self).c_iflag,
            final(self).c_oflag == old(self).c_oflag,
            final(self).c_lflag == old(self).c_lflag,
            final(self).c_cc == old(self).c_cc,
            final(self).c_ispeed == old(self).c_ispeed,
            final(self).c_ospeed == old(self).c_ospeed,
    {
        self.c_cflag = self.c_cflag & !CRTSCTS;
    }
}

/// `/cu.Q0`: the path fragment of the macOS serial devices through which a
/// Phomemo printer talks over Bluetooth RFCOMM.
pub open spec fn bluetooth_device_marker() -> Seq<u8> {
    seq![0x2fu8, 0x63u8, 0x75u8, 0x2eu8, 0x51u8, 0x30u8]
}

/// Whether the serial device at `path` is a Bluetooth RFCOMM link.
pub fn is_bluetooth_device(path: &str) -> (b: bool)
    ensures
        b == has_infix(path.spec_bytes(), bluetooth_device_marker()),
{
    let marker: [u8; 6] = [0x2f, 0x63, 0x75, 0x2e, 0x51, 0x30];
    assert(marker@ =~= bluetooth_device_marker());
    contains(path.as_bytes(), marker.as_slice())
}

/// How the serial sender paces a job.
#[derive(Clone, Copy, Debug)]
pub struct SerialPlan {
    /// Pause after configuring the line, for the link to settle (µs).
    pub settle_us: u32,
    /// Bytes written per chunk.
    pub chunk_size: usize,
    /// Pause after each chunk (µs); 0 for none.
    pub chunk_delay_us: u32,
    /// Wait for the kernel transmit buffer to empty at the end (`tcdrain`).
    pub drain: bool,
    /// Pause at the end in place of draining (µs).
    pub final_wait_us: u32,
}

/// The pacing of a serial job: over Bluetooth RFCOMM, 500 ms to settle,
/// 512-byte chunks 10 ms apart and 2 s at the end in place of `tcdrain`
/// (which can block for ever on macOS RFCOMM); over USB, 4096-byte chunks
/// back to back and a drain.
pub open spec fn spec_serial_plan(bluetooth: bool) -> SerialPlan {
    if bluetooth {
        SerialPlan { settle_us: 500_000, chunk_size: 512, chunk_delay_us: 10_000, drain: false, final_wait_us: 2_000_000 }
    } else {
        SerialPlan { settle_us: 0, chunk_size: 4096, chunk_delay_us: 0, drain: true, final_wait_us: 0 }
    }
}

/// The pacing of a serial job over a Bluetooth or a USB link.
pub fn serial_plan(bluetooth: bool) -> (p: SerialPlan)
    ensures
        p == spec_serial_plan(bluetooth),
{
    if bluetooth {
        SerialPlan { settle_us: 500_000, chunk_size: 512, chunk_delay_us: 10_000, drain: false, final_wait_us: 2_000_000 }
    } else {
        SerialPlan { settle_us: 0, chunk_size: 4096, chunk_delay_us: 0, drain: true, final_wait_us: 0 }
    }
}

/// What to do after one `write(2)` call of a write-everything loop.
#[derive(Clone, Copy, Debug)]
pub enum WriteStep {
    /// Continue from this offset (the loop ends once it reaches the length).
    Advance(usize),
    /// The call was interrupted: call again from the same offset.
    Retry,
    /// The call failed: give up with its error.
    Fail,
}

/// The step after a `write(2)` at `offset` that returned `written`
/// (`interrupted` when it failed with `EINTR`).
pub open spec fn spec_write_step(offset: usize, written: isize, interrupted: bool) -> WriteStep {
    if written < 0 {
        if interrupted { WriteStep::Retry } else { WriteStep::Fail }
    } else {
        WriteStep::Advance((offset + written) as usize)
    }
}

/// Decide the next step of writing a buffer to a file descriptor, retrying
/// on short writes and `EINTR`.
pub fn write_step(offset: usize, written: isize, interrupted: bool) -> (s: WriteStep)
    requires
        written < 0 || offset + written <= usize::MAX,
    ensures
        s == spec_write_step(offset, written, interrupted),
{
    if written < 0 {
        if interrupted {
            WriteStep::Retry
        } else {
            WriteStep::Fail
        }
    } else {
        WriteStep::Advance(offset + written as usize)
    }
}

// ---------------------------------------------------------------------------
// Bluetooth LE helper
// ---------------------------------------------------------------------------

/// Phomemo BLE write characteristic UUID (short: FF02), as its 128-bit value.
pub const WRITE_CHAR_UUID: u128 = 0x0000ff02_0000_1000_8000_00805f9b34fb;

/// Bytes per GATT write.
pub const BLE_CHUNK_SIZE: usize = 100;

/// Every this many chunks one is written with response, as a sync barrier.
pub const BLE_SYNC_INTERVAL: usize = 8;

/// What the helper knows of one characteristic of the printer.
#[derive(Clone, Copy, Debug)]
pub struct CharInfo {
    /// The characteristic's UUID as its 128-bit value.
    pub uuid: u128,
    /// It takes writes with response (`WRITE`).
    pub write: bool,
    /// It takes writes without response (`WRITE_WITHOUT_RESPONSE`).
    pub write_without_response: bool,
}

/// Index of the first characteristic that satisfies `p`, if any.
pub open spec fn first_index(chars: Seq<CharInfo>, p: spec_fn(CharInfo) -> bool) -> Option<usize> {
    if exists|i: int| 0 <= i < chars.len() && p(#[trigger] chars[i]) {
        let i = choose|i: int| 0 <= i < chars.len() && p(#[trigger] chars[i]) && forall|k: int| 0 <= k < i ==> !p(#[trigger] chars[k]);
        Some(i as usize)
    } else {
        None
    }
}

/// The characteristic the print data goes to: the first with the Phomemo
/// write UUID, else the first that takes writes without response.
pub open spec fn spec_select_write_characteristic(chars: Seq<CharInfo>) -> Option<usize> {
    match first_index(chars, |c: CharInfo| c.uuid == WRITE_CHAR_UUID) {
        Some(i) => Some(i),
        None => first_index(chars, |c: CharInfo| c.write_without_response),
    }
}

proof fn lemma_first_index_is(chars: Seq<CharInfo>, p: spec_fn(CharInfo) -> bool, i: int)
    requires
        0 <= i < chars.len(),
        p(chars[i]),
        forall|k: int| 0 <= k < i ==> !p(#[trigger] chars[k]),
    ensures
        first_index(chars, p) == Some(i as usize),
{
    let j = choose|j: int| 0 <= j < chars.len() && p(#[trigger] chars[j]) && forall|k: int| 0 <= k < j ==> !p(#[trigger] chars[k]);
    assert(0 <= j < chars.len() && p(chars[j]) && forall|k: int| 0 <= k < j ==> !p(#[trigger] chars[k]));
    if j < i {
        assert(!p(chars[j]));
    } else if j > i {
        assert(!p(chars[i]));
    }
}

fn find_first_uuid(chars: &[CharInfo]) -> (r: Option<usize>)
    ensures
        r == first_index(chars@, |c: CharInfo| c.uuid == WRITE_CHAR_UUID),
        r matches Some(i) ==> i < chars@.len(),
{
    let ghost p = |c: CharInfo| c.uuid == WRITE_CHAR_UUID;
    let mut i: usize = 0;
    while i < chars.len()
        invariant
            i <= chars@.len(),
            p == (|c: CharInfo| c.uuid == WRITE_CHAR_UUID),
            forall|k: int| 0 <= k < i ==> !p(#[trigger] chars@[k]),
        decreases chars@.len() - i,
    {
        if chars[i].uuid == WRITE_CHAR_UUID {
            proof { lemma_first_index_is(chars@, p, i as int); }
            return Some(i);
        }
        i = i + 1;
    }
    None
}

fn find_first_write_without_response(chars: &[CharInfo]) -> (r: Option<usize>)
    ensures
        r == first_index(chars@, |c: CharInfo| c.write_without_response),
        r matches Some(i) ==> i < chars@.len(),
{
    let ghost p = |c: CharInfo| c.write_without_response;
    let mut i: usize = 0;
    while i < chars.len()
        invariant
            i <= chars@.len(),
            p == (|c: CharInfo| c.write_without_response),
            forall|k: int| 0 <= k < i ==> !p(#[trigger] chars@[k]),
        decreases chars@.len() - i,
    {
        if chars[i].write_without_response {
            proof { lemma_first_index_is(chars@, p, i as int); }
            return Some(i);
        }
        i = i + 1;
    }
    None
}

/// Pick the characteristic to write print data to (see
/// `spec_select_write_characteristic`); `None` when the printer has none.
pub fn select_write_characteristic(chars: &[CharInfo]) -> (r: Option<usize>)
    ensures
        r == spec_select_write_characteristic(chars@),
        r matches Some(i) ==> i < chars@.len(),
        // The Phomemo characteristic wins, the first one if there are several.
        (exists|k: int| 0 <= k < chars@.len() && (#[trigger] chars@[k]).uuid == WRITE_CHAR_UUID) ==>
            (r matches Some(i) && chars@[i as int].uuid == WRITE_CHAR_UUID
                && forall|k: int| 0 <= k < i ==> (#[trigger] chars@[k]).uuid != WRITE_CHAR_UUID),
        // Else the first that takes writes without response.
        !(exists|k: int| 0 <= k < chars@.len() && (#[trigger] chars@[k]).uuid == WRITE_CHAR_UUID) ==> (
            (exists|k: int| 0 <= k < chars@.len() && (#[trigger] chars@[k]).write_without_response) ==>
                (r matches Some(i) && chars@[i as int].write_without_response
                    && forall|k: int| 0 <= k < i ==> !(#[trigger] chars@[k]).write_without_response)),
        // None only when neither is there.
        r is None <==> forall|k: int| 0 <= k < chars@.len() ==>
            (#[trigger] chars@[k]).uuid != WRITE_CHAR_UUID && !chars@[k].write_without_response,
{
    let r = match find_first_uuid(chars) {
        Some(i) => Some(i),
        None => find_first_write_without_response(chars),
    };
    proof {
        assert(chars@.len() <= usize::MAX) by {
            let n = chars.len();
        }
        let pu = |c: CharInfo| c.uuid == WRITE_CHAR_UUID;
        let pw = |c: CharInfo| c.write_without_response;
        lemma_first_index_spec(chars@, pu);
        lemma_first_index_spec(chars@, pw);
        if r is None {
            assert forall|k: int| 0 <= k < chars@.len() implies
                (#[trigger] chars@[k]).uuid != WRITE_CHAR_UUID && !chars@[k].write_without_response by {
                assert(!pu(chars@[k]));
                assert(!pw(chars@[k]));
            }
        } else {
            if forall|k: int| 0 <= k < chars@.len() ==>
                (#[trigger] chars@[k]).uuid != WRITE_CHAR_UUID && !chars@[k].write_without_response {
                let i = r->Some_0 as int;
                assert(chars@[i].uuid != WRITE_CHAR_UUID && !chars@[i].write_without_response);
            }
        }
    }
    r
}

/// `first_index` gives the first item that satisfies `p`, and `None`
/// exactly when none does.
proof fn lemma_first_index_spec(chars: Seq<CharInfo>, p: spec_fn(CharInfo) -> bool)
    requires
        chars.len() <= usize::MAX,
    ensures
        first_index(chars, p) matches Some(i) ==> i < chars.len() && p(chars[i as int])
            && forall|k: int| 0 <= k < i ==> !p(#[trigger] chars[k]),
        first_index(chars, p) is None <==> forall|k: int| 0 <= k < chars.len() ==> !p(#[trigger] chars[k]),
{
    if exists|i: int| 0 <= i < chars.len() && p(#[trigger] chars[i]) {
        let w = choose|i: int| 0 <= i < chars.len() && p(#[trigger] chars[i]);
        assert(exists|j: int| 0 <= j < chars.len() && p(#[trigger] chars[j]) && forall|k: int| 0 <= k < j ==> !p(#[trigger] chars[k])) by {
            lemma_least_index(chars, p, w);
        }
        let j = choose|j: int| 0 <= j < chars.len() && p(#[trigger] chars[j]) && forall|k: int| 0 <= k < j ==> !p(#[trigger] chars[k]);
        assert(first_index(chars, p) == Some(j as usize));
        assert(j as usize as int == j);
    }
}

proof fn lemma_least_index(chars: Seq<CharInfo>, p: spec_fn(CharInfo) -> bool, w: int)
    requires
        0 <= w < chars.len(),
        p(chars[w]),
    ensures
        exists|j: int| 0 <= j < chars.len() && p(#[trigger] chars[j]) && forall|k: int| 0 <= k < j ==> !p(#[trigger] chars[k]),
    decreases w,
{
    if exists|k: int| 0 <= k < w && p(#[trigger] chars[k]) {
        let k = choose|k: int| 0 <= k < w && p(#[trigger] chars[k]);
        lemma_least_index(chars, p, k);
    } else {
        assert(forall|k: int| 0 <= k < w ==> !p(#[trigger] chars[k]));
    }
}

/// How one chunk of print data goes over GATT.
#[derive(Clone, Copy, Debug)]
pub enum ChunkWrite {
    /// Write with response: a sync barrier that waits for the printer.
    WithResponse,
    /// Write without response and go on at once.
    WithoutResponse,
    /// Write without response, then pause (no sync barrier possible).
    WithoutResponseThenPause,
}

/// Hybrid flow control: when the characteristic takes writes with response,
/// chunks 8, 16, 24, ... are written with response and the others without;
/// when it does not, every chunk is written without response and followed
/// by a pause.
pub open spec fn spec_chunk_write(can_sync: bool, index: usize) -> ChunkWrite {
    if can_sync && index > 0 && index % 8 == 0 {
        ChunkWrite::WithResponse
    } else if can_sync {
        ChunkWrite::WithoutResponse
    } else {
        ChunkWrite::WithoutResponseThenPause
    }
}

/// How to write chunk `index` of a job.
pub fn chunk_write(can_sync: bool, index: usize) -> (w: ChunkWrite)
    ensures
        w == spec_chunk_write(can_sync, index),
        // A sync barrier exactly on chunks 8, 16, 24, ...
        can_sync ==> ((w is WithResponse) <==> (index > 0 && index % 8 == 0)),
        can_sync ==> !(w is WithoutResponseThenPause),
        !can_sync ==> w is WithoutResponseThenPause,
{
    let is_sync = can_sync && index > 0 && index % BLE_SYNC_INTERVAL == 0;
    if is_sync {
        ChunkWrite::WithResponse
    } else if can_sync {
        ChunkWrite::WithoutResponse
    } else {
        ChunkWrite::WithoutResponseThenPause
    }
}

/// Hybrid flow control over any run of chunks: with a characteristic that
/// takes writes with response, chunk 0 and every chunk whose index is not a
/// multiple of 8 go without response and without a pause, and the pattern
/// repeats every 8 chunks, so each 8 consecutive chunks after the first
/// hold exactly one sync barrier; without one, every chunk is followed by a
/// pause.
pub proof fn lemma_chunk_write_pattern(i: usize)
    ensures
        spec_chunk_write(true, 0) == ChunkWrite::WithoutResponse,
        i % 8 != 0 ==> spec_chunk_write(true, i) == ChunkWrite::WithoutResponse,
        i > 0 && i % 8 == 0 ==> spec_chunk_write(true, i) == ChunkWrite::WithResponse,
        i > 0 && i + 8 <= usize::MAX ==> spec_chunk_write(true, (i + 8) as usize) == spec_chunk_write(true, i),
        spec_chunk_write(false, i) == ChunkWrite::WithoutResponseThenPause,
        i + 8 <= usize::MAX ==> (exists|k: int| i < k <= i + 8 && #[trigger] spec_chunk_write(true, k as usize) == ChunkWrite::WithResponse),
        i + 8 <= usize::MAX ==> forall|k1: int, k2: int| i < k1 < k2 <= i + 8
            && #[trigger] spec_chunk_write(true, k1 as usize) == ChunkWrite::WithResponse
            ==> #[trigger] spec_chunk_write(true, k2 as usize) != ChunkWrite::WithResponse,
{
    if i + 8 <= usize::MAX {
        let k = i + 8 - (i % 8);
        assert(k % 8 == 0 && k > 0);
        assert(spec_chunk_write(true, k as usize) == ChunkWrite::WithResponse);
    }
    if i + 8 <= usize::MAX {
        assert forall|k1: int, k2: int| i < k1 < k2 <= i + 8
            && #[trigger] spec_chunk_write(true, k1 as usize) == ChunkWrite::WithResponse
            implies #[trigger] spec_chunk_write(true, k2 as usize) != ChunkWrite::WithResponse by {
            assert(k1 % 8 == 0);
            if k2 % 8 == 0 {
                assert(false) by (nonlinear_arith)
                    requires k1 % 8 == 0, k2 % 8 == 0, k1 < k2, k2 < k1 + 8;
            }
        }
    }
}

/// Advertised-name prefixes of Phomemo printers: M110, M120, M220, M02,
/// D30, T02 and Q0.
pub open spec fn phomemo_name_prefixes() -> Seq<Seq<u8>> {
    seq![
        seq![0x4du8, 0x31u8, 0x31u8, 0x30u8],
        seq![0x4du8, 0x31u8, 0x32u8, 0x30u8],
        seq![0x4du8, 0x32u8, 0x32u8, 0x30u8],
        seq![0x4du8, 0x30u8, 0x32u8],
        seq![0x44u8, 0x33u8, 0x30u8],
        seq![0x54u8, 0x30u8, 0x32u8],
        seq![0x51u8, 0x30u8],
    ]
}

/// Whether a BLE peripheral with this advertised name is a Phomemo printer.
pub fn is_phomemo_name(name: &str) -> (b: bool)
    ensures
        b == exists|k: int| 0 <= k < phomemo_name_prefixes().len()
            && has_prefix(name.spec_bytes(), #[trigger] phomemo_name_prefixes()[k]),
{
    let bytes = name.as_bytes();
    let m110: [u8; 4] = [0x4d, 0x31, 0x31, 0x30];
    let m120: [u8; 4] = [0x4d, 0x31, 0x32, 0x30];
    let m220: [u8; 4] = [0x4d, 0x32, 0x32, 0x30];
    let m02: [u8; 3] = [0x4d, 0x30, 0x32];
    let d30: [u8; 3] = [0x44, 0x33, 0x30];
    let t02: [u8; 3] = [0x54, 0x30, 0x32];
    let q0: [u8; 2] = [0x51, 0x30];
    let ghost ps = phomemo_name_prefixes();
    assert(m110@ =~= ps[0]);
    assert(m120@ =~= ps[1]);
    assert(m220@ =~= ps[2]);
    assert(m02@ =~= ps[3]);
    assert(d30@ =~= ps[4]);
    assert(t02@ =~= ps[5]);
    assert(q0@ =~= ps[6]);
    let b = starts_with(bytes, m110.as_slice())
        || starts_with(bytes, m120.as_slice())
        || starts_with(bytes, m220.as_slice())
        || starts_with(bytes, m02.as_slice())
        || starts_with(bytes, d30.as_slice())
        || starts_with(bytes, t02.as_slice())
        || starts_with(bytes, q0.as_slice());
    proof {
        if b {
        } else {
            assert forall|k: int| 0 <= k < ps.len() implies !has_prefix(name.spec_bytes(), #[trigger] ps[k]) by {
                assert(k == 0 || k == 1 || k == 2 || k == 3 || k == 4 || k == 5 || k == 6);
            }
        }
    }
    b
}

/// `phomemo-ble://`: the scheme of the BLE backend's device URIs.
pub open spec fn ble_uri_scheme() -> Seq<u8> {
    seq![0x70u8, 0x68u8, 0x6fu8, 0x6du8, 0x65u8, 0x6du8, 0x6fu8, 0x2du8, 0x62u8, 0x6cu8, 0x65u8, 0x3au8, 0x2fu8, 0x2fu8]
}

/// Byte offset in a device URI where the printer's advertised name starts:
/// after `phomemo-ble://` when the URI has that scheme, else 0 (the whole
/// URI is taken as the name).
pub fn ble_device_name_start(uri: &str) -> (start: usize)
    ensures
        start == if has_prefix(uri.spec_bytes(), ble_uri_scheme()) { 14usize } else { 0usize },
{
    let scheme: [u8; 14] = [0x70, 0x68, 0x6f, 0x6d, 0x65, 0x6d, 0x6f, 0x2d, 0x62, 0x6c, 0x65, 0x3a, 0x2f, 0x2f];
    assert(scheme@ =~= ble_uri_scheme());
    if starts_with(uri.as_bytes(), scheme.as_slice()) {
        14
    } else {
        0
    }
}

/// The CUPS backend discovery line for a printer advertised as `name`.
pub open spec fn spec_discovery_line(name: Seq<char>) -> Seq<char> {
    "direct phomemo-ble://"@ + name + " \"Phomemo BLE ("@ + name + ")\" \"Phomemo Label Printer BLE ("@
        + name + ")\" \"MFG:Phomemo;CMD:ESCPOS;\""@
}

/// The line that tells CUPS about a printer found by a discovery scan.
pub fn discovery_line(name: &str) -> (s: String)
    ensures
        s@ == spec_discovery_line(name@),
{
    let mut out: Vec<char> = Vec::new();
    push_str(&mut out, "direct phomemo-ble://");
    push_str(&mut out, name);
    push_str(&mut out, " \"Phomemo BLE (");
    push_str(&mut out, name);
    push_str(&mut out, ")\" \"Phomemo Label Printer BLE (");
    push_str(&mut out, name);
    push_str(&mut out, ")\" \"MFG:Phomemo;CMD:ESCPOS;\"");
    chars_to_string(out.as_slice())
}

/// Index of the first peripheral advertised under `device_name`, if any.
pub open spec fn spec_find_peripheral(names: Seq<Option<String>>, device_name: Seq<char>) -> Option<usize> {
    if exists|i: int| 0 <= i < names.len() && names_match(#[trigger] names[i], device_name) {
        let i = choose|i: int| 0 <= i < names.len() && names_match(#[trigger] names[i], device_name)
            && forall|k: int| 0 <= k < i ==> !names_match(#[trigger] names[k], device_name);
        Some(i as usize)
    } else {
        None
    }
}

/// A peripheral's advertised name is `device_name`.
pub open spec fn names_match(name: Option<String>, device_name: Seq<char>) -> bool {
    name matches Some(n) && n@ == device_name
}

/// Find the printer among scanned peripherals by their advertised names.
pub fn find_peripheral(names: &[Option<String>], device_name: &str) -> (r: Option<usize>)
    ensures
        r == spec_find_peripheral(names@, device_name@),
        r matches Some(i) ==> i < names@.len(),
{
    let target = device_name.to_owned();
    let mut i: usize = 0;
    while i < names.len()
        invariant
            i <= names@.len(),
            target@ == device_name@,
            forall|k: int| 0 <= k < i ==> !names_match(#[trigger] names@[k], device_name@),
        decreases names@.len() - i,
    {
        let hit = match &names[i] {
            Some(n) => *n == target,
            None => false,
        };
        if hit {
            proof {
                let j = choose|j: int| 0 <= j < names@.len() && names_match(#[trigger] names@[j], device_name@)
                    && forall|k: int| 0 <= k < j ==> !names_match(#[trigger] names@[k], device_name@);
                assert(names_match(names@[i as int], device_name@));
                if j < i {
                    assert(!names_match(names@[j], device_name@));
                } else if j > i {
                    assert(!names_match(names@[i as int], device_name@));
                }
            }
            return Some(i);
        }
        i = i + 1;
    }
    None
}

} // verus!
