//! Pointer-motion samples and the capture record header that timestamps them.
use vstd::prelude::*;

verus! {

/// Little-endian value of the two bytes at `off`.
pub open spec fn le_u16_at(s: Seq<u8>, off: int) -> int {
    s[off] as int + 256 * (s[off + 1] as int)
}

/// Little-endian value of the four bytes at `off`.
pub open spec fn le_u32_at(s: Seq<u8>, off: int) -> int {
    le_u16_at(s, off) + 65536 * le_u16_at(s, off + 2)
}

/// Two's-complement reading of the little-endian 16-bit word at `off`.
pub open spec fn le_i16_at(s: Seq<u8>, off: int) -> int {
    let u = le_u16_at(s, off);
    if u >= 32768 { u - 65536 } else { u }
}

/// Two's-complement reading of one byte.
pub open spec fn byte_as_i8(b: u8) -> int {
    if b >= 128 { b as int - 256 } else { b as int }
}

/// The little-endian `u32` at `off`.
pub fn read_u32_le(data: &[u8], off: usize) -> (r: u32)
    requires
        off + 4 <= data@.len(),
    ensures
        r as int == le_u32_at(data@, off as int),
{
    let b0 = data[off] as u32;
    let b1 = data[off + 1] as u32;
    let b2 = data[off + 2] as u32;
    let b3 = data[off + 3] as u32;
    b0 + 256 * b1 + 65536 * b2 + 16777216 * b3
}

/// The little-endian `u16` at `off`.
pub fn read_u16_le(data: &[u8], off: usize) -> (r: u16)
    requires
        off + 2 <= data@.len(),
    ensures
        r as int == le_u16_at(data@, off as int),
{
    let b0 = data[off] as u16;
    let b1 = data[off + 1] as u16;
    b0 + 256 * b1
}

/// The little-endian `u64` at `off`.
pub fn read_u64_le(data: &[u8], off: usize) -> (r: u64)
    requires
        off + 8 <= data@.len(),
    ensures
        r as int == le_u32_at(data@, off as int) + 4294967296 * le_u32_at(data@, off + 4),
{
    let len = data.len();
    assert(off + 4 < len);
    let lo = read_u32_le(data, off) as u64;
    let hi = read_u32_le(data, off + 4) as u64;
    lo + 4294967296 * hi
}

/// The little-endian two's-complement `i16` at `off`.
pub fn read_i16_le(data: &[u8], off: usize) -> (r: i16)
    requires
        off + 2 <= data@.len(),
    ensures
        r as int == le_i16_at(data@, off as int),
{
    let u = read_u16_le(data, off);
    if u >= 32768 {
        (u as i32 - 65536) as i16
    } else {
        u as i16
    }
}

/// One byte read as a two's-complement `i8`.
pub fn byte_to_i8(b: u8) -> (r: i8)
    ensures
        r as int == byte_as_i8(b),
{
    if b >= 128 {
        (b as i16 - 256) as i8
    } else {
        b as i8
    }
}

/// The 16-byte header that precedes each record of a packet capture.
#[derive(Debug, Clone, Copy)]
pub struct PcapRecordHeader {
    pub ts_sec: u32,
    pub ts_usec: u32,
    pub incl_len: u32,
    pub orig_len: u32,
}

impl PcapRecordHeader {
    /// Reads a record header from the front of `data`; also returns the
    /// number of bytes it occupies.
    pub fn parse(data: &[u8]) -> (r: Option<(PcapRecordHeader, usize)>)
        ensures
            r.is_none() <==> data@.len() < 16,
            r matches Some((h, used)) ==> {
                &&& used == 16
                &&& h.ts_sec as int == le_u32_at(data@, 0)
                &&& h.ts_usec as int == le_u32_at(data@, 4)
                &&& h.incl_len as int == le_u32_at(data@, 8)
                &&& h.orig_len as int == le_u32_at(data@, 12)
            },
    {
        if data.len() < 16 {
            return None;
        }
        let h = PcapRecordHeader {
            ts_sec: read_u32_le(data, 0),
            ts_usec: read_u32_le(data, 4),
            incl_len: read_u32_le(data, 8),
            orig_len: read_u32_le(data, 12),
        };
        Some((h, 16))
    }
}

/// One pointer-motion sample: a displacement with its capture timestamp,
/// plus the button, wheel and pan state carried along as metadata.
#[derive(Debug, Clone, Copy)]
pub struct MouseMoveEvent {
    pub dx: i16,
    pub dy: i16,
    pub ts_sec: u32,
    pub ts_usec: u32,
    pub has_report_id: bool,
    pub report_id: u8,
    pub buttons_state: [bool; 5],
    pub wheel: i8,
    pub pan: i8,
}

/// Timestamp of a sample in microseconds.
pub open spec fn micros_of(ts_sec: u32, ts_usec: u32) -> int {
    ts_sec as int * 1_000_000 + ts_usec as int
}

impl MouseMoveEvent {
    /// Timestamp in microseconds.
    pub open spec fn time_micros_spec(&self) -> int {
        micros_of(self.ts_sec, self.ts_usec)
    }

    /// A sample with the given fields.
    pub fn new(
        dx: i16,
        dy: i16,
        ts_sec: u32,
        ts_usec: u32,
        has_report_id: bool,
        report_id: u8,
        buttons_state: [bool; 5],
        wheel: i8,
        pan: i8,
    ) -> (r: MouseMoveEvent)
        ensures
            r.dx == dx,
            r.dy == dy,
            r.ts_sec == ts_sec,
            r.ts_usec == ts_usec,
            r.has_report_id == has_report_id,
            r.report_id == report_id,
            r.buttons_state == buttons_state,
            r.wheel == wheel,
            r.pan == pan,
    {
        MouseMoveEvent { dx, dy, ts_sec, ts_usec, has_report_id, report_id, buttons_state, wheel, pan }
    }

    /// The same sample with its timestamp replaced.
    pub fn alter_time(event: MouseMoveEvent, ts_sec: u32, ts_usec: u32) -> (r: MouseMoveEvent)
        ensures
            r == (MouseMoveEvent { ts_sec, ts_usec, ..event }),
    {
        MouseMoveEvent {
            dx: event.dx,
            dy: event.dy,
            ts_sec,
            ts_usec,
            has_report_id: event.has_report_id,
            report_id: event.report_id,
            buttons_state: event.buttons_state,
            wheel: event.wheel,
            pan: event.pan,
        }
    }

    /// The same sample stamped with the time of a capture record.
    pub fn from_pcap_header(event: MouseMoveEvent, rec: &PcapRecordHeader) -> (r: MouseMoveEvent)
        ensures
            r == (MouseMoveEvent { ts_sec: rec.ts_sec, ts_usec: rec.ts_usec, ..event }),
    {
        Self::alter_time(event, rec.ts_sec, rec.ts_usec)
    }

    /// Timestamp in microseconds: `ts_sec * 10^6 + ts_usec`.
    pub fn time_micros(&self) -> (r: u64)
        ensures
            r as int == self.time_micros_spec(),
    {
        (self.ts_sec as u64) * 1_000_000 + (self.ts_usec as u64)
    }
}

} // verus!
