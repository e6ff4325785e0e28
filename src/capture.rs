//! Framing of a USB packet-capture byte stream: record headers, the USB
//! header that follows each, and the pointer reports they carry.
use vstd::prelude::*;
use crate::mouse_event::{
    le_i16_at, le_u16_at, le_u32_at, read_i16_le, read_u16_le, read_u32_le, read_u64_le,
};

verus! {

/// Bytes of the USB capture header.
pub const USB_HEADER_LEN: usize = 27;

/// Bytes of a record header.
pub const RECORD_HEADER_LEN: usize = 16;

/// Bytes of a pointer report with its report id.
pub const REPORT_LEN: u32 = 8;

/// The USB capture header that starts each record's data.
#[derive(Debug, Clone, Copy)]
pub struct UsbPcapHeader {
    pub header_len: u16,
    pub irp_id: u64,
    pub status: u32,
    pub function: u16,
    pub info: u8,
    pub bus_id: u16,
    pub device_address: u16,
    pub endpoint: u8,
    pub direction_in: bool,
    pub transfer_type: u8,
    pub data_length: u32,
}

/// The header that the first 27 bytes of `s` hold.
pub open spec fn usb_header_of(s: Seq<u8>, h: UsbPcapHeader) -> bool {
    &&& h.header_len as int == le_u16_at(s, 0)
    &&& h.irp_id as int == le_u32_at(s, 2) + 4294967296 * le_u32_at(s, 6)
    &&& h.status as int == le_u32_at(s, 10)
    &&& h.function as int == le_u16_at(s, 14)
    &&& h.info == s[16]
    &&& h.bus_id as int == le_u16_at(s, 17)
    &&& h.device_address as int == le_u16_at(s, 19)
    &&& h.endpoint == s[21] & 0x7f
    &&& h.direction_in == (s[21] & 0x80 != 0)
    &&& h.transfer_type == s[22]
    &&& h.data_length as int == le_u32_at(s, 23)
}

impl UsbPcapHeader {
    /// Reads the header from the front of `data`; also returns its length.
    pub fn parse(data: &[u8]) -> (r: Option<(UsbPcapHeader, usize)>)
        ensures
            r.is_none() <==> data@.len() < USB_HEADER_LEN,
            r matches Some((h, used)) ==> used == USB_HEADER_LEN && usb_header_of(data@, h),
    {
        if data.len() < USB_HEADER_LEN {
            return None;
        }
        let raw_endpoint = data[21];
        let h = UsbPcapHeader {
            header_len: read_u16_le(data, 0),
            irp_id: read_u64_le(data, 2),
            status: read_u32_le(data, 10),
            function: read_u16_le(data, 14),
            info: data[16],
            bus_id: read_u16_le(data, 17),
            device_address: read_u16_le(data, 19),
            endpoint: raw_endpoint & 0x7f,
            direction_in: (raw_endpoint & 0x80) != 0,
            transfer_type: data[22],
            data_length: read_u32_le(data, 23),
        };
        Some((h, USB_HEADER_LEN))
    }

    /// The transfer goes from the device to the host.
    pub fn is_in_direction(&self) -> (r: bool)
        ensures
            r == self.direction_in,
    {
        self.direction_in
    }
}

/// The device whose reports are kept: bus, address and endpoint number.
#[derive(Debug, Clone, Copy)]
pub struct TargetDevice {
    pub bus_id: u16,
    pub device_address: u16,
    pub endpoint: u8,
}

/// A pointer report taken from the capture, with its record's timestamp.
#[derive(Debug, Clone, Copy)]
pub struct CapturedMove {
    pub ts_sec: u32,
    pub ts_usec: u32,
    pub dx: i16,
    pub dy: i16,
}

/// What the record at `off` of `buf` contributes: none when its USB header
/// is short, the transfer is not an 8-byte IN transfer, or it comes from
/// another device than `target`; otherwise the displacement in bytes 2..6 of
/// its payload.
pub open spec fn record_move(buf: Seq<u8>, off: int, target: Option<TargetDevice>) -> Option<CapturedMove> {
    let data = buf.subrange(off + RECORD_HEADER_LEN, off + RECORD_HEADER_LEN + le_u32_at(buf, off + 8));
    let payload = data.subrange(USB_HEADER_LEN as int, data.len() as int);
    if data.len() < USB_HEADER_LEN {
        None
    } else if !(data[21] & 0x80 != 0) || le_u32_at(data, 23) != REPORT_LEN || payload.len() < 8 {
        None
    } else if target matches Some(t) && (le_u16_at(data, 17) != t.bus_id || le_u16_at(data, 19) != t.device_address
        || data[21] & 0x7f != t.endpoint) {
        None
    } else {
        Some(CapturedMove {
            ts_sec: le_u32_at(buf, off) as u32,
            ts_usec: le_u32_at(buf, off + 4) as u32,
            dx: le_i16_at(payload, 2) as i16,
            dy: le_i16_at(payload, 4) as i16,
        })
    }
}

/// The complete records of `buf` from `off` on: the moves they carry and
/// where the first incomplete record begins.
pub open spec fn scan_records(buf: Seq<u8>, off: int, target: Option<TargetDevice>) -> (Seq<CapturedMove>, int)
    decreases buf.len() - off,
{
    if off < 0 || off + RECORD_HEADER_LEN > buf.len() {
        (Seq::empty(), off)
    } else {
        let next = off + RECORD_HEADER_LEN + le_u32_at(buf, off + 8);
        if next > buf.len() {
            (Seq::empty(), off)
        } else {
            let rest = scan_records(buf, next, target);
            match record_move(buf, off, target) {
                Some(m) => (seq![m] + rest.0, rest.1),
                None => rest,
            }
        }
    }
}

fn record_move_exec(buf: &[u8], off: usize, end: usize, target: Option<TargetDevice>) -> (r: Option<CapturedMove>)
    requires
        off + RECORD_HEADER_LEN <= end <= buf@.len(),
        end == off + RECORD_HEADER_LEN + le_u32_at(buf@, off + 8),
    ensures
        r == record_move(buf@, off as int, target),
{
    let ts_sec = read_u32_le(buf, off);
    let ts_usec = read_u32_le(buf, off + 4);
    let data = vstd::slice::slice_subrange(buf, off + RECORD_HEADER_LEN, end);
    match UsbPcapHeader::parse(data) {
        None => None,
        Some((usb, used)) => {
            let payload = vstd::slice::slice_subrange(data, used, data.len());
            if !usb.is_in_direction() || usb.data_length != REPORT_LEN || payload.len() < 8 {
                return None;
            }
            let wanted = match target {
                Some(t) => t.bus_id == usb.bus_id && t.device_address == usb.device_address && t.endpoint
                    == usb.endpoint,
                None => true,
            };
            if !wanted {
                return None;
            }
            Some(CapturedMove { ts_sec, ts_usec, dx: read_i16_le(payload, 2), dy: read_i16_le(payload, 4) })
        },
    }
}

/// Reads every complete record of `buf`; returns the moves they carry and
/// the number of bytes consumed, which is where the first incomplete record
/// begins.
pub fn drain_records(buf: &[u8], target: Option<TargetDevice>) -> (r: (Vec<CapturedMove>, usize))
    ensures
        r.0@ == scan_records(buf@, 0, target).0,
        r.1 as int == scan_records(buf@, 0, target).1,
{
    let mut moves: Vec<CapturedMove> = Vec::new();
    let mut offset: usize = 0;
    let len = buf.len();
    let mut done = false;
    assert(moves@ + scan_records(buf@, 0, target).0 =~= scan_records(buf@, 0, target).0);
    while !done && offset <= len && RECORD_HEADER_LEN <= len - offset
        invariant
            offset <= len == buf@.len(),
            done ==> scan_records(buf@, offset as int, target) == (Seq::<CapturedMove>::empty(), offset as int),
            scan_records(buf@, 0, target) == (moves@ + scan_records(buf@, offset as int, target).0,
                scan_records(buf@, offset as int, target).1),
        decreases len - offset + if done { 0int } else { 1int },
    {
        let incl = read_u32_le(buf, offset + 8) as u64;
        if incl > (len - offset - RECORD_HEADER_LEN) as u64 {
            assert(scan_records(buf@, offset as int, target) == (Seq::<CapturedMove>::empty(), offset as int));
            done = true;
        } else {
            let next = offset + RECORD_HEADER_LEN + incl as usize;
            let m = record_move_exec(buf, offset, next, target);
            let ghost prev = moves@;
            let ghost rest = scan_records(buf@, next as int, target);
            if let Some(mv) = m {
                moves.push(mv);
                assert(prev + (seq![mv] + rest.0) =~= moves@ + rest.0);
            }
            offset = next;
        }
    }
    proof {
        if offset + RECORD_HEADER_LEN > len {
            assert(scan_records(buf@, offset as int, target) == (Seq::<CapturedMove>::empty(), offset as int));
        }
        assert(moves@ + Seq::<CapturedMove>::empty() =~= moves@);
    }
    (moves, offset)
}

} // verus!
