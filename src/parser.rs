//! Decoding of pointer reports (USB HID boot-protocol style) into samples.
use vstd::prelude::*;
use crate::mouse_event::{MouseMoveEvent, PcapRecordHeader, le_i16_at, byte_as_i8, read_i16_le, byte_to_i8};

verus! {

/// The five button bits of a report's button byte, lowest bit first.
pub open spec fn buttons_of(b: u8) -> [bool; 5] {
    [b & 1u8 != 0, b & 2u8 != 0, b & 4u8 != 0, b & 8u8 != 0, b & 16u8 != 0]
}

/// The sample that a report body beginning at `off` (buttons, dx, dy, wheel,
/// pan) decodes to.
pub open spec fn decoded_at(
    payload: Seq<u8>,
    off: int,
    rec: PcapRecordHeader,
    r: MouseMoveEvent,
) -> bool {
    &&& r.buttons_state == buttons_of(payload[off])
    &&& r.dx as int == le_i16_at(payload, off + 1)
    &&& r.dy as int == le_i16_at(payload, off + 3)
    &&& r.wheel as int == byte_as_i8(payload[off + 5])
    &&& r.pan as int == byte_as_i8(payload[off + 6])
    &&& r.ts_sec == rec.ts_sec
    &&& r.ts_usec == rec.ts_usec
}

fn decode_buttons(b: u8) -> (r: [bool; 5])
    ensures
        r == buttons_of(b),
{
    let buttons = b & 0x1F;
    assert(buttons & 1u8 == b & 1u8 && buttons & 2u8 == b & 2u8 && buttons & 4u8 == b & 4u8
        && buttons & 8u8 == b & 8u8 && buttons & 16u8 == b & 16u8) by (bit_vector)
        requires buttons == b & 0x1Fu8;
    [(buttons & 0x01) != 0, (buttons & 0x02) != 0, (buttons & 0x04) != 0, (buttons & 0x08) != 0, (buttons & 0x10) != 0]
}

fn decode_body(payload: &[u8], off: usize, rec: &PcapRecordHeader, has_report_id: bool, report_id: u8) -> (r: MouseMoveEvent)
    requires
        off + 7 <= payload@.len(),
    ensures
        decoded_at(payload@, off as int, *rec, r),
        r.has_report_id == has_report_id,
        r.report_id == report_id,
{
    let _ = payload.len();
    let buttons_state = decode_buttons(payload[off]);
    let dx = read_i16_le(payload, off + 1);
    let dy = read_i16_le(payload, off + 3);
    let wheel = byte_to_i8(payload[off + 5]);
    let pan = byte_to_i8(payload[off + 6]);
    MouseMoveEvent::new(dx, dy, rec.ts_sec, rec.ts_usec, has_report_id, report_id, buttons_state, wheel, pan)
}

/// Decodes an 8-byte report that starts with a report id:
/// id, buttons, dx (LE i16), dy (LE i16), wheel, pan.
pub fn parse_with_report_id(payload: &[u8], rec: &PcapRecordHeader) -> (r: Option<MouseMoveEvent>)
    ensures
        r.is_none() <==> payload@.len() < 8,
        r matches Some(e) ==> {
            &&& decoded_at(payload@, 1, *rec, e)
            &&& e.has_report_id
            &&& e.report_id == payload@[0]
        },
{
    if payload.len() < 8 {
        return None;
    }
    Some(decode_body(payload, 1, rec, true, payload[0]))
}

/// Decodes a 7-byte report without a report id:
/// buttons, dx (LE i16), dy (LE i16), wheel, pan.
pub fn parse_without_report_id(payload: &[u8], rec: &PcapRecordHeader) -> (r: Option<MouseMoveEvent>)
    ensures
        r.is_none() <==> payload@.len() < 7,
        r matches Some(e) ==> {
            &&& decoded_at(payload@, 0, *rec, e)
            &&& !e.has_report_id
            &&& e.report_id == 0
        },
{
    if payload.len() < 7 {
        return None;
    }
    Some(decode_body(payload, 0, rec, false, 0))
}

/// Picks the report layout from the payload length: 8 bytes carry a report
/// id, 7 bytes do not; any other length is not a pointer report.
pub fn parse_auto(payload: &[u8], rec: &PcapRecordHeader) -> (r: Option<MouseMoveEvent>)
    ensures
        r.is_some() <==> (payload@.len() == 8 || payload@.len() == 7),
        r matches Some(e) ==> {
            &&& payload@.len() == 8 ==> decoded_at(payload@, 1, *rec, e) && e.has_report_id
                && e.report_id == payload@[0]
            &&& payload@.len() == 7 ==> decoded_at(payload@, 0, *rec, e) && !e.has_report_id
                && e.report_id == 0
        },
{
    let n = payload.len();
    if n == 8 {
        parse_with_report_id(payload, rec)
    } else if n == 7 {
        parse_without_report_id(payload, rec)
    } else {
        None
    }
}

} // verus!
