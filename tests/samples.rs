use mouse_tester::mouse_event::{MouseMoveEvent, PcapRecordHeader};
use mouse_tester::parser::{parse_auto, parse_with_report_id, parse_without_report_id};

fn header(ts_sec: u32, ts_usec: u32) -> PcapRecordHeader {
    PcapRecordHeader { ts_sec, ts_usec, incl_len: 8, orig_len: 8 }
}

#[test]
fn time_micros_combines_seconds_and_micros() {
    let e = MouseMoveEvent::new(1, -2, 3, 250_000, false, 0, [false; 5], 0, 0);
    assert_eq!(e.time_micros(), 3_250_000);
    let late = MouseMoveEvent::new(0, 0, u32::MAX, 999_999, false, 0, [false; 5], 0, 0);
    assert_eq!(late.time_micros(), (u32::MAX as u64) * 1_000_000 + 999_999);
}

#[test]
fn alter_time_keeps_everything_but_the_time() {
    let e = MouseMoveEvent::new(7, -9, 1, 2, true, 4, [true, false, true, false, false], -1, 2);
    let moved = MouseMoveEvent::alter_time(e, 10, 20);
    assert_eq!((moved.dx, moved.dy, moved.ts_sec, moved.ts_usec), (7, -9, 10, 20));
    assert_eq!((moved.has_report_id, moved.report_id, moved.wheel, moved.pan), (true, 4, -1, 2));
    assert_eq!(moved.buttons_state, [true, false, true, false, false]);
    let stamped = MouseMoveEvent::from_pcap_header(e, &header(5, 6));
    assert_eq!((stamped.ts_sec, stamped.ts_usec, stamped.dx), (5, 6, 7));
}

#[test]
fn record_header_reads_four_little_endian_words() {
    let bytes: Vec<u8> = vec![1, 0, 0, 0, 0x40, 0x42, 0x0f, 0, 8, 0, 0, 0, 0xff, 0xff, 0xff, 0xff, 99];
    let (h, used) = PcapRecordHeader::parse(&bytes).unwrap();
    assert_eq!(used, 16);
    assert_eq!((h.ts_sec, h.ts_usec, h.incl_len, h.orig_len), (1, 1_000_000, 8, u32::MAX));
    assert!(PcapRecordHeader::parse(&bytes[..15]).is_none());
}

#[test]
fn report_with_id_decodes_fields() {
    let payload: Vec<u8> = vec![2, 0xe5, 0xfe, 0xff, 0x10, 0x00, 0x81, 0x7f];
    let e = parse_with_report_id(&payload, &header(3, 4)).unwrap();
    assert_eq!((e.dx, e.dy, e.wheel, e.pan), (-2, 16, -127, 127));
    assert!(e.has_report_id);
    assert_eq!(e.report_id, 2);
    assert_eq!(e.buttons_state, [true, false, true, false, false]);
    assert_eq!((e.ts_sec, e.ts_usec), (3, 4));
    assert!(parse_with_report_id(&payload[..7], &header(3, 4)).is_none());
}

#[test]
fn report_without_id_decodes_fields() {
    let payload: Vec<u8> = vec![0x1f, 0x00, 0x80, 0x01, 0x00, 0xff, 0x00];
    let e = parse_without_report_id(&payload, &header(0, 9)).unwrap();
    assert_eq!((e.dx, e.dy, e.wheel, e.pan), (i16::MIN, 1, -1, 0));
    assert!(!e.has_report_id);
    assert_eq!(e.report_id, 0);
    assert_eq!(e.buttons_state, [true; 5]);
    assert!(parse_without_report_id(&payload[..6], &header(0, 9)).is_none());
}

#[test]
fn report_layout_follows_length() {
    let eight: Vec<u8> = vec![1, 0, 5, 0, 6, 0, 0, 0];
    let seven: Vec<u8> = vec![0, 5, 0, 6, 0, 0, 0];
    let a = parse_auto(&eight, &header(0, 0)).unwrap();
    let b = parse_auto(&seven, &header(0, 0)).unwrap();
    assert_eq!((a.dx, a.dy, a.has_report_id), (5, 6, true));
    assert_eq!((b.dx, b.dy, b.has_report_id), (5, 6, false));
    assert!(parse_auto(&[0u8; 9], &header(0, 0)).is_none());
    assert!(parse_auto(&[0u8; 6], &header(0, 0)).is_none());
}
