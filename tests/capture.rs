use mouse_tester::capture::{drain_records, TargetDevice, UsbPcapHeader};

fn usb_header(bus: u16, addr: u16, raw_endpoint: u8, data_length: u32) -> Vec<u8> {
    let mut h = Vec::new();
    h.extend_from_slice(&27u16.to_le_bytes());
    h.extend_from_slice(&0x0102_0304_0506_0708u64.to_le_bytes());
    h.extend_from_slice(&0u32.to_le_bytes());
    h.extend_from_slice(&9u16.to_le_bytes());
    h.push(1);
    h.extend_from_slice(&bus.to_le_bytes());
    h.extend_from_slice(&addr.to_le_bytes());
    h.push(raw_endpoint);
    h.push(1);
    h.extend_from_slice(&data_length.to_le_bytes());
    h
}

fn record(ts_sec: u32, ts_usec: u32, data: &[u8]) -> Vec<u8> {
    let mut r = Vec::new();
    r.extend_from_slice(&ts_sec.to_le_bytes());
    r.extend_from_slice(&ts_usec.to_le_bytes());
    r.extend_from_slice(&(data.len() as u32).to_le_bytes());
    r.extend_from_slice(&(data.len() as u32).to_le_bytes());
    r.extend_from_slice(data);
    r
}

fn report(bus: u16, addr: u16, raw_endpoint: u8, dx: i16, dy: i16) -> Vec<u8> {
    let mut d = usb_header(bus, addr, raw_endpoint, 8);
    d.extend_from_slice(&[1, 0]);
    d.extend_from_slice(&dx.to_le_bytes());
    d.extend_from_slice(&dy.to_le_bytes());
    d.extend_from_slice(&[0, 0]);
    d
}

#[test]
fn usb_header_fields_are_read() {
    let h = usb_header(3, 7, 0x82, 8);
    let (u, used) = UsbPcapHeader::parse(&h).unwrap();
    assert_eq!(used, 27);
    assert_eq!((u.header_len, u.irp_id, u.function, u.info), (27, 0x0102_0304_0506_0708, 9, 1));
    assert_eq!((u.bus_id, u.device_address, u.endpoint, u.transfer_type, u.data_length), (3, 7, 2, 1, 8));
    assert!(u.is_in_direction());
    let out = usb_header(3, 7, 0x02, 8);
    assert!(!UsbPcapHeader::parse(&out).unwrap().0.is_in_direction());
    assert!(UsbPcapHeader::parse(&h[..26]).is_none());
}

#[test]
fn records_of_the_target_device_are_kept() {
    let target = TargetDevice { bus_id: 1, device_address: 5, endpoint: 1 };
    let mut buf = Vec::new();
    buf.extend(record(10, 100, &report(1, 5, 0x81, 3, -4)));
    buf.extend(record(10, 200, &report(1, 6, 0x81, 9, 9)));
    buf.extend(record(10, 300, &report(1, 5, 0x01, 9, 9)));
    buf.extend(record(10, 400, &report(1, 5, 0x81, -1, 2)));
    let complete = buf.len();
    let partial = record(11, 0, &report(1, 5, 0x81, 7, 7));
    buf.extend_from_slice(&partial[..20]);
    let (moves, consumed) = drain_records(&buf, Some(target));
    assert_eq!(consumed, complete);
    let got: Vec<(u32, u32, i16, i16)> = moves.iter().map(|m| (m.ts_sec, m.ts_usec, m.dx, m.dy)).collect();
    assert_eq!(got, vec![(10, 100, 3, -4), (10, 400, -1, 2)]);
    let (all, _) = drain_records(&buf, None);
    assert_eq!(all.len(), 3);
}

#[test]
fn short_or_foreign_records_carry_nothing() {
    let mut buf = Vec::new();
    buf.extend(record(1, 0, &[0u8; 10]));
    let mut long = usb_header(1, 5, 0x81, 16);
    long.extend_from_slice(&[0u8; 16]);
    buf.extend(record(1, 1, &long));
    let (moves, consumed) = drain_records(&buf, None);
    assert!(moves.is_empty());
    assert_eq!(consumed, buf.len());
    let (none, at) = drain_records(&buf[..15], None);
    assert!(none.is_empty());
    assert_eq!(at, 0);
}
