use lolb::dns::buffer::{BytePacketBuffer, DnsError};

fn buffer_with(bytes: &[u8]) -> BytePacketBuffer {
    let mut buffer = BytePacketBuffer::new();
    buffer.buf[..bytes.len()].copy_from_slice(bytes);
    buffer
}

#[test]
fn new_buffer_is_zeroed() {
    let buffer = BytePacketBuffer::new();
    assert_eq!(buffer.pos(), 0);
    assert!(buffer.buf.iter().all(|b| *b == 0));
    assert_eq!(buffer.buf.len(), 512);
}

#[test]
fn read_moves_the_cursor_and_stops_at_the_end() {
    let mut buffer = buffer_with(&[7, 8]);
    assert_eq!(buffer.read(), Ok(7));
    assert_eq!(buffer.read(), Ok(8));
    assert_eq!(buffer.pos(), 2);
    buffer.seek(511).unwrap();
    assert_eq!(buffer.read(), Ok(0));
    assert_eq!(buffer.read(), Err(DnsError::EndOfBuffer));
    assert_eq!(buffer.pos(), 512);
}

#[test]
fn get_and_get_range() {
    let buffer = buffer_with(&[1, 2, 3, 4, 5]);
    assert_eq!(buffer.get(2), Ok(3));
    assert_eq!(buffer.get(512), Err(DnsError::EndOfBuffer));
    assert_eq!(buffer.get_range(1, 3).unwrap(), &[2, 3, 4][..]);
    assert_eq!(buffer.get_range(0, 511).unwrap().len(), 511);
    assert!(buffer.get_range(0, 512).is_err());
    assert!(buffer.get_range(500, 12).is_err());
    assert!(buffer.get_range(usize::MAX, 2).is_err());
}

#[test]
fn numbers_are_big_endian() {
    let mut buffer = buffer_with(&[0x12, 0x34, 0xde, 0xad, 0xbe, 0xef]);
    assert_eq!(buffer.read_u16(), Ok(0x1234));
    assert_eq!(buffer.read_u32(), Ok(0xdead_beef));
    assert_eq!(buffer.pos(), 6);

    let mut out = BytePacketBuffer::new();
    out.write_u16(0x1234).unwrap();
    out.write_u32(0xdead_beef).unwrap();
    out.write_u8(0x7f).unwrap();
    assert_eq!(&out.buf[..7], &[0x12, 0x34, 0xde, 0xad, 0xbe, 0xef, 0x7f]);
    assert_eq!(out.pos(), 7);
}

#[test]
fn a_number_that_does_not_fit_fails_at_the_end() {
    let mut buffer = BytePacketBuffer::new();
    buffer.seek(511).unwrap();
    assert_eq!(buffer.read_u16(), Err(DnsError::EndOfBuffer));
    assert_eq!(buffer.pos(), 512);
    buffer.seek(510).unwrap();
    assert_eq!(buffer.write_u32(0x0102_0304), Err(DnsError::EndOfBuffer));
    assert_eq!(buffer.pos(), 512);
    assert_eq!(&buffer.buf[510..], &[1, 2]);
}

#[test]
fn set_overwrites_in_place() {
    let mut buffer = BytePacketBuffer::new();
    buffer.step(10).unwrap();
    buffer.set(3, 9).unwrap();
    buffer.set_u16(4, 0xabcd).unwrap();
    assert_eq!(&buffer.buf[3..6], &[9, 0xab, 0xcd]);
    assert_eq!(buffer.pos(), 10);
}

#[test]
fn read_qname_joins_labels_in_lower_case() {
    let mut buffer = buffer_with(b"\x03WwW\x07Example\x03com\x00rest");
    let mut name = String::new();
    assert_eq!(buffer.read_qname(&mut name), Ok(()));
    assert_eq!(name, "www.example.com");
    assert_eq!(buffer.pos(), 17);
}

#[test]
fn read_qname_replaces_what_is_not_utf8() {
    let mut buffer = buffer_with(b"\x02a\xff\x00");
    let mut name = String::new();
    assert_eq!(buffer.read_qname(&mut name), Ok(()));
    assert_eq!(name, "a\u{fffd}");
}

#[test]
fn read_qname_appends_to_what_is_there() {
    let mut buffer = buffer_with(b"\x01a\x01b\x00");
    let mut name = String::from("x");
    buffer.read_qname(&mut name).unwrap();
    assert_eq!(name, "xa.b");
}

#[test]
fn read_qname_follows_a_pointer_and_stops_behind_it() {
    // "com" at 0, "example" + pointer to 0 at 5
    let mut buffer = buffer_with(b"\x03com\x00\x07example\xc0\x00tail");
    buffer.seek(5).unwrap();
    let mut name = String::new();
    assert_eq!(buffer.read_qname(&mut name), Ok(()));
    assert_eq!(name, "example.com");
    assert_eq!(buffer.pos(), 15);
}

#[test]
fn read_qname_refuses_a_pointer_that_leads_in_a_circle() {
    let mut buffer = buffer_with(b"\xc0\x00");
    let mut name = String::new();
    assert_eq!(buffer.read_qname(&mut name), Err(DnsError::PointerLoop));
    assert_eq!(buffer.pos(), 2);
    assert_eq!(name, "");
}

#[test]
fn read_qname_fails_where_a_label_runs_off_the_buffer() {
    let mut buffer = BytePacketBuffer::new();
    buffer.buf[500] = 20;
    buffer.seek(500).unwrap();
    let mut name = String::new();
    assert_eq!(buffer.read_qname(&mut name), Err(DnsError::EndOfBuffer));
    assert_eq!(buffer.pos(), 500);
}

#[test]
fn write_qname_writes_labels_behind_their_lengths() {
    let mut buffer = BytePacketBuffer::new();
    assert_eq!(buffer.write_qname("www.example.com"), Ok(()));
    assert_eq!(&buffer.buf[..17], b"\x03www\x07example\x03com\x00");
    assert_eq!(buffer.pos(), 17);
}

#[test]
fn write_qname_of_the_empty_name_writes_an_empty_label_and_the_end() {
    let mut buffer = BytePacketBuffer::new();
    buffer.buf[0] = 9;
    buffer.buf[1] = 9;
    assert_eq!(buffer.write_qname(""), Ok(()));
    assert_eq!(&buffer.buf[..2], &[0, 0]);
    assert_eq!(buffer.pos(), 2);
}

#[test]
fn write_qname_refuses_a_label_of_more_than_0x34_bytes() {
    let long = "a".repeat(0x35);
    let name = format!("ok.{}.com", long);
    let mut buffer = BytePacketBuffer::new();
    assert_eq!(buffer.write_qname(&name), Err(DnsError::LabelTooLong));
    assert_eq!(&buffer.buf[..3], b"\x02ok");
    assert_eq!(buffer.pos(), 3);

    let fits = "a".repeat(0x34);
    let mut buffer = BytePacketBuffer::new();
    assert_eq!(buffer.write_qname(&fits), Ok(()));
    assert_eq!(buffer.pos(), 0x34 + 2);
}

#[test]
fn write_qname_fails_where_the_buffer_ends() {
    let mut buffer = BytePacketBuffer::new();
    buffer.seek(509).unwrap();
    assert_eq!(buffer.write_qname("abcd"), Err(DnsError::EndOfBuffer));
    assert_eq!(&buffer.buf[509..], b"\x04ab");
    assert_eq!(buffer.pos(), 512);
}

#[test]
fn a_name_that_was_written_reads_back() {
    let mut buffer = BytePacketBuffer::new();
    buffer.write_qname("svc.example.com").unwrap();
    buffer.seek(0).unwrap();
    let mut name = String::new();
    buffer.read_qname(&mut name).unwrap();
    assert_eq!(name, "svc.example.com");
}
