use lolb::dns::buffer::{BytePacketBuffer, DnsError};
use lolb::dns::header::{DnsHeader, DnsQuestion, QueryType, ResultCode};
use lolb::dns::packet::{DnsPacket, DnsRecord};
use lolb::dns::resolve::{lookup_regexp_hack, respond, AddressKey, AddressMatcher, IpValue, Lookup};

#[test]
fn result_codes_by_number() {
    assert_eq!(ResultCode::from_num(0), ResultCode::NOERROR);
    assert_eq!(ResultCode::from_num(1), ResultCode::FORMERR);
    assert_eq!(ResultCode::from_num(2), ResultCode::SERVFAIL);
    assert_eq!(ResultCode::from_num(3), ResultCode::NXDOMAIN);
    assert_eq!(ResultCode::from_num(4), ResultCode::NOTIMP);
    assert_eq!(ResultCode::from_num(5), ResultCode::REFUSED);
    assert_eq!(ResultCode::from_num(6), ResultCode::NOERROR);
    assert_eq!(ResultCode::from_num(255), ResultCode::NOERROR);
    for n in 0..6u8 {
        assert_eq!(ResultCode::from_num(n).to_num(), n);
    }
}

#[test]
fn query_types_by_number() {
    assert_eq!(QueryType::from_num(1), QueryType::A);
    assert_eq!(QueryType::from_num(2), QueryType::NS);
    assert_eq!(QueryType::from_num(5), QueryType::CNAME);
    assert_eq!(QueryType::from_num(15), QueryType::MX);
    assert_eq!(QueryType::from_num(28), QueryType::AAAA);
    assert_eq!(QueryType::from_num(99), QueryType::UNKNOWN(99));
    assert_eq!(QueryType::UNKNOWN(7).to_num(), 7);
    for n in [0u16, 1, 2, 3, 5, 15, 16, 28, 65535] {
        assert_eq!(QueryType::from_num(n).to_num(), n);
    }
}

#[test]
fn a_new_header_is_all_zero() {
    let header = DnsHeader::new();
    assert_eq!(header.id, 0);
    assert!(!header.response && !header.recursion_desired && !header.z);
    assert_eq!(header.rescode, ResultCode::NOERROR);
    assert_eq!(header.questions + header.answers, 0);
}

#[test]
fn header_bits_on_the_wire() {
    let mut header = DnsHeader::new();
    header.id = 0x1a2b;
    header.recursion_desired = true;
    header.authoritative_answer = true;
    header.opcode = 2;
    header.response = true;
    header.rescode = ResultCode::NXDOMAIN;
    header.authed_data = true;
    header.recursion_available = true;
    header.questions = 1;
    header.answers = 0x0203;
    header.authoritative_entries = 4;
    header.resource_entries = 5;
    let mut buffer = BytePacketBuffer::new();
    assert_eq!(header.write(&mut buffer), Ok(()));
    assert_eq!(buffer.pos(), 12);
    assert_eq!(
        &buffer.buf[..12],
        &[0x1a, 0x2b, 0x95, 0xa3, 0, 1, 2, 3, 0, 4, 0, 5]
    );

    buffer.seek(0).unwrap();
    let mut back = DnsHeader::new();
    assert_eq!(back.read(&mut buffer), Ok(()));
    assert_eq!(back.id, 0x1a2b);
    assert!(back.recursion_desired && back.authoritative_answer && back.response);
    assert!(!back.truncated_message && !back.checking_disabled && !back.z);
    assert!(back.authed_data && back.recursion_available);
    assert_eq!(back.opcode, 2);
    assert_eq!(back.rescode, ResultCode::NXDOMAIN);
    assert_eq!(
        (back.questions, back.answers, back.authoritative_entries, back.resource_entries),
        (1, 0x0203, 4, 5)
    );
}

#[test]
fn a_header_needs_twelve_bytes() {
    let mut buffer = BytePacketBuffer::new();
    buffer.seek(501).unwrap();
    assert_eq!(DnsHeader::new().write(&mut buffer), Err(DnsError::EndOfBuffer));
    assert_eq!(buffer.pos(), 512);
    buffer.seek(501).unwrap();
    let mut header = DnsHeader::new();
    assert_eq!(header.read(&mut buffer), Err(DnsError::EndOfBuffer));
    buffer.seek(500).unwrap();
    assert_eq!(header.read(&mut buffer), Ok(()));
}

#[test]
fn a_question_on_the_wire() {
    let question = DnsQuestion::new("a.bc".to_string(), QueryType::MX);
    let mut buffer = BytePacketBuffer::new();
    assert_eq!(question.write(&mut buffer), Ok(()));
    assert_eq!(&buffer.buf[..10], b"\x01a\x02bc\x00\x00\x0f\x00\x01");
    assert_eq!(buffer.pos(), 10);

    buffer.seek(0).unwrap();
    let mut back = DnsQuestion::new(String::new(), QueryType::UNKNOWN(0));
    assert_eq!(back.read(&mut buffer), Ok(()));
    assert_eq!(back, question);
    assert_eq!(buffer.pos(), 10);
}

fn round_trip(record: DnsRecord) -> (usize, DnsRecord) {
    let mut buffer = BytePacketBuffer::new();
    let written = record.write(&mut buffer).unwrap();
    assert_eq!(buffer.pos(), written);
    buffer.seek(0).unwrap();
    let back = DnsRecord::read(&mut buffer).unwrap();
    assert_eq!(buffer.pos(), written);
    (written, back)
}

#[test]
fn an_a_record_on_the_wire() {
    let record = DnsRecord::A { domain: "ab.c".to_string(), addr: [10, 0, 0, 7], ttl: 0x0102_0304 };
    let mut buffer = BytePacketBuffer::new();
    assert_eq!(record.write(&mut buffer), Ok(20));
    assert_eq!(
        &buffer.buf[..20],
        b"\x02ab\x01c\x00\x00\x01\x00\x01\x01\x02\x03\x04\x00\x04\x0a\x00\x00\x07"
    );
    let (_, back) = round_trip(record.clone());
    assert_eq!(back, record);
}

#[test]
fn an_aaaa_record_on_the_wire() {
    let record = DnsRecord::AAAA {
        domain: "x".to_string(),
        addr: [0x2001, 0x0db8, 0, 1, 2, 3, 0xfffe, 0xabcd],
        ttl: 60,
    };
    let mut buffer = BytePacketBuffer::new();
    assert_eq!(record.write(&mut buffer), Ok(3 + 10 + 16));
    assert_eq!(&buffer.buf[3..13], b"\x00\x1c\x00\x01\x00\x00\x00\x3c\x00\x10");
    assert_eq!(
        &buffer.buf[13..29],
        &[0x20, 0x01, 0x0d, 0xb8, 0, 0, 0, 1, 0, 2, 0, 3, 0xff, 0xfe, 0xab, 0xcd]
    );
    let (_, back) = round_trip(record.clone());
    assert_eq!(back, record);
}

#[test]
fn records_that_end_in_a_name_carry_the_length_of_their_data() {
    let ns = DnsRecord::NS { domain: "a".to_string(), host: "ns.a".to_string(), ttl: 1 };
    let mut buffer = BytePacketBuffer::new();
    assert_eq!(ns.write(&mut buffer), Ok(3 + 10 + 6));
    assert_eq!(&buffer.buf[3..5], &[0, 2]);
    assert_eq!(&buffer.buf[11..13], &[0, 6]);
    assert_eq!(&buffer.buf[13..19], b"\x02ns\x01a\x00");
    assert_eq!(round_trip(ns.clone()).1, ns);

    let cname = DnsRecord::CNAME { domain: "a".to_string(), host: "b".to_string(), ttl: 2 };
    let mut buffer = BytePacketBuffer::new();
    assert_eq!(cname.write(&mut buffer), Ok(3 + 10 + 3));
    assert_eq!(&buffer.buf[3..5], &[0, 5]);
    assert_eq!(&buffer.buf[11..13], &[0, 3]);
    assert_eq!(round_trip(cname.clone()).1, cname);

    let mx = DnsRecord::MX { domain: "a".to_string(), priority: 0x0a0b, host: "m.a".to_string(), ttl: 3 };
    let mut buffer = BytePacketBuffer::new();
    assert_eq!(mx.write(&mut buffer), Ok(3 + 10 + 2 + 5));
    assert_eq!(&buffer.buf[3..5], &[0, 15]);
    assert_eq!(&buffer.buf[11..13], &[0, 7]);
    assert_eq!(&buffer.buf[13..15], &[0x0a, 0x0b]);
    assert_eq!(round_trip(mx.clone()).1, mx);
}

#[test]
fn a_record_of_unknown_kind_is_passed_over() {
    let unknown = DnsRecord::UNKNOWN { domain: "a".to_string(), qtype: 99, data_len: 3, ttl: 9 };
    let mut buffer = BytePacketBuffer::new();
    buffer.seek(5).unwrap();
    assert_eq!(unknown.write(&mut buffer), Ok(0));
    assert_eq!(buffer.pos(), 5);

    let mut buffer = BytePacketBuffer::new();
    let bytes = b"\x01a\x00\x00\x63\x00\x01\x00\x00\x00\x09\x00\x03\xaa\xbb\xcc\x07";
    buffer.buf[..bytes.len()].copy_from_slice(bytes);
    assert_eq!(DnsRecord::read(&mut buffer), Ok(unknown));
    assert_eq!(buffer.pos(), 16);
}

#[test]
fn a_record_that_does_not_fit_fails() {
    let record = DnsRecord::A { domain: "ab.c".to_string(), addr: [1, 2, 3, 4], ttl: 0 };
    let mut buffer = BytePacketBuffer::new();
    buffer.seek(512 - 19).unwrap();
    assert_eq!(record.write(&mut buffer), Err(DnsError::EndOfBuffer));
    buffer.seek(512 - 20).unwrap();
    assert_eq!(record.write(&mut buffer), Ok(20));

    let long = DnsRecord::NS { domain: "a".to_string(), host: "b".repeat(0x35), ttl: 0 };
    let mut buffer = BytePacketBuffer::new();
    assert_eq!(long.write(&mut buffer), Err(DnsError::LabelTooLong));

    let mut buffer = BytePacketBuffer::new();
    buffer.buf[..3].copy_from_slice(b"\x01a\x00");
    buffer.seek(0).unwrap();
    let mut short = BytePacketBuffer::new();
    short.buf[505..508].copy_from_slice(b"\x01a\x00");
    short.seek(505).unwrap();
    assert_eq!(DnsRecord::read(&mut short), Err(DnsError::EndOfBuffer));
    assert_eq!(short.pos(), 512);
}

#[test]
fn a_packet_reads_back_as_it_was_written() {
    let mut packet = DnsPacket::new();
    packet.header.id = 6666;
    packet.header.recursion_desired = true;
    packet.questions.push(DnsQuestion::new("example.com".to_string(), QueryType::A));
    packet.answers.push(DnsRecord::A { domain: "example.com".to_string(), addr: [93, 184, 216, 34], ttl: 300 });
    packet.answers.push(DnsRecord::CNAME { domain: "w.example.com".to_string(), host: "example.com".to_string(), ttl: 5 });
    packet.authorities.push(DnsRecord::NS { domain: "example.com".to_string(), host: "ns.example.com".to_string(), ttl: 7 });
    packet.resources.push(DnsRecord::MX { domain: "example.com".to_string(), priority: 10, host: "mx.example.com".to_string(), ttl: 8 });

    let mut buffer = BytePacketBuffer::new();
    assert_eq!(packet.write(&mut buffer), Ok(()));
    assert_eq!(packet.header.questions, 1);
    assert_eq!(packet.header.answers, 2);
    assert_eq!(packet.header.authoritative_entries, 1);
    assert_eq!(packet.header.resource_entries, 1);
    let end = buffer.pos();

    buffer.seek(0).unwrap();
    let back = DnsPacket::from_buffer(&mut buffer).unwrap();
    assert_eq!(buffer.pos(), end);
    assert_eq!(back.header.id, 6666);
    assert!(back.header.recursion_desired);
    assert_eq!(back.questions, packet.questions);
    assert_eq!(back.answers, packet.answers);
    assert_eq!(back.authorities, packet.authorities);
    assert_eq!(back.resources, packet.resources);
}

#[test]
fn a_packet_that_counts_more_than_it_holds_fails() {
    let mut buffer = BytePacketBuffer::new();
    buffer.buf[4] = 0xff;
    buffer.buf[5] = 0xff;
    // 65535 questions of three bytes of name and four of kind and class
    assert_eq!(DnsPacket::from_buffer(&mut buffer).err(), Some(DnsError::EndOfBuffer));

    let mut empty = BytePacketBuffer::new();
    let packet = DnsPacket::from_buffer(&mut empty).unwrap();
    assert!(packet.questions.is_empty() && packet.answers.is_empty());
    assert_eq!(empty.pos(), 12);
}

#[test]
fn a_packet_too_large_for_the_buffer_fails() {
    let mut packet = DnsPacket::new();
    for _ in 0..40 {
        packet.answers.push(DnsRecord::A { domain: "example.com".to_string(), addr: [1, 1, 1, 1], ttl: 0 });
    }
    let mut buffer = BytePacketBuffer::new();
    assert_eq!(packet.write(&mut buffer), Err(DnsError::EndOfBuffer));
    assert_eq!(packet.header.answers, 40);
}

#[test]
fn lookup_answers_address_queries_only() {
    let found = lookup_regexp_hack("a.test", QueryType::A, Lookup::Address([127, 0, 0, 1]));
    assert_eq!(found.header.rescode, ResultCode::NOERROR);
    assert_eq!(
        found.answers,
        vec![DnsRecord::A { domain: "a.test".to_string(), addr: [127, 0, 0, 1], ttl: 0 }]
    );
    let v6 = lookup_regexp_hack("a.test", QueryType::AAAA, Lookup::Address([127, 0, 0, 1]));
    assert_eq!(v6.answers.len(), 1);

    let mx = lookup_regexp_hack("a.test", QueryType::MX, Lookup::Address([127, 0, 0, 1]));
    assert_eq!(mx.header.rescode, ResultCode::NOTIMP);
    assert!(mx.answers.is_empty());

    for failed in [Lookup::BadAddress, Lookup::NotFound, Lookup::Failed] {
        let none = lookup_regexp_hack("a.test", QueryType::A, failed);
        assert_eq!(none.header.rescode, ResultCode::SERVFAIL);
        assert!(none.answers.is_empty());
    }
}

#[test]
fn a_response_repeats_the_number_and_the_first_question() {
    let mut request = DnsPacket::new();
    request.header.id = 77;
    request.questions.push(DnsQuestion::new("a.test".to_string(), QueryType::A));
    request.questions.push(DnsQuestion::new("b.test".to_string(), QueryType::A));
    let response = respond(&request, Lookup::Address([10, 1, 2, 3]));
    assert_eq!(response.header.id, 77);
    assert!(response.header.response);
    assert!(response.header.recursion_desired && response.header.recursion_available);
    assert_eq!(response.header.rescode, ResultCode::NOERROR);
    assert_eq!(response.questions, vec![DnsQuestion::new("a.test".to_string(), QueryType::A)]);
    assert_eq!(
        response.answers,
        vec![DnsRecord::A { domain: "a.test".to_string(), addr: [10, 1, 2, 3], ttl: 0 }]
    );

    let empty = DnsPacket::new();
    let refused = respond(&empty, Lookup::Address([10, 1, 2, 3]));
    assert_eq!(refused.header.rescode, ResultCode::FORMERR);
    assert!(refused.header.response);
    assert!(refused.questions.is_empty() && refused.answers.is_empty());
}

#[test]
fn address_keys_are_names_or_patterns() {
    let raw = AddressKey::new("svc.test").unwrap();
    assert!(matches!(raw, AddressKey::Raw(_)));
    assert!(raw.is_match("svc.test"));
    assert!(!raw.is_match("svc.test.more"));
    assert!(!raw.is_match("a.svc.test"));

    let pattern = AddressKey::new("/^.*\\.svc\\.test$/").unwrap();
    assert!(matches!(pattern, AddressKey::Regex(_)));
    assert!(pattern.is_match("a.svc.test"));
    assert!(!pattern.is_match("a.svc.test.more"));
    assert!(!pattern.is_match("/^.*\\.svc\\.test$/"));

    assert!(AddressKey::new("/foo(bar/").is_err());
    assert!(matches!(AddressKey::new("/half").unwrap(), AddressKey::Raw(_)));
    let empty = AddressKey::new("//").unwrap();
    assert!(matches!(empty, AddressKey::Regex(_)));
    assert!(empty.is_match("anything"));
}

#[test]
fn ip_values_say_where_the_address_comes_from() {
    assert_eq!(IpValue::new("10.0.0.1"), IpValue::Raw("10.0.0.1".to_string()));
    assert_eq!(IpValue::new("`hostname -i`"), IpValue::Cmd("hostname -i".to_string()));
    assert_eq!(IpValue::new("env(MY_IP)"), IpValue::Env("MY_IP".to_string()));
    assert_eq!(IpValue::new("env()"), IpValue::Env(String::new()));
    assert_eq!(IpValue::new("env(x"), IpValue::Raw("env(x".to_string()));
    assert_eq!(IpValue::new("``"), IpValue::Cmd(String::new()));
    assert_eq!(IpValue::new(""), IpValue::Raw(String::new()));
}

#[test]
fn the_matcher_hands_out_the_first_entry_that_matches() {
    let config = vec![
        ("/^a\\./".to_string(), "10.0.0.1".to_string()),
        ("a.test".to_string(), "10.0.0.2".to_string()),
        ("b.test".to_string(), "`cmd`".to_string()),
    ];
    let matcher = AddressMatcher::new_from_config(&config).unwrap();
    assert_eq!(matcher.matches("a.test"), Some(&IpValue::Raw("10.0.0.1".to_string())));
    assert_eq!(matcher.matches("b.test"), Some(&IpValue::Cmd("cmd".to_string())));
    assert_eq!(matcher.matches("c.test"), None);

    let bad = vec![("/(/".to_string(), "10.0.0.1".to_string())];
    assert!(AddressMatcher::new_from_config(&bad).is_err());
}
