use lolb::body::{read_chunk, Http11Body, RecvBody};
use lolb::chunked::{to_hex, ChunkedDecoder, ChunkedEncoder, MAX_READ_SIZE};
use lolb::conn::{read_full, write_all, Connection, HttpVersion, MemorySocket, Socket};
use lolb::error::{LolbError, ParseError};
use lolb::http11::BodyShape;
use lolb::limit::{LimitRead, LimitWrite};
use lolb::peek::Peekable;

fn socket(input: &[u8], step: usize) -> MemorySocket {
    MemorySocket::new(input.to_vec(), step)
}

fn decode_all(input: &[u8], step: usize) -> Result<(Vec<u8>, usize), LolbError> {
    let mut decoder = ChunkedDecoder::new(socket(input, step));
    let mut body = Vec::new();
    while let Some(piece) = decoder.data() {
        body.extend_from_slice(&piece?);
    }
    let unread = decoder.into_inner().unread();
    Ok((body, unread))
}

#[test]
fn the_memory_socket_hands_out_its_input_in_steps() {
    let mut s = socket(b"hello world", 4);
    let mut buf = [0u8; 8];
    assert_eq!(s.read(&mut buf).unwrap(), 4);
    assert_eq!(&buf[..4], b"hell");
    assert_eq!(s.unread(), 7);
    assert_eq!(read_full(&mut s, &mut buf).unwrap(), 7);
    assert_eq!(&buf[..7], b"o world");
    assert_eq!(s.read(&mut buf).unwrap(), 0);
    assert_eq!(s.write(b"abc").unwrap(), 3);
    write_all(&mut s, b"defghijk").unwrap();
    assert_eq!(s.written(), b"abcdefghijk");
}

#[test]
fn peek_then_read_returns_the_same_prefix_as_read_alone() {
    for step in [0usize, 1, 3, 7] {
        let data = b"0123456789abcdef";
        let mut peeked = Peekable::new(socket(data, step));
        let mut seen = [0u8; 10];
        assert_eq!(peeked.peek(&mut seen, |_: &[u8]| false).unwrap(), 10);
        assert_eq!(&seen, b"0123456789");
        let mut after = [0u8; 10];
        assert_eq!(read_full(&mut peeked, &mut after).unwrap(), 10);

        let mut plain = Peekable::new(socket(data, step));
        let mut alone = [0u8; 10];
        assert_eq!(read_full(&mut plain, &mut alone).unwrap(), 10);
        assert_eq!(after, alone);
        assert_eq!(after, seen);

        let mut rest = [0u8; 10];
        assert_eq!(read_full(&mut peeked, &mut rest).unwrap(), 6);
        assert_eq!(&rest[..6], b"abcdef");
    }
}

#[test]
fn peek_is_idempotent() {
    let mut peeked = Peekable::new(socket(b"abcdefgh", 2));
    let mut first = [0u8; 4];
    let mut second = [0u8; 4];
    assert_eq!(peeked.peek(&mut first, |_: &[u8]| false).unwrap(), 4);
    assert_eq!(peeked.peek(&mut second, |_: &[u8]| false).unwrap(), 4);
    assert_eq!(first, second);
    let mut longer = [0u8; 6];
    assert_eq!(peeked.peek(&mut longer, |_: &[u8]| false).unwrap(), 6);
    assert_eq!(&longer, b"abcdef");
    let mut shorter = [0u8; 2];
    assert_eq!(peeked.peek(&mut shorter, |_: &[u8]| false).unwrap(), 2);
    assert_eq!(&shorter, b"ab");
    let mut one = [0u8; 3];
    assert_eq!(peeked.read(&mut one).unwrap(), 3);
    assert_eq!(&one, b"abc");
}

#[test]
fn peek_stops_at_the_end_of_the_stream_or_when_told() {
    let mut short = Peekable::new(socket(b"abc", 0));
    let mut buf = [9u8; 8];
    assert_eq!(short.peek(&mut buf, |_: &[u8]| false).unwrap(), 3);
    assert_eq!(&buf, b"abc\x09\x09\x09\x09\x09");
    let mut all = [0u8; 8];
    assert_eq!(read_full(&mut short, &mut all).unwrap(), 3);

    let mut told = Peekable::new(socket(b"ab\ncdefgh", 1));
    let mut buf = [0u8; 8];
    let n = told.peek(&mut buf, |so_far: &[u8]| so_far.ends_with(b"\n")).unwrap();
    assert_eq!(n, 3);
    assert_eq!(&buf[..3], b"ab\n");

    let mut empty = Peekable::new(socket(b"", 0));
    assert_eq!(empty.peek(&mut buf, |_: &[u8]| true).unwrap(), 0);
    let mut none: [u8; 0] = [];
    assert_eq!(told.peek(&mut none, |_: &[u8]| false).unwrap(), 0);
}

#[test]
fn a_peek_buffer_comes_apart() {
    let mut peeked = Peekable::new(socket(b"abcdefgh", 0));
    let mut seen = [0u8; 4];
    peeked.peek(&mut seen, |_: &[u8]| false).unwrap();
    let mut one = [0u8; 1];
    peeked.read(&mut one).unwrap();
    let (held, rest) = peeked.into_parts();
    assert_eq!(held, b"bcd");
    assert_eq!(rest.unread(), 4);
}

#[test]
fn writes_pass_through_the_peek_buffer() {
    let mut peeked = Peekable::new(socket(b"in", 0));
    write_all(&mut peeked, b"out").unwrap();
    assert_eq!(peeked.into_inner().written(), b"out");
}

#[test]
fn a_connection_keeps_what_it_was_made_with() {
    let mut conn = Connection::new(socket(b"abc", 0), HttpVersion::Http2, true);
    assert_eq!(conn.http_version(), HttpVersion::Http2);
    assert!(conn.is_secure());
    let mut buf = [0u8; 2];
    assert_eq!(conn.socket().peek(&mut buf, |_: &[u8]| false).unwrap(), 2);
    let mut all = [0u8; 3];
    assert_eq!(read_full(&mut conn.into_socket(), &mut all).unwrap(), 3);
    assert_eq!(&all, b"abc");
}

#[test]
fn hexadecimal_sizes() {
    assert_eq!(to_hex(0), b"0");
    assert_eq!(to_hex(9), b"9");
    assert_eq!(to_hex(10), b"a");
    assert_eq!(to_hex(11), b"b");
    assert_eq!(to_hex(255), b"ff");
    assert_eq!(to_hex(4096), b"1000");
    assert_eq!(to_hex(0xdead_beef), b"deadbeef");
}

#[test]
fn the_encoder_frames_chunks() {
    let mut encoder = ChunkedEncoder(socket(b"", 0));
    encoder.send_chunk(b"hel").unwrap();
    encoder.send_chunk(b"lo world!!!").unwrap();
    encoder.send_finish().unwrap();
    assert_eq!(encoder.0.written(), b"3\r\nhel\r\nb\r\nlo world!!!\r\n0\r\n\r\n");
}

#[test]
fn the_decoder_reads_chunks() {
    let wire = b"3\r\nhel\r\nb\r\nlo world!!!\r\n0\r\n\r\n";
    for step in [0usize, 1, 2, 5] {
        let mut decoder = ChunkedDecoder::new(socket(wire, step));
        assert_eq!(decoder.data().unwrap().unwrap(), b"hel");
        assert_eq!(decoder.data().unwrap().unwrap(), b"lo world!!!");
        assert!(decoder.data().is_none());
        assert_eq!(decoder.into_inner().unread(), 0);
    }
}

#[test]
fn what_the_encoder_writes_the_decoder_reads_back() {
    let chunks: Vec<Vec<u8>> = vec![
        b"a".to_vec(),
        vec![0x0a; 17],
        b"0\r\n\r\n".to_vec(),
        (0..=255u8).collect(),
        vec![7; 70_000],
    ];
    let mut encoder = ChunkedEncoder(socket(b"", 0));
    for chunk in &chunks {
        encoder.send_chunk(chunk).unwrap();
    }
    encoder.send_finish().unwrap();
    let wire = encoder.0.written().clone();
    let (body, unread) = decode_all(&wire, 1000).unwrap();
    assert_eq!(body, chunks.concat());
    assert_eq!(unread, 0);
}

#[test]
fn a_chunk_above_the_read_size_comes_in_pieces() {
    let mut wire = to_hex(MAX_READ_SIZE + 5);
    wire.extend_from_slice(b"\r\n");
    wire.extend(std::iter::repeat(b'x').take(MAX_READ_SIZE + 5));
    wire.extend_from_slice(b"\r\n0\r\n\r\n");
    let mut decoder = ChunkedDecoder::new(socket(&wire, 0));
    assert_eq!(decoder.data().unwrap().unwrap().len(), MAX_READ_SIZE);
    assert_eq!(decoder.data().unwrap().unwrap(), b"xxxxx");
    assert!(decoder.data().is_none());
}

#[test]
fn chunk_sizes_are_hexadecimal_in_either_case_and_may_carry_extensions() {
    let (body, _) = decode_all(b"A\r\n0123456789\r\n0\r\n\r\n", 0).unwrap();
    assert_eq!(body, b"0123456789");
    let (body, _) = decode_all(b"1a\r\nabcdefghijklmnopqrstuvwxyz\r\n0\r\n\r\n", 0).unwrap();
    assert_eq!(body, b"abcdefghijklmnopqrstuvwxyz");
    let (body, _) = decode_all(b"a1\r\n", 0).unwrap_or_default();
    assert!(body.is_empty());
    let (body, _) = decode_all(b"3;name=value\r\nabc\r\n0\r\n\r\n", 0).unwrap();
    assert_eq!(body, b"abc");
    let (body, _) = decode_all(b"0003\r\nabc\r\n00\r\n\r\n", 0).unwrap();
    assert_eq!(body, b"abc");
}

#[test]
fn a_size_that_is_no_number_is_a_parse_error() {
    for wire in [&b"x\r\nabc\r\n"[..], b"\r\nabc\r\n", b";\r\n", b"fffffffffffffffff\r\nabc\r\n", b" 3\r\nabc\r\n"] {
        let got = decode_all(wire, 0);
        assert!(
            matches!(got, Err(LolbError::Http11Parse(ParseError::ChunkSize))),
            "{:?}",
            wire
        );
    }
}

#[test]
fn a_stream_that_ends_inside_a_chunk_is_a_parse_error() {
    for wire in [&b""[..], b"3", b"3\r", b"3\r\nab", b"3\r\nabc", b"3\r\nabc\r", b"3\r\nabc\r\n", b"3\r\nabc\r\n0", b"3\r\nabc\r\n0\r\n", b"0\r\n\r"] {
        let got = decode_all(wire, 0);
        assert!(
            matches!(got, Err(LolbError::Http11Parse(ParseError::ShortRead))),
            "{:?}",
            wire
        );
    }
}

#[test]
fn a_limited_reader_stops_at_its_limit() {
    let mut reader = LimitRead::new(socket(b"hello world", 0), 5);
    let mut buf = [0u8; 8];
    assert_eq!(reader.read(&mut buf).unwrap(), 5);
    assert_eq!(&buf[..5], b"hello");
    assert_eq!(reader.read(&mut buf).unwrap(), 0);
    assert_eq!(reader.into_inner().unread(), 6);

    let mut reader = LimitRead::new(socket(b"hello world", 2), 5);
    assert_eq!(read_chunk(&mut reader).unwrap().unwrap(), b"he");
    assert_eq!(read_chunk(&mut reader).unwrap().unwrap(), b"ll");
    assert_eq!(read_chunk(&mut reader).unwrap().unwrap(), b"o");
    assert!(read_chunk(&mut reader).is_none());

    let mut short = LimitRead::new(socket(b"he", 0), 5);
    assert_eq!(read_chunk(&mut short).unwrap().unwrap(), b"he");
    assert!(read_chunk(&mut short).is_none());
    let mut none = LimitRead::new(socket(b"he", 0), 0);
    assert!(read_chunk(&mut none).is_none());
}

#[test]
fn a_plain_body_comes_in_pieces_of_16_kib() {
    let data = vec![1u8; 40_000];
    let mut reader = LimitRead::new(socket(&data, 0), 40_000);
    assert_eq!(read_chunk(&mut reader).unwrap().unwrap().len(), 16_384);
    assert_eq!(read_chunk(&mut reader).unwrap().unwrap().len(), 16_384);
    assert_eq!(read_chunk(&mut reader).unwrap().unwrap().len(), 40_000 - 2 * 16_384);
    assert!(read_chunk(&mut reader).is_none());
}

#[test]
fn a_limited_writer_refuses_what_exceeds_its_limit() {
    let mut writer = LimitWrite::new(socket(b"", 0), 5);
    assert_eq!(writer.write(b"abc").unwrap(), 3);
    match writer.write(b"def") {
        Err(LolbError::LimitExceeded { total, limit }) => assert_eq!((total, limit), (6, 5)),
        other => panic!("{:?}", other),
    }
    assert_eq!(writer.write(b"de").unwrap(), 2);
    assert!(matches!(writer.write(b"f"), Err(LolbError::LimitExceeded { .. })));
    assert_eq!(writer.write(b"").unwrap(), 0);
    assert_eq!(writer.into_inner().written(), b"abcde");
}

#[test]
fn request_bodies_by_shape() {
    let plain = RecvBody::new(BodyShape::Plain(5), Peekable::new(socket(b"hello more", 0)));
    let mut plain = plain.ok().unwrap();
    assert_eq!(plain.data().unwrap().unwrap(), b"hello");
    assert!(plain.data().is_none());
    assert!(plain.release_capacity(5).is_ok());
    let mut rest = [0u8; 8];
    assert_eq!(read_full(&mut plain.into_socket(), &mut rest).unwrap(), 5);
    assert_eq!(&rest[..5], b" more");

    let chunked = RecvBody::new(BodyShape::Chunked, Peekable::new(socket(b"2\r\nhi\r\n0\r\n\r\nnext", 0)));
    let mut chunked = chunked.ok().unwrap();
    assert_eq!(chunked.data().unwrap().unwrap(), b"hi");
    assert!(chunked.data().is_none());

    assert!(RecvBody::new(BodyShape::Http2, Peekable::new(socket(b"", 0))).is_err());
}

#[test]
fn response_bodies_by_mode() {
    let mut none = Http11Body::NoBody(socket(b"", 0));
    none.send_chunk(b"dropped").unwrap();
    none.send_finish().unwrap();
    assert_eq!(none.into_socket().written(), b"");

    let mut limited = Http11Body::Limited(LimitWrite::new(socket(b"", 0), 5));
    limited.send_chunk(b"he").unwrap();
    assert!(matches!(limited.send_chunk(b"llo!"), Err(LolbError::LimitExceeded { .. })));
    limited.send_chunk(b"llo").unwrap();
    limited.send_finish().unwrap();
    assert_eq!(limited.into_socket().written(), b"hello");

    let mut chunked = Http11Body::Chunked(ChunkedEncoder(socket(b"", 0)));
    chunked.send_chunk(b"hello").unwrap();
    chunked.send_finish().unwrap();
    assert_eq!(chunked.into_socket().written(), b"5\r\nhello\r\n0\r\n\r\n");
}
