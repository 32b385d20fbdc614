use lolb::body::read_chunk;
use lolb::chunked::{ChunkedDecoder, ChunkedEncoder};
use lolb::conn::{after_write, read_full, write_all, Connection, HttpVersion, MemorySocket, Socket};
use lolb::dispatch::{
    after_request, discard_preauth, handle_client, handle_incoming, handle_service_auth, AuthError,
    Next,
};
use lolb::error::{LolbError, ParseError};
use lolb::http11::{parse_http11, Response};
use lolb::limit::{LimitRead, LimitWrite};
use lolb::peek::Peekable;
use lolb::persist::{load_preauthed, save_preauthed, MemoryPersist, Persist, PersistKey};
use lolb::respond::send_response_http1;
use lolb::serv_auth::{Preauthed, ReconnectKey};
use lolb::service::{Certificate, ServiceAuth, ServiceDomain, ServiceHost, Services};

#[test]
fn a_write_is_judged_by_what_the_socket_answered() {
    assert!(matches!(after_write(Ok(3), 5), Ok(3)));
    assert!(matches!(after_write(Ok(0), 0), Ok(0)));
    match after_write(Ok(0), 5) {
        Err(LolbError::Message(text)) => assert_eq!(text, "failed to write whole buffer"),
        other => panic!("{:?}", other),
    }
    let broken = std::io::Error::from(std::io::ErrorKind::BrokenPipe);
    match after_write(Err(broken), 5) {
        Err(LolbError::Io(e)) => assert_eq!(e.kind(), std::io::ErrorKind::BrokenPipe),
        other => panic!("{:?}", other),
    }
}

#[test]
fn a_chunk_goes_out_in_as_many_writes_as_it_takes() {
    let mut encoder = ChunkedEncoder(MemorySocket::new(Vec::new(), 1));
    encoder.send_chunk(b"hello").unwrap();
    encoder.send_finish().unwrap();
    assert_eq!(encoder.0.written(), b"5\r\nhello\r\n0\r\n\r\n");
    let mut one = MemorySocket::new(Vec::new(), 3);
    assert_eq!(one.write(b"abcdefg").unwrap(), 3);
    assert_eq!(one.write(b"ab").unwrap(), 2);
    assert_eq!(one.written(), b"abcab");
}

#[test]
fn a_socket_that_fails_ends_the_chunk_with_its_error() {
    let mut encoder = ChunkedEncoder(MemorySocket::failing(Vec::new(), 1, 4));
    match encoder.send_chunk(b"hello") {
        Err(LolbError::Io(e)) => assert_eq!(e.kind(), std::io::ErrorKind::BrokenPipe),
        other => panic!("{:?}", other),
    }
    assert_eq!(encoder.0.written(), b"5\r\nh");
    assert!(matches!(encoder.send_finish(), Err(LolbError::Io(_))));

    let mut socket = MemorySocket::failing(Vec::new(), 0, 0);
    assert!(matches!(write_all(&mut socket, b"x"), Err(LolbError::Io(_))));
    assert!(write_all(&mut socket, b"").is_ok());
    let response = Response { status: 200, headers: vec![] };
    assert!(matches!(
        send_response_http1(MemorySocket::failing(Vec::new(), 0, 0), response, true),
        Err(LolbError::Io(_))
    ));
    let mut writer = LimitWrite::new(MemorySocket::failing(Vec::new(), 0, 1), 10);
    assert_eq!(writer.write(b"abc").unwrap(), 3);
    assert!(matches!(writer.write(b"abc"), Err(LolbError::Io(_))));
    assert!(matches!(writer.write(b"0123456789"), Err(LolbError::LimitExceeded { .. })));
}

#[test]
fn what_is_buffered_is_had_without_the_socket() {
    let mut peeked = Peekable::new(MemorySocket::failing(b"abcdefgh".to_vec(), 4, 1));
    let mut four = [0u8; 4];
    assert_eq!(peeked.peek(&mut four, |_: &[u8]| false).unwrap(), 4);
    let mut two = [0u8; 2];
    assert_eq!(peeked.peek(&mut two, |_: &[u8]| false).unwrap(), 2);
    assert_eq!(&two, b"ab");
    let mut five = [7u8; 5];
    assert!(peeked.peek(&mut five, |_: &[u8]| false).is_err());
    assert_eq!(five, [7u8; 5]);
    let mut three = [0u8; 3];
    assert_eq!(peeked.read(&mut three).unwrap(), 3);
    assert_eq!(&three, b"abc");
    assert_eq!(peeked.read(&mut three).unwrap(), 1);
    assert_eq!(three[0], b'd');
    assert!(peeked.read(&mut three).is_err());
    assert!(peeked.write(b"x").is_err());
}

#[test]
fn peek_asks_after_each_read_and_stops_at_the_first_yes() {
    let asked = std::cell::RefCell::new(Vec::new());
    let mut peeked = Peekable::new(MemorySocket::new(b"0123456789".to_vec(), 2));
    let mut buf = [0u8; 9];
    let n = peeked
        .peek(&mut buf, |so_far: &[u8]| {
            asked.borrow_mut().push(so_far.to_vec());
            so_far.len() >= 4
        })
        .unwrap();
    assert_eq!(n, 4);
    assert_eq!(&buf[..4], b"0123");
    assert_eq!(*asked.borrow(), vec![b"01".to_vec(), b"0123".to_vec()]);
    assert_eq!(peeked.into_parts().1.unread(), 6);
}

#[test]
fn a_limit_that_is_reached_leaves_the_source_alone() {
    let mut reader = LimitRead::new(MemorySocket::failing(Vec::new(), 0, 0), 0);
    let mut buf = [9u8; 4];
    assert_eq!(reader.read(&mut buf).unwrap(), 0);
    assert_eq!(buf, [9u8; 4]);
    assert!(read_chunk(&mut reader).is_none());
    let mut open = LimitRead::new(MemorySocket::failing(Vec::new(), 0, 0), 1);
    assert!(open.read(&mut buf).is_err());
    assert!(matches!(read_chunk(&mut open), Some(Err(LolbError::Io(_)))));
    let mut none: [u8; 0] = [];
    assert_eq!(open.read(&mut none).unwrap(), 0);
}

#[test]
fn a_socket_that_fails_fails_what_reads_it() {
    let conn = |calls: usize| {
        Connection::new(
            MemorySocket::failing(b"GET / HTTP/1.1\r\nHost: x\r\n\r\n".to_vec(), 5, calls),
            HttpVersion::Unknown,
            false,
        )
    };
    assert!(matches!(handle_incoming(&mut conn(1)), Err(LolbError::Io(_))));
    assert!(matches!(handle_client(&mut conn(3)), Err(LolbError::Io(_))));
    assert!(matches!(parse_http11(&mut conn(2)), Err(LolbError::Io(_))));
    assert!(matches!(discard_preauth(&mut conn(0)), Err(LolbError::Io(_))));
    assert!(parse_http11(&mut conn(100)).unwrap().is_some());
    let mut buf = [0u8; 4];
    assert!(matches!(
        read_full(&mut MemorySocket::failing(b"abcd".to_vec(), 2, 1), &mut buf),
        Err(LolbError::Io(_))
    ));
    let mut decoder = ChunkedDecoder::new(MemorySocket::failing(b"3\r\nabc\r\n0\r\n\r\n".to_vec(), 0, 4));
    assert!(matches!(decoder.data(), Some(Err(LolbError::Io(_)))));
    let mut short = ChunkedDecoder::new(MemorySocket::new(b"0\r\n".to_vec(), 0));
    assert!(matches!(
        short.data(),
        Some(Err(LolbError::Http11Parse(ParseError::ShortRead)))
    ));
}

#[test]
fn a_store_that_fails_fails_the_redemption() {
    let mut store = MemoryPersist::new();
    save_preauthed(&mut store, ReconnectKey(1), b"x").unwrap();
    store.break_down();
    assert!(matches!(save_preauthed(&mut store, ReconnectKey(2), b"y"), Err(LolbError::Message(_))));
    assert!(matches!(load_preauthed(&mut store, ReconnectKey(1)), Err(LolbError::Message(_))));
    assert!(store.load(&PersistKey::ReconnectKey(1)).is_err());
}

#[test]
fn a_refusal_is_told_from_a_failure_of_the_store() {
    let mut services = Services::new();
    services.add_domain(ServiceDomain::new("example.com", ServiceAuth::PresharedKey("s3cret".to_string())));
    let claim = Preauthed::new(0, "example.com".to_string(), "svc.example.com".to_string(), "/".to_string());
    let mut store = MemoryPersist::new();
    let key = ReconnectKey(7);
    assert!(matches!(
        handle_service_auth(&services, &mut store, &claim, "wrong", key, b"r"),
        Err(AuthError::Refused)
    ));
    assert!(handle_service_auth(&services, &mut store, &claim, "s3cret", key, b"r").is_ok());
    store.break_down();
    match handle_service_auth(&services, &mut store, &claim, "s3cret", key, b"r") {
        Err(AuthError::Store(LolbError::Message(_))) => {}
        other => panic!("{:?}", other),
    }
    assert!(matches!(
        handle_service_auth(&services, &mut store, &claim, "wrong", key, b"r"),
        Err(AuthError::Refused)
    ));
    assert!(matches!(AuthError::Refused.into_error(), LolbError::Protocol(_)));
    assert!(matches!(
        AuthError::Store(LolbError::Message("down")).into_error(),
        LolbError::Message("down")
    ));
}

#[test]
fn what_follows_a_request() {
    assert_eq!(after_request(HttpVersion::Http11, &Ok(())), Next::NextRequest);
    assert_eq!(after_request(HttpVersion::Http2, &Ok(())), Next::NextRequest);
    let no_route = Err(LolbError::Message("No service accepted incoming request"));
    assert_eq!(
        after_request(HttpVersion::Http2, &no_route),
        Next::Answer { status: 502, close: false }
    );
    assert_eq!(
        after_request(HttpVersion::Http11, &no_route),
        Next::Answer { status: 502, close: true }
    );
    let malformed = Err(LolbError::Http11Parse(ParseError::MissingHost));
    assert_eq!(
        after_request(HttpVersion::Http11, &malformed),
        Next::Answer { status: 400, close: true }
    );
}

#[test]
fn errors_of_the_layers_around() {
    let h2 = LolbError::H2(h2::Error::from(h2::Reason::CANCEL));
    assert!(h2.message().starts_with("h2: "));
    assert!(h2.message().len() > 4);
    let acme = LolbError::Acme(acme_lib::Error::Other("no luck".to_string()));
    assert_eq!(acme.message(), "Acme: no luck");
}

#[test]
fn a_host_keeps_its_certificate() {
    let mut host = ServiceHost::new("h.example.com");
    assert!(host.cert().is_none());
    let cert = Certificate { private_key: "key".to_string(), certificate: "cert".to_string() };
    host.set_cert(cert.clone());
    assert_eq!(host.cert(), Some(&cert));
    assert_eq!(host.host(), "h.example.com");
}
