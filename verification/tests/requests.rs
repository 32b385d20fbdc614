use lolb::body::{Http11Body, RecvBody};
use lolb::bridge::{bridge_start, step, BridgeAction, BridgeEvent, BridgeState};
use lolb::conn::{Connection, HttpVersion, MemorySocket};
use lolb::dispatch::{
    add_preauthed_service, detect_version, discard_preauth, handle_client, handle_incoming,
    handle_service_auth, is_keep_alive, is_service_auth, read_preamble, request_to_service,
    status_for, write_key, Incoming, H2_PREFACE, PATH_KEEP_ALIVE, PATH_NODE_REGISTER,
};
use lolb::error::{LolbError, ParseError};
use lolb::http11::{
    find_header, is_chunked, normalize, parse_http11, remove_header, select_body, to_decimal,
    try_parse_http11, write_http11_response, BodyShape, Header, RawHead, Request, Response,
    HTTP11_PARSE_BUF_SIZE,
};
use lolb::persist::{accept_preauthed, load_preauthed, MemoryPersist, Persist, PersistKey};
use lolb::respond::{choose_body_mode, send_response_http1, BodyMode, Responder, Started};
use lolb::serv_auth::{Preauthed, ReconnectKey};
use lolb::serv_conn::ServiceConnection;
use lolb::service::{ServiceAuth, ServiceDomain, Services, PREAUTH_LEN, PREAUTH_PREFIX};

fn conn(input: &[u8], step: usize, version: HttpVersion, secure: bool) -> Connection<MemorySocket> {
    Connection::new(MemorySocket::new(input.to_vec(), step), version, secure)
}

fn header(name: &str, value: &[u8]) -> Header {
    Header { name: name.to_string(), value: value.to_vec() }
}

fn body_of(request: &Request, conn: Connection<MemorySocket>) -> Vec<u8> {
    let mut body = RecvBody::new(request.body, conn.into_socket()).ok().unwrap();
    let mut all = Vec::new();
    while let Some(piece) = body.data() {
        all.extend_from_slice(&piece.unwrap());
    }
    all
}

#[test]
fn http11_plain_body() {
    let input = b"POST /a HTTP/1.1\r\nHost: x.example\r\nContent-Length: 5\r\n\r\nhello";
    for step in [0usize, 1, 7] {
        let mut conn = conn(input, step, HttpVersion::Http11, false);
        let request = parse_http11(&mut conn).unwrap().unwrap();
        assert_eq!(request.authority(), "x.example");
        assert_eq!(request.host(), "x.example");
        assert_eq!(request.scheme, "http");
        assert_eq!(request.path(), "/a");
        assert_eq!(request.target.path_and_query, "/a");
        assert_eq!(request.method, "POST");
        assert_eq!(request.body, BodyShape::Plain(5));
        assert_eq!(request.headers, vec![header("content-length", b"5")]);
        assert_eq!(body_of(&request, conn), b"hello");
    }
}

#[test]
fn http11_chunked() {
    let input = b"POST /b HTTP/1.1\r\nHost: y.example\r\nTransfer-Encoding: chunked\r\n\r\n3\r\nhel\r\nb\r\nlo world!!!\r\n0\r\n\r\n";
    let mut conn = conn(input, 5, HttpVersion::Http11, true);
    let request = parse_http11(&mut conn).unwrap().unwrap();
    assert_eq!(request.authority(), "y.example");
    assert_eq!(request.scheme, "https");
    assert_eq!(request.path(), "/b");
    assert_eq!(request.body, BodyShape::Chunked);
    assert!(request.headers.is_empty());
    assert!(find_header(&request.headers, "transfer-encoding").is_none());
    assert_eq!(body_of(&request, conn), b"hello world!!!");
}

#[test]
fn requests_follow_one_another_on_a_connection() {
    let input = b"GET /one?x=1 HTTP/1.1\r\nHost: h.example:8080\r\n\r\nPOST /two HTTP/1.1\r\nhost: h.example\r\ncontent-length: 2\r\n\r\nhi";
    let mut c = conn(input, 0, HttpVersion::Http11, false);
    let first = parse_http11(&mut c).unwrap().unwrap();
    assert_eq!(first.method, "GET");
    assert_eq!(first.path(), "/one");
    assert_eq!(first.target.path_and_query, "/one?x=1");
    assert_eq!(first.authority(), "h.example:8080");
    assert_eq!(first.host(), "h.example");
    assert_eq!(first.body, BodyShape::Plain(0));
    let mut body = RecvBody::new(first.body, c.into_socket()).ok().unwrap();
    assert!(body.data().is_none());
    let mut again = Connection::resume(body.into_socket(), HttpVersion::Http11, false);
    let second = parse_http11(&mut again).unwrap().unwrap();
    assert_eq!(second.path(), "/two");
    assert_eq!(body_of(&second, again), b"hi");
}

#[test]
fn a_stream_that_has_ended_holds_no_request() {
    let mut empty = conn(b"", 0, HttpVersion::Http11, false);
    assert!(parse_http11(&mut empty).unwrap().is_none());
}

#[test]
fn a_head_that_does_not_end_fails() {
    let mut partial = conn(b"GET / HTTP/1.1\r\nHost: x", 0, HttpVersion::Http11, false);
    assert!(matches!(
        parse_http11(&mut partial),
        Err(LolbError::Http11Parse(ParseError::Incomplete))
    ));

    let mut huge = b"GET / HTTP/1.1\r\nHost: x\r\nX-Fill: ".to_vec();
    huge.resize(HTTP11_PARSE_BUF_SIZE + 10, b'a');
    let mut large = conn(&huge, 0, HttpVersion::Http11, false);
    assert!(matches!(
        parse_http11(&mut large),
        Err(LolbError::Http11Parse(ParseError::HeaderTooLarge))
    ));
}

#[test]
fn malformed_requests_fail() {
    let mut bad = conn(b"GET / HTTP/1.1\r\nBad Header\r\n\r\n", 0, HttpVersion::Http11, false);
    assert!(matches!(
        parse_http11(&mut bad),
        Err(LolbError::Http11Parse(ParseError::Head(_)))
    ));
    let mut no_host = conn(b"GET / HTTP/1.1\r\nAccept: x\r\n\r\n", 0, HttpVersion::Http11, false);
    assert!(matches!(
        parse_http11(&mut no_host),
        Err(LolbError::Http11Parse(ParseError::MissingHost))
    ));
    let mut bad_length = conn(
        b"POST / HTTP/1.1\r\nHost: x\r\nContent-Length: five\r\n\r\nhello",
        0,
        HttpVersion::Http11,
        false,
    );
    assert!(matches!(
        parse_http11(&mut bad_length),
        Err(LolbError::Http11Parse(ParseError::ContentLength))
    ));
}

#[test]
fn try_parse_tells_where_the_body_starts() {
    let input = b"GET /x HTTP/1.1\r\nHost: a.b\r\nX-One: 1\r\n\r\nbody";
    let (request, head_len) = try_parse_http11(input, "http").unwrap().unwrap();
    assert_eq!(head_len, input.len() - 4);
    assert_eq!(request.headers, vec![header("x-one", b"1")]);
    assert!(try_parse_http11(&input[..20], "http").unwrap().is_none());
    assert!(try_parse_http11(b"", "http").unwrap().is_none());
    assert!(try_parse_http11(b"\x00\x01", "http").is_err());
}

#[test]
fn normalize_turns_host_into_the_authority() {
    let head = RawHead {
        method: Some("PUT".to_string()),
        path: Some("/p/q?r=s".to_string()),
        headers: vec![
            header("Accept", b"*/*"),
            header("HOST", b"first.example"),
            header("X-Mixed-Case", b"Kept As Is"),
            header("hOsT", b"user@last.example:99"),
        ],
        head_len: 0,
    };
    let request = normalize(head, "https").unwrap();
    assert_eq!(request.method, "PUT");
    assert_eq!(request.scheme, "https");
    assert_eq!(request.authority(), "user@last.example:99");
    assert_eq!(request.host(), "last.example");
    assert_eq!(request.path(), "/p/q");
    assert_eq!(
        request.headers,
        vec![header("accept", b"*/*"), header("x-mixed-case", b"Kept As Is")]
    );
    assert_eq!(request.body, BodyShape::Plain(0));
}

#[test]
fn normalize_refuses_what_the_http_crate_refuses() {
    let good = |method: Option<&str>, path: Option<&str>, headers: Vec<Header>| RawHead {
        method: method.map(|m| m.to_string()),
        path: path.map(|p| p.to_string()),
        headers,
        head_len: 0,
    };
    let host = || header("host", b"x.example");
    assert!(normalize(good(Some("GET"), Some("/"), vec![host()]), "http").is_ok());
    assert_eq!(normalize(good(None, Some("/"), vec![host()]), "http").unwrap().method, "GET");
    assert!(matches!(
        normalize(good(Some("GE T"), Some("/"), vec![host()]), "http"),
        Err(LolbError::Http(_))
    ));
    assert!(matches!(
        normalize(good(Some("GET"), Some("/"), vec![host(), header("bad name", b"v")]), "http"),
        Err(LolbError::Http(_))
    ));
    assert!(matches!(
        normalize(good(Some("GET"), Some("/"), vec![host(), header("name", b"line\nbreak")]), "http"),
        Err(LolbError::Http(_))
    ));
    assert!(matches!(
        normalize(good(Some("GET"), Some("/"), vec![]), "http"),
        Err(LolbError::Http11Parse(ParseError::MissingHost))
    ));
    assert!(matches!(
        normalize(good(Some("GET"), None, vec![host()]), "http"),
        Err(LolbError::Http11Parse(ParseError::MissingTarget))
    ));
    assert!(matches!(
        normalize(good(Some("GET"), Some("/a b"), vec![host()]), "http"),
        Err(LolbError::Http(_))
    ));
    assert!(matches!(
        normalize(good(Some("GET"), Some("/"), vec![header("host", b"a b")]), "http"),
        Err(LolbError::Http(_))
    ));
}

#[test]
fn the_last_token_of_transfer_encoding_decides() {
    assert!(is_chunked(b"chunked"));
    assert!(is_chunked(b"Chunked"));
    assert!(is_chunked(b"gzip, chunked"));
    assert!(is_chunked(b"gzip,\tCHUNKED  "));
    assert!(!is_chunked(b"chunked, gzip"));
    assert!(!is_chunked(b"chunked,"));
    assert!(!is_chunked(b""));
    assert!(!is_chunked(b"chunke"));
    assert!(!is_chunked(b"xchunked"));
}

#[test]
fn the_body_is_chunked_or_has_a_length() {
    let request = |headers: Vec<Header>| {
        let head = RawHead {
            method: Some("POST".to_string()),
            path: Some("/".to_string()),
            headers: {
                let mut all = vec![header("host", b"x")];
                all.extend(headers);
                all
            },
            head_len: 0,
        };
        select_body(normalize(head, "http").unwrap())
    };
    assert_eq!(request(vec![]).unwrap().body, BodyShape::Plain(0));
    assert_eq!(request(vec![header("Content-Length", b"12")]).unwrap().body, BodyShape::Plain(12));
    let both = request(vec![
        header("Content-Length", b"12"),
        header("Transfer-Encoding", b"chunked"),
        header("transfer-encoding", b"gzip"),
    ])
    .unwrap();
    assert_eq!(both.body, BodyShape::Chunked);
    assert_eq!(both.headers, vec![header("content-length", b"12")]);
    let not_chunked = request(vec![header("Transfer-Encoding", b"gzip"), header("Content-Length", b"3")]).unwrap();
    assert_eq!(not_chunked.body, BodyShape::Plain(3));
    assert!(not_chunked.headers.iter().all(|h| h.name != "transfer-encoding"));
    assert!(matches!(
        request(vec![header("Content-Length", b"-1")]),
        Err(LolbError::Http11Parse(ParseError::ContentLength))
    ));
}

#[test]
fn headers_by_name() {
    let headers = vec![header("a", b"1"), header("b", b"2"), header("a", b"3")];
    assert_eq!(find_header(&headers, "a"), Some(&b"1".to_vec()));
    assert_eq!(find_header(&headers, "b"), Some(&b"2".to_vec()));
    assert_eq!(find_header(&headers, "c"), None);
    assert_eq!(remove_header(&headers, "a"), vec![header("b", b"2")]);
    assert_eq!(remove_header(&headers, "c"), headers);
}

#[test]
fn a_response_head_on_the_wire() {
    assert_eq!(to_decimal(0), b"0");
    assert_eq!(to_decimal(502), b"502");
    let response = Response {
        status: 200,
        headers: vec![header("content-type", b"text/plain"), header("x-a", b"b c")],
    };
    let mut out = b"before".to_vec();
    write_http11_response(&mut out, &response);
    assert_eq!(
        out,
        b"beforeHTTP/1.1 200 OK\r\ncontent-type: text/plain\r\nx-a: b c\r\n\r\n".to_vec()
    );
    let mut out = Vec::new();
    write_http11_response(&mut out, &Response { status: 502, headers: vec![] });
    assert_eq!(out, b"HTTP/1.1 502 Bad Gateway\r\n\r\n".to_vec());
    let mut out = Vec::new();
    write_http11_response(&mut out, &Response { status: 799, headers: vec![] });
    assert_eq!(out, b"HTTP/1.1 799 Unknown\r\n\r\n".to_vec());
    let mut out = Vec::new();
    write_http11_response(&mut out, &Response { status: 7, headers: vec![] });
    assert_eq!(out, b"HTTP/1.1 7 Unknown\r\n\r\n".to_vec());
}

#[test]
fn headers_survive_parsing_and_writing() {
    let input = b"GET / HTTP/1.1\r\nHost: x\r\nX-Trace-Id: AbC123\r\nAccept: text/html\r\n\r\n";
    let (request, _) = try_parse_http11(input, "http").unwrap().unwrap();
    let mut out = Vec::new();
    write_http11_response(&mut out, &Response { status: 204, headers: request.headers });
    let text = String::from_utf8(out).unwrap();
    let lines: Vec<&str> = text.split("\r\n").collect();
    assert_eq!(lines[0], "HTTP/1.1 204 No Content");
    let find = |name: &str| {
        lines[1..]
            .iter()
            .filter_map(|l| l.split_once(": "))
            .find(|(n, _)| n.eq_ignore_ascii_case(name))
            .map(|(_, v)| v.to_string())
    };
    assert_eq!(find("X-Trace-Id"), Some("AbC123".to_string()));
    assert_eq!(find("accept"), Some("text/html".to_string()));
    assert_eq!(find("host"), None);
}

#[test]
fn the_mode_of_a_response_body() {
    let with = |headers: Vec<Header>| Response { status: 200, headers };
    assert_eq!(choose_body_mode(&with(vec![]), false), BodyMode::Chunked);
    assert_eq!(choose_body_mode(&with(vec![]), true), BodyMode::NoBody);
    assert_eq!(choose_body_mode(&with(vec![header("content-length", b"7")]), false), BodyMode::Limited(7));
    assert_eq!(choose_body_mode(&with(vec![header("content-length", b"0")]), true), BodyMode::Limited(0));
    assert_eq!(choose_body_mode(&with(vec![header("content-length", b"x")]), false), BodyMode::Chunked);
}

#[test]
fn a_response_over_http11() {
    let response = Response { status: 200, headers: vec![header("content-length", b"5")] };
    let mut body = send_response_http1(MemorySocket::new(vec![], 0), response, false).unwrap();
    assert!(matches!(body, Http11Body::Limited(_)));
    body.send_chunk(b"hello").unwrap();
    body.send_finish().unwrap();
    assert_eq!(
        body.into_socket().written(),
        b"HTTP/1.1 200 OK\r\ncontent-length: 5\r\n\r\nhello"
    );

    let response = Response {
        status: 200,
        headers: vec![header("transfer-encoding", b"gzip"), header("x", b"y")],
    };
    let mut body = send_response_http1(MemorySocket::new(vec![], 0), response, false).unwrap();
    assert!(matches!(body, Http11Body::Chunked(_)));
    body.send_chunk(b"hi").unwrap();
    body.send_finish().unwrap();
    assert_eq!(
        body.into_socket().written(),
        b"HTTP/1.1 200 OK\r\nx: y\r\ntransfer-encoding: chunked\r\n\r\n2\r\nhi\r\n0\r\n\r\n"
    );

    let response = Response { status: 304, headers: vec![] };
    let body = send_response_http1(MemorySocket::new(vec![], 0), response, true).unwrap();
    assert!(matches!(body, Http11Body::NoBody(_)));
    assert_eq!(body.into_socket().written(), b"HTTP/1.1 304 Not Modified\r\n\r\n");
}

#[test]
fn the_responder_starts_a_response() {
    let response = Response { status: 200, headers: vec![] };
    match Responder::<MemorySocket>::Http2.send_response(response, true).unwrap() {
        Started::Http2 { head, end_of_stream } => {
            assert_eq!(head.status, 200);
            assert!(end_of_stream);
        }
        Started::Http11(_) => panic!("over HTTP/2"),
    }
    let response = Response { status: 200, headers: vec![] };
    match Responder::Http11(MemorySocket::new(vec![], 0)).send_response(response, false).unwrap() {
        Started::Http11(body) => assert!(matches!(body, Http11Body::Chunked(_))),
        Started::Http2 { .. } => panic!("over HTTP/1.1"),
    }
}

#[test]
fn flow_controlled_body_proxy() {
    let chunk = 100 * 1024;
    let window = 16 * 1024;
    let (mut state, action) = bridge_start(false);
    assert_eq!(action, BridgeAction::NextChunk);
    let mut frames = Vec::new();
    let mut released = 0usize;
    let mut ended = false;
    let mut next = step(state, BridgeEvent::Chunk(chunk));
    let mut chunk_given = true;
    loop {
        state = next.0;
        next = match next.1 {
            BridgeAction::Reserve(n) => {
                assert_eq!(n, chunk - frames.iter().sum::<usize>());
                step(state, BridgeEvent::Capacity(window))
            }
            BridgeAction::Send(len) => {
                assert!(!ended);
                frames.push(len);
                step(state, BridgeEvent::Sent)
            }
            BridgeAction::Release(len) => {
                assert_eq!(Some(&len), frames.last());
                released += len;
                step(state, BridgeEvent::Released)
            }
            BridgeAction::NextChunk => {
                assert!(chunk_given);
                chunk_given = false;
                step(state, BridgeEvent::End)
            }
            BridgeAction::SendEnd => {
                ended = true;
                step(state, BridgeEvent::Finished)
            }
            BridgeAction::Stop => break,
            BridgeAction::Ignore => panic!("no event is out of turn"),
        };
    }
    assert_eq!(state, BridgeState::Done);
    assert!(ended);
    assert!(frames.len() >= 7);
    assert_eq!(frames, vec![window, window, window, window, window, window, 4096]);
    assert_eq!(frames.iter().sum::<usize>(), chunk);
    assert_eq!(released, chunk);
}

#[test]
fn the_bridge_machine_step_by_step() {
    assert_eq!(bridge_start(true), (BridgeState::Done, BridgeAction::Stop));
    let s = BridgeState::AwaitChunk;
    assert_eq!(step(s, BridgeEvent::Chunk(0)), (BridgeState::AwaitChunk, BridgeAction::NextChunk));
    assert_eq!(
        step(s, BridgeEvent::Chunk(10)),
        (BridgeState::AwaitCapacity { left: 10 }, BridgeAction::Reserve(10))
    );
    assert_eq!(
        step(BridgeState::AwaitCapacity { left: 10 }, BridgeEvent::Capacity(4)),
        (BridgeState::AwaitSent { len: 4, left: 6 }, BridgeAction::Send(4))
    );
    assert_eq!(
        step(BridgeState::AwaitCapacity { left: 10 }, BridgeEvent::Capacity(40)),
        (BridgeState::AwaitSent { len: 10, left: 0 }, BridgeAction::Send(10))
    );
    assert_eq!(
        step(BridgeState::AwaitCapacity { left: 10 }, BridgeEvent::Capacity(0)),
        (BridgeState::AwaitSent { len: 0, left: 10 }, BridgeAction::Send(0))
    );
    assert_eq!(
        step(BridgeState::AwaitSent { len: 4, left: 6 }, BridgeEvent::Sent),
        (BridgeState::AwaitReleased { len: 4, left: 6 }, BridgeAction::Release(4))
    );
    assert_eq!(
        step(BridgeState::AwaitReleased { len: 4, left: 6 }, BridgeEvent::Released),
        (BridgeState::AwaitCapacity { left: 6 }, BridgeAction::Reserve(6))
    );
    assert_eq!(
        step(BridgeState::AwaitReleased { len: 6, left: 0 }, BridgeEvent::Released),
        (BridgeState::AwaitChunk, BridgeAction::NextChunk)
    );
    assert_eq!(step(s, BridgeEvent::End), (BridgeState::AwaitFinished, BridgeAction::SendEnd));
    assert_eq!(
        step(BridgeState::AwaitFinished, BridgeEvent::Finished),
        (BridgeState::Done, BridgeAction::Stop)
    );
    assert_eq!(step(BridgeState::Done, BridgeEvent::Chunk(3)), (BridgeState::Done, BridgeAction::Stop));
    assert_eq!(step(s, BridgeEvent::Sent), (s, BridgeAction::Ignore));
    assert_eq!(
        step(BridgeState::AwaitFinished, BridgeEvent::Chunk(1)),
        (BridgeState::AwaitFinished, BridgeAction::Ignore)
    );
}

#[test]
fn http2_preface_detection() {
    let preface = b"PRI * HTTP/2.0\r\n\r\nSM\r\n\r\n";
    assert_eq!(&H2_PREFACE[..], &preface[..]);
    assert_eq!(detect_version(preface), HttpVersion::Http2);
    assert_eq!(detect_version(b"GET /0123456789 HTTP/1.1"), HttpVersion::Http11);
    assert_eq!(detect_version(b"PRI * HTTP/2.0\r\n\r\nSM\r\n\r\r"), HttpVersion::Http11);

    let mut input = preface.to_vec();
    input.extend_from_slice(b"frames");
    let mut h2 = conn(&input, 5, HttpVersion::Unknown, true);
    assert_eq!(handle_client(&mut h2).unwrap(), HttpVersion::Http2);
    let mut seen = [0u8; 30];
    assert_eq!(lolb::conn::read_full(h2.socket(), &mut seen).unwrap(), 30);
    assert_eq!(&seen[..], &input[..]);

    let mut h1 = conn(b"GET / HTTP/1.1\r\nHost: example.com\r\n\r\n", 0, HttpVersion::Unknown, false);
    assert_eq!(handle_client(&mut h1).unwrap(), HttpVersion::Http11);
    assert!(parse_http11(&mut h1).unwrap().is_some());

    let mut known = conn(b"", 0, HttpVersion::Http11, false);
    assert_eq!(handle_client(&mut known).unwrap(), HttpVersion::Http11);
    let mut known = conn(b"x", 0, HttpVersion::Http2, false);
    assert_eq!(handle_client(&mut known).unwrap(), HttpVersion::Http2);

    let mut short = conn(b"GET / HTTP/1.0\r\n\r\n", 0, HttpVersion::Unknown, false);
    match handle_client(&mut short) {
        Err(LolbError::Owned(text)) => {
            assert_eq!(text, "Stream ended when 18 < 24 bytes peeked for http2 check.")
        }
        other => panic!("{:?}", other),
    }
}

#[test]
fn the_preamble_of_a_service() {
    assert_eq!(PREAUTH_LEN, 12);
    assert_eq!(&PREAUTH_PREFIX, b"lolb");
    assert_eq!(
        read_preamble(b"lolb\x01\x02\x03\x04\x05\x06\x07\x08"),
        Some(ReconnectKey(0x0102_0304_0506_0708))
    );
    assert_eq!(read_preamble(b"lolb\xff\xff\xff\xff\xff\xff\xff\xff"), Some(ReconnectKey(u64::MAX)));
    assert_eq!(read_preamble(b"lolc\x01\x02\x03\x04\x05\x06\x07\x08"), None);
    assert_eq!(read_preamble(b"GET / HTTP/1"), None);
    assert_eq!(write_key(ReconnectKey(0x0102_0304_0506_0708)), vec![1, 2, 3, 4, 5, 6, 7, 8]);
    assert_eq!(write_key(ReconnectKey(0)), vec![0; 8]);
    assert_eq!(write_key(ReconnectKey(u64::MAX)), vec![0xff; 8]);
}

#[test]
fn service_preauth_redemption() {
    let key = ReconnectKey(0x0102_0304_0506_0708);
    let now = 50_000;
    let mut store = MemoryPersist::new();
    lolb::persist::save_preauthed(&mut store, key, b"the serialised record").unwrap();
    let mut services = Services::new();
    services.add_domain(ServiceDomain::new("example.com", ServiceAuth::PresharedKey("s".to_string())));

    let mut input = b"lolb\x01\x02\x03\x04\x05\x06\x07\x08".to_vec();
    input.extend_from_slice(b"PRI * HTTP/2.0\r\n\r\nSM\r\n\r\n");
    let mut conn = conn(&input, 5, HttpVersion::Unknown, false);
    let who = handle_incoming(&mut conn).unwrap();
    assert_eq!(who, Incoming::Service(key));

    let bytes = load_preauthed(&mut store, key).unwrap();
    assert_eq!(bytes, Some(b"the serialised record".to_vec()));
    // what decodes the record stands outside the library
    let decoded = bytes.map(|_| {
        Preauthed::new(now - 1_000, "example.com".to_string(), "svc.example.com".to_string(), "/".to_string())
    });
    let record = accept_preauthed(decoded, now).unwrap();
    discard_preauth(&mut conn).unwrap();
    let mut rest = [0u8; 24];
    let mut socket = conn.into_socket();
    assert_eq!(lolb::conn::read_full(&mut socket, &mut rest).unwrap(), 24);
    assert_eq!(&rest[..], &b"PRI * HTTP/2.0\r\n\r\nSM\r\n\r\n"[..]);

    add_preauthed_service(&mut services, record, ServiceConnection(1)).unwrap();
    assert_eq!(services.route_to("svc.example.com", "/anything"), Ok(ServiceConnection(1)));
    assert_eq!(store.load(&PersistKey::ReconnectKey(key.0)).unwrap(), None);
    assert_eq!(load_preauthed(&mut store, key).unwrap(), None);
    assert!(matches!(accept_preauthed(None, now), Err(LolbError::Protocol(_))));
}

#[test]
fn who_has_connected() {
    let mut client = conn(b"GET / HTTP/1.1\r\nHost: x\r\n\r\n", 0, HttpVersion::Unknown, false);
    assert_eq!(handle_incoming(&mut client).unwrap(), Incoming::Client);
    assert!(parse_http11(&mut client).unwrap().is_some());

    let mut short = conn(b"lolb\x01\x02", 0, HttpVersion::Unknown, false);
    match handle_incoming(&mut short) {
        Err(LolbError::Owned(text)) => {
            assert_eq!(text, "Stream ended when 6 < 12 bytes peeked for preauth.")
        }
        other => panic!("{:?}", other),
    }
    let mut empty = conn(b"", 0, HttpVersion::Unknown, false);
    match handle_incoming(&mut empty) {
        Err(LolbError::Owned(text)) => {
            assert_eq!(text, "Stream ended when 0 < 12 bytes peeked for preauth.")
        }
        other => panic!("{:?}", other),
    }
    assert!(matches!(discard_preauth(&mut short), Err(LolbError::Protocol(_))));
}

#[test]
fn a_record_for_a_domain_that_is_not_served_is_refused() {
    let mut services = Services::new();
    let record = Preauthed::new(0, "example.org".to_string(), "a.example.org".to_string(), "/".to_string());
    assert!(matches!(
        add_preauthed_service(&mut services, record, ServiceConnection(1)),
        Err(LolbError::Protocol(_))
    ));
}

#[test]
fn a_service_authenticates() {
    let mut services = Services::new();
    services.add_domain(ServiceDomain::new("example.com", ServiceAuth::PresharedKey("s3cret".to_string())));
    let mut store = MemoryPersist::new();
    let claim = Preauthed::new(0, "example.com".to_string(), "svc.example.com".to_string(), "/".to_string());
    let key = ReconnectKey(0x1122_3344_5566_7788);
    let answer = handle_service_auth(&services, &mut store, &claim, "s3cret", key, b"record")
        .ok()
        .unwrap();
    assert_eq!(answer, vec![0x11, 0x22, 0x33, 0x44, 0x55, 0x66, 0x77, 0x88]);
    let mut preamble = b"lolb".to_vec();
    preamble.extend_from_slice(&answer);
    assert_eq!(read_preamble(&preamble), Some(key));
    assert_eq!(load_preauthed(&mut store, key).unwrap(), Some(b"record".to_vec()));

    let other = ReconnectKey(5);
    assert!(matches!(
        handle_service_auth(&services, &mut store, &claim, "wrong", other, b"record"),
        Err(lolb::dispatch::AuthError::Refused)
    ));
    assert_eq!(load_preauthed(&mut store, other).unwrap(), None);
    let stranger = Preauthed::new(0, "example.org".to_string(), "h".to_string(), "/".to_string());
    assert!(handle_service_auth(&services, &mut store, &stranger, "s3cret", other, b"r").is_err());
}

#[test]
fn requests_are_passed_on_to_the_upstream_of_their_route() {
    let mut services = Services::new();
    services.add_domain(ServiceDomain::new("example.com", ServiceAuth::PresharedKey("s".to_string())));
    let record = |prefix: &str| {
        Preauthed::new(0, "example.com".to_string(), "svc.example.com".to_string(), prefix.to_string())
    };
    services.add_preauthed(record("/"), ServiceConnection(1));
    services.add_preauthed(record("/api/v1"), ServiceConnection(2));
    let request = |path: &str| {
        let input = format!("GET {} HTTP/1.1\r\nHost: svc.example.com:443\r\n\r\n", path);
        try_parse_http11(input.as_bytes(), "https").unwrap().unwrap().0
    };
    assert_eq!(services.route(&request("/api/v1/users?page=2")), Ok(ServiceConnection(2)));
    assert_eq!(request_to_service(&mut services, &request("/health")).unwrap(), ServiceConnection(1));
    services.disconnect(ServiceConnection(2));
    match request_to_service(&mut services, &request("/api/v1/users")) {
        Err(LolbError::Message(text)) => assert_eq!(text, "No service accepted incoming request"),
        other => panic!("{:?}", other),
    }
    assert!(is_service_auth(&request(PATH_NODE_REGISTER)));
    assert!(!is_service_auth(&request("/__lolb_node_registe")));
    assert!(is_keep_alive(&request(PATH_KEEP_ALIVE)));
    assert!(is_keep_alive(&request("/__lolb_keep_alive?x=1")));
    assert!(!is_keep_alive(&request("/")));
}

#[test]
fn failures_as_statuses_and_texts() {
    assert_eq!(status_for(&LolbError::Message("No service accepted incoming request")), 502);
    assert_eq!(status_for(&LolbError::Http11Parse(ParseError::ChunkSize)), 400);
    assert_eq!(status_for(&LolbError::Protocol("x")), 502);
    assert_eq!(LolbError::Message("plain").message(), "plain");
    assert_eq!(LolbError::Owned("made".to_string()).message(), "made");
    assert_eq!(LolbError::Protocol("broken").message(), "protocol: broken");
    assert_eq!(
        LolbError::Http11Parse(ParseError::HeaderTooLarge).message(),
        "http11parse: header too large"
    );
    assert_eq!(ParseError::ShortRead.message(), "stream ended inside a chunk");
    assert_eq!(
        LolbError::LimitExceeded { total: 6, limit: 5 }.message(),
        "more bytes than the content length allows"
    );
    let parse = try_parse_http11(b"\x00", "http").err().unwrap();
    assert!(parse.message().starts_with("http11parse: malformed header: "));
    assert!(parse.message().len() > "http11parse: malformed header: ".len());
    let no_host = try_parse_http11(b"GET / HTTP/1.1\r\n\r\n", "http").err().unwrap();
    assert_eq!(no_host.message(), "http11parse: request without a Host header");
    assert_eq!(status_for(&no_host), 400);
    let http = try_parse_http11(b"GET / HTTP/1.1\r\nHost: a b\r\n\r\n", "http").err().unwrap();
    assert!(http.message().starts_with("http: "));
    assert!(http.message().len() > "http: ".len());
    let io = LolbError::Io(std::io::Error::new(std::io::ErrorKind::Other, "gone"));
    assert_eq!(io.message(), "io: gone");
    assert_eq!(status_for(&io), 502);
}

#[test]
fn refusals_say_why() {
    let now = 50_000;
    assert_eq!(
        accept_preauthed(None, now).err().unwrap().message(),
        "protocol: No preauth for incoming 'lolb' prefix"
    );
    let old = Preauthed::new(now - 10_000, "example.com".to_string(), "a.example.com".to_string(), "/".to_string());
    assert_eq!(accept_preauthed(Some(old), now).err().unwrap().message(), "protocol: preauth has expired");

    let mut services = Services::new();
    let record = Preauthed::new(0, "example.org".to_string(), "a.example.org".to_string(), "/".to_string());
    assert_eq!(
        add_preauthed_service(&mut services, record, ServiceConnection(1)).err().unwrap().message(),
        "protocol: Preauthed for not configured domain"
    );

    let mut short = conn(b"lolb\x01\x02", 0, HttpVersion::Unknown, false);
    assert_eq!(
        discard_preauth(&mut short).err().unwrap().message(),
        "protocol: Discarded less than peeked length of preauth"
    );
    assert_eq!(
        handle_incoming(&mut short).err().unwrap().message(),
        "Stream ended when 0 < 12 bytes peeked for preauth."
    );
    let mut short = conn(b"lolb\x01\x02", 0, HttpVersion::Unknown, false);
    assert_eq!(
        handle_incoming(&mut short).err().unwrap().message(),
        "Stream ended when 6 < 12 bytes peeked for preauth."
    );
    assert_eq!(
        handle_client(&mut short).err().unwrap().message(),
        "Stream ended when 6 < 24 bytes peeked for http2 check."
    );
}

#[test]
fn a_response_is_had_piece_by_piece() {
    let response = Response { status: 200, headers: vec![header("content-length", b"5")] };
    let mut body = send_response_http1(MemorySocket::new(vec![], 0), response, false).unwrap();
    assert_eq!(body.get_mut().take_written(), b"HTTP/1.1 200 OK\r\ncontent-length: 5\r\n\r\n");
    body.send_chunk(b"hel").unwrap();
    assert_eq!(body.get_mut().take_written(), b"hel");
    assert_eq!(body.get_mut().take_written(), b"");
    // what was handed out still counts against the announced length
    assert!(matches!(
        body.send_chunk(b"lo!"),
        Err(LolbError::LimitExceeded { total: 6, limit: 5 })
    ));
    body.send_chunk(b"lo").unwrap();
    assert_eq!(body.get_ref().written(), b"lo");
    assert_eq!(body.into_socket().take_written(), b"lo");

    let response = Response { status: 200, headers: vec![] };
    let mut body = send_response_http1(MemorySocket::new(vec![], 0), response, false).unwrap();
    body.get_mut().take_written();
    body.send_chunk(b"hi").unwrap();
    assert_eq!(body.get_mut().take_written(), b"2\r\nhi\r\n");
    body.send_finish().unwrap();
    assert_eq!(body.get_mut().take_written(), b"0\r\n\r\n");
}
