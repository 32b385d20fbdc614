//! What is decided about a connection when it is accepted, and about a
//! request before it is passed on.

use vstd::prelude::*;
use vstd::string::*;
use crate::conn::{read_full, Connection, HttpVersion, Socket};
use crate::error::{LolbError, LolbResult};
use crate::http11::Request;
use crate::persist::{key_of, save_preauthed, Persist};
use crate::serv_auth::{Preauthed, ReconnectKey};
use crate::serv_conn::ServiceConnection;
use crate::service::{
    domain_names, first_named, with_upstream, RouteError, Services, ServicesView, PREAUTH_LEN,
};
use crate::text::{bytes_eq, str_eq};

verus! {

/// The path on which a service authenticates.
pub const PATH_NODE_REGISTER: &'static str = "/__lolb_node_register";

/// The path of the liveness probe.
pub const PATH_KEEP_ALIVE: &'static str = "/__lolb_keep_alive";

/// The 24 bytes that open an HTTP/2 connection.
pub const H2_PREFACE: [u8; 24] = [
    0x50, 0x52, 0x49, 0x20, 0x2a, 0x20, 0x48, 0x54, 0x54, 0x50, 0x2f, 0x32, 0x2e, 0x30, 0x0d, 0x0a,
    0x0d, 0x0a, 0x53, 0x4d, 0x0d, 0x0a, 0x0d, 0x0a,
];

/// The bytes `lolb`.
pub open spec fn preauth_prefix() -> Seq<u8> {
    seq![0x6cu8, 0x6f, 0x6c, 0x62]
}

/// The number that bytes spell, most significant first.
pub open spec fn be_value(bytes: Seq<u8>) -> nat
    decreases bytes.len(),
{
    if bytes.len() == 0 {
        0
    } else {
        be_value(bytes.drop_last()) * 256 + bytes.last() as nat
    }
}

/// The lowest `count` bytes of a number, most significant first.
pub open spec fn be_bytes(n: nat, count: nat) -> Seq<u8>
    decreases count,
{
    if count == 0 {
        Seq::empty()
    } else {
        be_bytes(n / 256, (count - 1) as nat).push((n % 256) as u8)
    }
}

/// What the first twelve bytes of a connection say: the reconnect key of a
/// service, where they are `lolb` and eight bytes of key; nothing, where a
/// client has connected.
pub open spec fn preamble_key(first: Seq<u8>) -> Option<ReconnectKey> {
    if first.take(4) == preauth_prefix() {
        Some(ReconnectKey(be_value(first.subrange(4, 12)) as u64))
    } else {
        None
    }
}

/// Bytes spell a number below 256 to the power of their count.
proof fn lemma_be_value_bound(bytes: Seq<u8>)
    ensures
        bytes.len() <= 8 ==> be_value(bytes) < u64_limit(bytes.len()),
    decreases bytes.len(),
{
    if bytes.len() > 0 {
        lemma_be_value_bound(bytes.drop_last());
    }
}

/// 256 to a power up to 8.
pub open spec fn u64_limit(count: nat) -> nat {
    if count == 0 {
        1
    } else if count == 1 {
        0x100
    } else if count == 2 {
        0x1_0000
    } else if count == 3 {
        0x100_0000
    } else if count == 4 {
        0x1_0000_0000
    } else if count == 5 {
        0x100_0000_0000
    } else if count == 6 {
        0x1_0000_0000_0000
    } else if count == 7 {
        0x100_0000_0000_0000
    } else {
        0x1_0000_0000_0000_0000
    }
}

/// Reads what the first twelve bytes of a connection say.
pub fn read_preamble(first: &[u8]) -> (r: Option<ReconnectKey>)
    requires
        first@.len() == 12,
    ensures
        r == preamble_key(first@),
{
    if first[0] == 0x6c && first[1] == 0x6f && first[2] == 0x6c && first[3] == 0x62 {
        assert(first@.take(4) =~= preauth_prefix());
        let ghost key = first@.subrange(4, 12);
        let mut n: u64 = 0;
        let mut i: usize = 4;
        assert(key.take(0) =~= Seq::<u8>::empty());
        while i < 12
            invariant
                4 <= i <= 12,
                first@.len() == 12,
                key == first@.subrange(4, 12),
                n == be_value(key.take(i - 4)),
            decreases 12 - i,
        {
            proof {
                lemma_be_value_bound(key.take(i - 4));
                assert(key.take(i - 3).drop_last() =~= key.take(i - 4));
                assert(key.take(i - 3).last() == first@[i as int]);
                lemma_be_value_bound(key.take(i - 3));
            }
            n = n * 256 + first[i] as u64;
            i = i + 1;
        }
        assert(key.take(8) =~= key);
        Some(ReconnectKey(n))
    } else {
        assert(first@.take(4)[0] == first@[0]);
        assert(first@.take(4)[1] == first@[1]);
        assert(first@.take(4)[2] == first@[2]);
        assert(first@.take(4)[3] == first@[3]);
        None
    }
}

/// The eight bytes of a reconnect key, most significant first.
pub open spec fn key_bytes(key: ReconnectKey) -> Seq<u8> {
    be_bytes(key.0 as nat, 8)
}

/// The eight bytes that a service sends behind `lolb` for a key.
pub fn write_key(key: ReconnectKey) -> (bytes: Vec<u8>)
    ensures
        bytes@ == key_bytes(key),
{
    let mut bytes: Vec<u8> = vec![0u8; 8];
    let mut rest: u64 = key.0;
    let mut i: usize = 8;
    assert(be_bytes(rest as nat, 8) + bytes@.skip(8) =~= be_bytes(rest as nat, 8));
    while i > 0
        invariant
            i <= 8,
            bytes@.len() == 8,
            key_bytes(key) == be_bytes(rest as nat, i as nat) + bytes@.skip(i as int),
        decreases i,
    {
        i = i - 1;
        bytes[i] = (rest % 256) as u8;
        proof {
            assert(be_bytes(rest as nat, (i + 1) as nat) =~= be_bytes(rest as nat / 256, i as nat).push(
                (rest % 256) as u8,
            ));
            assert(be_bytes(rest as nat / 256, i as nat).push((rest % 256) as u8) + bytes@.skip(
                i + 1,
            ) =~= be_bytes(rest as nat / 256, i as nat) + bytes@.skip(i as int));
        }
        rest = rest / 256;
    }
    assert(be_bytes(rest as nat, 0) + bytes@.skip(0) =~= bytes@);
    bytes
}

/// The lowest bytes of a number spell the number, where it is small enough
/// for them.
proof fn lemma_be_round_trip(n: nat, count: nat)
    requires
        count <= 8,
        n < u64_limit(count),
    ensures
        be_bytes(n, count).len() == count,
        be_value(be_bytes(n, count)) == n,
    decreases count,
{
    if count > 0 {
        lemma_be_round_trip(n / 256, (count - 1) as nat);
        assert(be_bytes(n, count).drop_last() =~= be_bytes(n / 256, (count - 1) as nat));
    }
}

/// The key that a service sends is the key that the balancer reads.
pub proof fn law_key_round_trip(key: ReconnectKey)
    ensures
        preamble_key(preauth_prefix() + key_bytes(key)) == Some(key),
{
    lemma_be_round_trip(key.0 as nat, 8);
    let first = preauth_prefix() + key_bytes(key);
    assert(first.take(4) =~= preauth_prefix());
    assert(first.subrange(4, 12) =~= key_bytes(key));
}

/// Who has connected.
#[derive(Debug, Clone, Copy, PartialEq, Eq, Structural)]
pub enum Incoming {
    /// A service that reconnects, with the key it sent.
    Service(ReconnectKey),
    /// A client.
    Client,
}

/// A number as decimal text.
pub open spec fn decimal_text(n: nat) -> Seq<char>
    decreases n,
{
    if n < 10 {
        seq![digit_char(n)]
    } else {
        decimal_text(n / 10).push(digit_char(n % 10))
    }
}

/// The character of a decimal digit.
pub open spec fn digit_char(d: nat) -> char {
    if d == 0 {
        '0'
    } else if d == 1 {
        '1'
    } else if d == 2 {
        '2'
    } else if d == 3 {
        '3'
    } else if d == 4 {
        '4'
    } else if d == 5 {
        '5'
    } else if d == 6 {
        '6'
    } else if d == 7 {
        '7'
    } else if d == 8 {
        '8'
    } else {
        '9'
    }
}

fn digit_str(d: usize) -> (r: &'static str)
    requires
        d < 10,
    ensures
        r@ == seq![digit_char(d as nat)],
{
    proof {
        reveal_strlit("0");
        reveal_strlit("1");
        reveal_strlit("2");
        reveal_strlit("3");
        reveal_strlit("4");
        reveal_strlit("5");
        reveal_strlit("6");
        reveal_strlit("7");
        reveal_strlit("8");
        reveal_strlit("9");
    }
    let r = if d == 0 {
        "0"
    } else if d == 1 {
        "1"
    } else if d == 2 {
        "2"
    } else if d == 3 {
        "3"
    } else if d == 4 {
        "4"
    } else if d == 5 {
        "5"
    } else if d == 6 {
        "6"
    } else if d == 7 {
        "7"
    } else if d == 8 {
        "8"
    } else {
        "9"
    };
    assert(r@ =~= seq![digit_char(d as nat)]);
    r
}

/// Appends a number in decimal to a text.
fn push_decimal(text: &mut String, n: usize)
    ensures
        final(text)@ == old(text)@ + decimal_text(n as nat),
    decreases n,
{
    if n >= 10 {
        push_decimal(text, n / 10);
    }
    text.append(digit_str(n % 10));
    assert(text@ =~= old(text)@ + decimal_text(n as nat));
}

/// The diagnostic for a stream that ended while `wanted` bytes were being
/// looked at `purpose`.
pub open spec fn short_stream_text(read: nat, wanted: nat, purpose: Seq<char>) -> Seq<char> {
    "Stream ended when "@ + decimal_text(read) + " < "@ + decimal_text(wanted)
        + " bytes peeked for "@ + purpose + "."@
}

fn short_stream(read: usize, wanted: usize, purpose: &str) -> (e: LolbError)
    ensures
        e matches LolbError::Owned(text) && text@ == short_stream_text(
            read as nat,
            wanted as nat,
            purpose@,
        ),
{
    let mut text = String::from_str("Stream ended when ");
    push_decimal(&mut text, read);
    text.append(" < ");
    push_decimal(&mut text, wanted);
    text.append(" bytes peeked for ");
    text.append(purpose);
    text.append(".");
    LolbError::Owned(text)
}

/// Finds out who has connected, from the first twelve bytes of the stream.
/// They are looked at and left in the stream. A stream that ends before
/// twelve bytes is refused.
pub fn handle_incoming<S: Socket>(conn: &mut Connection<S>) -> (r: LolbResult<Incoming>)
    ensures
        final(conn).version() == old(conn).version(),
        final(conn).secure() == old(conn).secure(),
        final(conn).stream().incoming() == old(conn).stream().incoming(),
        final(conn).stream().outgoing() == old(conn).stream().outgoing(),
        final(conn).stream().reliable() == old(conn).stream().reliable(),
        match r {
            Ok(who) => {
                &&& old(conn).stream().incoming().len() >= 12
                &&& who == match preamble_key(old(conn).stream().incoming().take(12)) {
                    Some(key) => Incoming::Service(key),
                    None => Incoming::Client,
                }
            },
            Err(LolbError::Owned(text)) => {
                &&& old(conn).stream().incoming().len() < 12
                &&& text@ == short_stream_text(
                    old(conn).stream().incoming().len(),
                    12,
                    "preauth"@,
                )
            },
            Err(e) => {
                &&& e is Io
                &&& !old(conn).stream().reliable()
                &&& old(conn).stream().buffered().len() < 12
            },
        },
{
    let mut peeked: Vec<u8> = vec![0u8; PREAUTH_LEN];
    let never = |so_far: &[u8]| -> (enough: bool)
        ensures
            !enough,
        { false };
    let read = match conn.socket().peek(peeked.as_mut_slice(), never) {
        Ok(n) => n,
        Err(e) => {
            return Err(LolbError::Io(e));
        },
    };
    if read < PREAUTH_LEN {
        return Err(short_stream(read, PREAUTH_LEN, "preauth"));
    }
    assert(peeked@ =~= old(conn).stream().incoming().take(12));
    match read_preamble(peeked.as_slice()) {
        Some(key) => Ok(Incoming::Service(key)),
        None => Ok(Incoming::Client),
    }
}

/// Takes the twelve bytes of a service's preamble from the stream, once
/// the key in them has been redeemed.
pub fn discard_preauth<S: Socket>(conn: &mut Connection<S>) -> (r: LolbResult<()>)
    ensures
        final(conn).version() == old(conn).version(),
        final(conn).secure() == old(conn).secure(),
        final(conn).stream().outgoing() == old(conn).stream().outgoing(),
        match r {
            Ok(_) => old(conn).stream().incoming().len() >= 12 && final(conn).stream().incoming()
                == old(conn).stream().incoming().skip(12),
            Err(LolbError::Protocol(text)) => old(conn).stream().incoming().len() < 12 && text
                == "Discarded less than peeked length of preauth",
            Err(e) => e is Io && !old(conn).stream().reliable(),
        },
{
    let mut scratch: Vec<u8> = vec![0u8; PREAUTH_LEN];
    let read = read_full(conn.socket(), scratch.as_mut_slice())?;
    if read < PREAUTH_LEN {
        return Err(LolbError::Protocol("Discarded less than peeked length of preauth"));
    }
    Ok(())
}

/// Registers the upstream that a service has opened with a redeemed
/// record. A record for a domain that is not served is refused.
pub fn add_preauthed_service(services: &mut Services, preauthed: Preauthed, upstream: ServiceConnection)
    -> (r: LolbResult<()>)
    ensures
        match first_named(domain_names(old(services)@.domains), preauthed@.domain) {
            Some(d) => r is Ok && final(services)@ == with_upstream(
                old(services)@,
                d,
                preauthed@.host,
                preauthed@.prefix,
                upstream,
            ),
            None => r == Err::<(), LolbError>(
                LolbError::Protocol("Preauthed for not configured domain"),
            ) && final(services)@ == old(services)@,
        },
{
    if !services.has_domain(&preauthed) {
        return Err(LolbError::Protocol("Preauthed for not configured domain"));
    }
    services.add_preauthed(preauthed, upstream);
    Ok(())
}

/// The 24 bytes that open an HTTP/2 connection.
pub open spec fn h2_preface() -> Seq<u8> {
    seq![
        0x50u8, 0x52, 0x49, 0x20, 0x2a, 0x20, 0x48, 0x54, 0x54, 0x50, 0x2f, 0x32, 0x2e, 0x30, 0x0d,
        0x0a, 0x0d, 0x0a, 0x53, 0x4d, 0x0d, 0x0a, 0x0d, 0x0a,
    ]
}

/// The version that a client speaks whose first 24 bytes are these.
pub open spec fn version_of(first: Seq<u8>) -> HttpVersion {
    if first == h2_preface() {
        HttpVersion::Http2
    } else {
        HttpVersion::Http11
    }
}

/// Tells the version that a client speaks from the first 24 bytes it sent.
pub fn detect_version(first: &[u8]) -> (r: HttpVersion)
    ensures
        r == version_of(first@),
{
    let preface = H2_PREFACE;
    assert(preface@ =~= h2_preface());
    if bytes_eq(first, preface.as_slice()) {
        HttpVersion::Http2
    } else {
        HttpVersion::Http11
    }
}

/// Finds out which version of HTTP a client speaks: the one that was
/// negotiated, or else the one that the first 24 bytes of the stream show.
/// They are looked at and left in the stream. A stream that ends before
/// 24 bytes is refused.
pub fn handle_client<S: Socket>(conn: &mut Connection<S>) -> (r: LolbResult<HttpVersion>)
    ensures
        final(conn).version() == old(conn).version(),
        final(conn).secure() == old(conn).secure(),
        final(conn).stream().incoming() == old(conn).stream().incoming(),
        final(conn).stream().outgoing() == old(conn).stream().outgoing(),
        old(conn).version() != HttpVersion::Unknown ==> r == Ok::<HttpVersion, LolbError>(
            old(conn).version(),
        ) && final(conn).stream() == old(conn).stream(),
        final(conn).stream().reliable() == old(conn).stream().reliable(),
        old(conn).version() == HttpVersion::Unknown ==> match r {
            Ok(version) => {
                &&& old(conn).stream().incoming().len() >= 24
                &&& version == version_of(old(conn).stream().incoming().take(24))
            },
            Err(LolbError::Owned(text)) => {
                &&& old(conn).stream().incoming().len() < 24
                &&& text@ == short_stream_text(
                    old(conn).stream().incoming().len(),
                    24,
                    "http2 check"@,
                )
            },
            Err(e) => {
                &&& e is Io
                &&& !old(conn).stream().reliable()
                &&& old(conn).stream().buffered().len() < 24
            },
        },
{
    let http_version = conn.http_version();
    if http_version != HttpVersion::Unknown {
        return Ok(http_version);
    }
    let mut buf: Vec<u8> = vec![0u8; 24];
    let never = |so_far: &[u8]| -> (enough: bool)
        ensures
            !enough,
        { false };
    let read = match conn.socket().peek(buf.as_mut_slice(), never) {
        Ok(n) => n,
        Err(e) => {
            return Err(LolbError::Io(e));
        },
    };
    if read < 24 {
        return Err(short_stream(read, 24, "http2 check"));
    }
    assert(buf@ =~= old(conn).stream().incoming().take(24));
    Ok(detect_version(buf.as_slice()))
}

/// Whether a request is a service that authenticates.
pub fn is_service_auth(req: &Request) -> (r: bool)
    ensures
        r == (req@.target.path == PATH_NODE_REGISTER@),
{
    str_eq(req.path(), PATH_NODE_REGISTER)
}

/// Whether a request is the liveness probe.
pub fn is_keep_alive(req: &Request) -> (r: bool)
    ensures
        r == (req@.target.path == PATH_KEEP_ALIVE@),
{
    str_eq(req.path(), PATH_KEEP_ALIVE)
}

/// Why a service was not authenticated.
#[derive(Debug)]
pub enum AuthError {
    /// The secret is not that of the domain that the service claims, or
    /// the domain is not served.
    Refused,
    /// The secret is right, but the record could not be stored: the
    /// failure of the store.
    Store(LolbError),
}

impl AuthError {
    /// The failure as an error of the balancer: a refusal breaks the
    /// protocol, a failure of the store is what the store said.
    pub fn into_error(self) -> (e: LolbError)
        ensures
            e == match self {
                AuthError::Refused => LolbError::Protocol("service authentication failed"),
                AuthError::Store(inner) => inner,
            },
    {
        match self {
            AuthError::Refused => LolbError::Protocol("service authentication failed"),
            AuthError::Store(inner) => inner,
        }
    }
}

/// Whether `secret` is the secret of the first domain of the name that a
/// record claims.
pub open spec fn authenticates(services: ServicesView, claim: Seq<char>, secret: Seq<char>) -> bool {
    match first_named(domain_names(services.domains), claim) {
        Some(d) => secret == services.domains[d].secret,
        None => false,
    }
}

/// Authenticates a service. Where `secret` is not the secret of the domain
/// that the service claims, the service is refused and nothing is stored.
/// Where it is, the serialised record is stored under the fresh key, and the
/// answer to the service is the key, in the eight bytes that it is to send
/// when it reconnects; this fails only where the store does.
pub fn handle_service_auth<P: Persist>(
    services: &Services,
    persist: &mut P,
    claim: &Preauthed,
    secret: &str,
    key: ReconnectKey,
    record: &[u8],
) -> (r: Result<Vec<u8>, AuthError>)
    ensures
        final(persist).reliable() == old(persist).reliable(),
        r matches Err(AuthError::Refused) <==> !authenticates(services@, claim@.domain, secret@),
        match r {
            Ok(answer) => {
                &&& answer@ == key_bytes(key)
                &&& final(persist).contents() == old(persist).contents().insert(
                    key_of(key),
                    record@,
                )
            },
            Err(AuthError::Refused) => final(persist).contents() == old(persist).contents(),
            Err(AuthError::Store(_)) => {
                &&& !old(persist).reliable()
                &&& final(persist).contents() == old(persist).contents()
            },
        },
{
    if !services.is_valid_secret(claim, secret) {
        return Err(AuthError::Refused);
    }
    match save_preauthed(persist, key, record) {
        Ok(_) => Ok(write_key(key)),
        Err(e) => Err(AuthError::Store(e)),
    }
}

/// Whether a request is looked at as a service that authenticates: only
/// the first request of a connection is.
pub fn checks_service_auth(first_stream: bool, req: &Request) -> (r: bool)
    ensures
        r == (first_stream && req@.target.path == PATH_NODE_REGISTER@),
{
    first_stream && is_service_auth(req)
}

/// What follows a request on its connection.
#[derive(Debug, Clone, Copy, PartialEq, Eq, Structural)]
pub enum Next {
    /// The next request or stream is taken up.
    NextRequest,
    /// The client is answered with a status and no body; then the stream is
    /// over, and with `close` the connection too.
    Answer { status: u16, close: bool },
}

/// The status that goes with a failure: 400 where the client's HTTP/1.1
/// could not be parsed, 502 otherwise.
pub open spec fn status_of(error: LolbError) -> u16 {
    if error is Http11Parse || error is Http {
        400
    } else {
        502
    }
}

/// What follows a request that ended as `outcome` says: after a failure the
/// client is answered with the status of the failure; on HTTP/2 only the
/// stream is over, on HTTP/1.1 the connection is closed.
pub fn after_request(version: HttpVersion, outcome: &LolbResult<()>) -> (r: Next)
    ensures
        r == match *outcome {
            Ok(_) => Next::NextRequest,
            Err(e) => Next::Answer { status: status_of(e), close: version != HttpVersion::Http2 },
        },
{
    match outcome {
        Ok(_) => Next::NextRequest,
        Err(e) => Next::Answer {
            status: status_for(e),
            close: match version {
                HttpVersion::Http2 => false,
                _ => true,
            },
        },
    }
}

/// Chooses the upstream that a request is passed on to.
pub fn request_to_service(services: &mut Services, req: &Request) -> (r: LolbResult<
    ServiceConnection,
>)
    ensures
        r matches Ok(c) ==> old(services)@.live.contains(c),
        r matches Err(e) ==> e == LolbError::Message("No service accepted incoming request"),
        (forall|d: int, h: int, k: int|
            !crate::service::is_target(
                old(services)@,
                req@.target.host,
                req@.target.path,
                d,
                h,
                k,
            )) ==> r is Err && final(services)@ == old(services)@,
        forall|d: int, h: int, k: int|
            crate::service::is_target(old(services)@, req@.target.host, req@.target.path, d, h, k)
                ==> {
                let left = crate::service::alive(
                    old(services)@.domains[d].hosts[h].routes[k].connections,
                    old(services)@.live,
                );
                &&& final(services)@ == crate::service::with_connections(
                    old(services)@,
                    d,
                    h,
                    k,
                    left,
                )
                &&& r is Ok <==> left.len() > 0
                &&& r matches Ok(c) ==> c == left[0]
            },
{
    match services.route(req) {
        Ok(c) => Ok(c),
        Err(_) => Err(LolbError::Message("No service accepted incoming request")),
    }
}

/// The status that the client is answered with when a request has failed:
/// 400 where its HTTP/1.1 could not be parsed, 502 otherwise.
pub fn status_for(error: &LolbError) -> (status: u16)
    ensures
        status == status_of(*error),
{
    match error {
        LolbError::Http11Parse(_) => 400,
        LolbError::Http(_) => 400,
        _ => 502,
    }
}

} // verus!
