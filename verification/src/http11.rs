//! HTTP/1.1 on the client side: reading a request head into the one shape
//! that requests have inside the balancer, choosing how the body is read,
//! and writing a response head.

use vstd::prelude::*;
use vstd::string::*;
use crate::conn::{Connection, Socket};
use crate::error::{LolbError, LolbResult, ParseError};
use crate::text::{bytes_eq, eq_ignore_case, lower_all, parse_decimal, str_eq, text_bytes};

verus! {

/// How much of a stream is looked at for the head of a request.
pub const HTTP11_PARSE_BUF_SIZE: usize = 16_384;

/// A header line: its name and its value.
#[derive(Debug, Clone, PartialEq, Eq)]
pub struct Header {
    pub name: String,
    pub value: Vec<u8>,
}

/// A header as plain values.
pub struct HeaderView {
    pub name: Seq<char>,
    pub value: Seq<u8>,
}

impl View for Header {
    type V = HeaderView;

    open spec fn view(&self) -> HeaderView {
        HeaderView { name: self.name@, value: self.value@ }
    }
}

/// The headers as plain values, in order.
pub open spec fn header_views(headers: Seq<Header>) -> Seq<HeaderView> {
    headers.map_values(|h: Header| h@)
}

/// The head of a request as the parser hands it out.
#[derive(Debug)]
pub struct RawHead {
    pub method: Option<String>,
    pub path: Option<String>,
    pub headers: Vec<Header>,
    /// Where the body starts in the bytes that were parsed.
    pub head_len: usize,
}

/// A parsed head as plain values.
pub struct RawHeadView {
    pub method: Option<Seq<char>>,
    pub path: Option<Seq<char>>,
    pub headers: Seq<HeaderView>,
    pub head_len: usize,
}

impl View for RawHead {
    type V = RawHeadView;

    open spec fn view(&self) -> RawHeadView {
        RawHeadView {
            method: match self.method {
                Some(m) => Some(m@),
                None => None,
            },
            path: match self.path {
                Some(p) => Some(p@),
                None => None,
            },
            headers: header_views(self.headers@),
            head_len: self.head_len,
        }
    }
}

/// What the parser makes of the bytes at the start of a request.
pub enum HeadParse {
    /// They cannot open a request.
    Malformed,
    /// They may open a request, but its head does not end in them.
    Partial,
    /// They hold a whole head.
    Complete(RawHeadView),
}

/// How many headers a request may have.
pub const MAX_HEADERS: usize = 128;

/// What `httparse::Request::parse`, given room for so many headers, makes of
/// bytes.
pub uninterp spec fn httparse_request(buf: Seq<u8>, max_headers: usize) -> HeadParse;

/// `httparse::Request::parse` with room for `max_headers` headers. The
/// result is only given a name, but for this: the body starts inside the
/// bytes parsed or at their end.
#[verifier::external_body]
fn parse_head(buf: &[u8], max_headers: usize) -> (r: Result<Option<RawHead>, httparse::Error>)
    ensures
        match r {
            Ok(Some(head)) => httparse_request(buf@, max_headers) == HeadParse::Complete(head@)
                && head.head_len <= buf@.len(),
            Ok(None) => httparse_request(buf@, max_headers) is Partial,
            Err(_) => httparse_request(buf@, max_headers) is Malformed,
        },
{
    let mut headers = vec![httparse::EMPTY_HEADER; max_headers];
    let mut request = httparse::Request::new(&mut headers);
    match request.parse(buf)? {
        httparse::Status::Partial => Ok(None),
        httparse::Status::Complete(head_len) => Ok(Some(RawHead {
            method: request.method.map(|m| m.to_string()),
            path: request.path.map(|p| p.to_string()),
            headers: request.headers.iter().map(|h| Header { name: h.name.to_string(), value: h.value.to_vec() }).collect(),
            head_len,
        })),
    }
}

/// The name under which `http::header::HeaderName` keeps a header name;
/// `None` where it refuses the name.
pub uninterp spec fn header_name_text(name: Seq<char>) -> Option<Seq<char>>;

/// `http::header::HeaderName::from_bytes`, then `as_str`: the name as the
/// `http` crate keeps it. Which names it takes is only given a name; a name
/// that it takes it keeps in lower case.
#[verifier::external_body]
fn http_header_name(name: &str) -> (r: Result<String, http::Error>)
    ensures
        match r {
            Ok(kept) => header_name_text(name@) == Some(kept@) && text_bytes(kept@) == lower_all(
                text_bytes(name@),
            ),
            Err(_) => header_name_text(name@) is None,
        },
{
    let kept = http::header::HeaderName::from_bytes(name.as_bytes()).map_err(http::Error::from)?;
    Ok(kept.as_str().to_string())
}

/// Whether a byte can stand in a header value: it is a tab, or neither a
/// control character nor DEL.
pub open spec fn value_byte(b: u8) -> bool {
    (b >= 32 && b != 127) || b == 0x09
}

/// Whether a byte string can be a header value.
pub open spec fn value_ok(value: Seq<u8>) -> bool {
    forall|i: int| 0 <= i < value.len() ==> value_byte(#[trigger] value[i])
}

/// `http::header::HeaderValue::from_bytes`, then `as_bytes`: the value is
/// taken where every byte of it can stand in a header value, and is kept as
/// it is.
#[verifier::external_body]
fn http_header_value(value: &[u8]) -> (r: Result<Vec<u8>, http::Error>)
    ensures
        r is Ok <==> value_ok(value@),
        r matches Ok(kept) ==> kept@ == value@,
{
    let kept = http::header::HeaderValue::from_bytes(value).map_err(http::Error::from)?;
    Ok(kept.as_bytes().to_vec())
}

/// The method as `http::Method` keeps it; `None` where it refuses the text.
pub uninterp spec fn method_text(method: Seq<char>) -> Option<Seq<char>>;

/// `http::Method::from_bytes`, then `as_str`. The result is only given a
/// name.
#[verifier::external_body]
fn http_method(method: &str) -> (r: Result<String, http::Error>)
    ensures
        match r {
            Ok(kept) => method_text(method@) == Some(kept@),
            Err(_) => method_text(method@) is None,
        },
{
    let kept = http::Method::from_bytes(method.as_bytes()).map_err(http::Error::from)?;
    Ok(kept.as_str().to_string())
}

/// The parts of a request's target.
#[derive(Debug, Clone, PartialEq, Eq)]
pub struct Target {
    /// Host and, where given, user and port.
    pub authority: String,
    /// The host alone.
    pub host: String,
    /// The path without the query.
    pub path: String,
    /// The path with the query.
    pub path_and_query: String,
}

/// A target as plain values.
pub struct TargetView {
    pub authority: Seq<char>,
    pub host: Seq<char>,
    pub path: Seq<char>,
    pub path_and_query: Seq<char>,
}

impl View for Target {
    type V = TargetView;

    open spec fn view(&self) -> TargetView {
        TargetView {
            authority: self.authority@,
            host: self.host@,
            path: self.path@,
            path_and_query: self.path_and_query@,
        }
    }
}

/// The parts of a URI as the `http` crate hands them out.
pub struct UriParts {
    pub authority: Option<String>,
    pub host: Option<String>,
    pub path: String,
    pub path_and_query: Option<String>,
}

/// The parts of a URI as plain values.
pub struct UriPartsView {
    pub authority: Option<Seq<char>>,
    pub host: Option<Seq<char>>,
    pub path: Seq<char>,
    pub path_and_query: Option<Seq<char>>,
}

/// An optional text as plain values.
pub open spec fn text_of(text: Option<String>) -> Option<Seq<char>> {
    match text {
        Some(t) => Some(t@),
        None => None,
    }
}

impl View for UriParts {
    type V = UriPartsView;

    open spec fn view(&self) -> UriPartsView {
        UriPartsView {
            authority: text_of(self.authority),
            host: text_of(self.host),
            path: self.path@,
            path_and_query: text_of(self.path_and_query),
        }
    }
}

/// A text, or the empty text where there is none.
pub open spec fn or_empty(text: Option<Seq<char>>) -> Seq<char> {
    match text {
        Some(t) => t,
        None => Seq::empty(),
    }
}

/// The target that the parts of a URI make: a part that is missing is
/// empty.
pub open spec fn target_of(parts: UriPartsView) -> TargetView {
    TargetView {
        authority: or_empty(parts.authority),
        host: or_empty(parts.host),
        path: parts.path,
        path_and_query: or_empty(parts.path_and_query),
    }
}

fn text_or_empty(text: Option<String>) -> (r: String)
    ensures
        r@ == or_empty(text_of(text)),
{
    match text {
        Some(t) => t,
        None => String::new(),
    }
}

impl Target {
    /// The target that the parts of a URI make.
    pub fn from_parts(parts: UriParts) -> (r: Target)
        ensures
            r@ == target_of(parts@),
    {
        let UriParts { authority, host, path, path_and_query } = parts;
        Target {
            authority: text_or_empty(authority),
            host: text_or_empty(host),
            path,
            path_and_query: text_or_empty(path_and_query),
        }
    }
}

/// An optional, owned byte string as plain values.
pub open spec fn held(bytes: Option<Vec<u8>>) -> Option<Seq<u8>> {
    match bytes {
        Some(b) => Some(b@),
        None => None,
    }
}

/// The parts of the URI that `http::uri::Builder` builds of a scheme, an
/// authority and a path with query; `None` where it refuses them.
pub uninterp spec fn uri_parts(scheme: Seq<char>, authority: Seq<u8>, path: Seq<char>) -> Option<
    UriPartsView,
>;

/// `http::Uri::builder`, `scheme`, `authority`, `path_and_query` and `build`,
/// then the parts of the URI that was built. The result is only given a name.
#[verifier::external_body]
fn http_uri(scheme: &str, authority: &[u8], path: &str) -> (r: Result<UriParts, http::Error>)
    ensures
        match r {
            Ok(parts) => uri_parts(scheme@, authority@, path@) == Some(parts@),
            Err(_) => uri_parts(scheme@, authority@, path@) is None,
        },
{
    let builder = http::Uri::builder().scheme(scheme).authority(authority).path_and_query(path);
    let uri = builder.build()?;
    Ok(UriParts {
        authority: uri.authority().map(|a| a.as_str().to_string()),
        host: uri.host().map(|h| h.to_string()),
        path: uri.path().to_string(),
        path_and_query: uri.path_and_query().map(|p| p.as_str().to_string()),
    })
}

/// The reason phrase that `http::StatusCode` has for a status code; `None`
/// where it has none, or where the number is no status code.
pub uninterp spec fn reason_text(status: u16) -> Option<Seq<char>>;

/// `http::StatusCode::from_u16`, then `canonical_reason`. The result is only
/// given a name.
#[verifier::external_body]
fn http_reason(status: u16) -> (r: Option<String>)
    ensures
        match r {
            Some(reason) => reason_text(status) == Some(reason@),
            None => reason_text(status) is None,
        },
{
    let code = http::StatusCode::from_u16(status).ok()?;
    code.canonical_reason().map(|reason| reason.to_string())
}

/// How the body of a request is read.
#[derive(Debug, Clone, Copy, PartialEq, Eq, Structural)]
pub enum BodyShape {
    /// From an HTTP/2 stream.
    Http2,
    /// As many bytes as `Content-Length` says, and no more.
    Plain(usize),
    /// Chunk by chunk, to the chunk of size zero.
    Chunked,
}

/// A request in the one shape that it has inside the balancer, whichever
/// version of HTTP the client spoke.
#[derive(Debug)]
pub struct Request {
    pub method: String,
    pub scheme: String,
    pub target: Target,
    pub headers: Vec<Header>,
    pub body: BodyShape,
}

/// A request as plain values.
pub struct RequestView {
    pub method: Seq<char>,
    pub scheme: Seq<char>,
    pub target: TargetView,
    pub headers: Seq<HeaderView>,
    pub body: BodyShape,
}

impl View for Request {
    type V = RequestView;

    open spec fn view(&self) -> RequestView {
        RequestView {
            method: self.method@,
            scheme: self.scheme@,
            target: self.target@,
            headers: header_views(self.headers@),
            body: self.body,
        }
    }
}

impl Request {
    /// `:authority`: the host with, where given, user and port.
    pub fn authority(&self) -> (r: &str)
        ensures
            r@ == self@.target.authority,
    {
        self.target.authority.as_str()
    }

    /// The host that the request is for.
    pub fn host(&self) -> (r: &str)
        ensures
            r@ == self@.target.host,
    {
        self.target.host.as_str()
    }

    /// The path of the request, without the query.
    pub fn path(&self) -> (r: &str)
        ensures
            r@ == self@.target.path,
    {
        self.target.path.as_str()
    }
}

/// The name `host` in bytes.
pub open spec fn host_name() -> Seq<u8> {
    seq![0x68u8, 0x6f, 0x73, 0x74]
}

/// Whether a header is a `Host` header, in whatever case it is written.
pub open spec fn is_host(header: HeaderView) -> bool {
    lower_all(text_bytes(header.name)) == host_name()
}

/// The value of the last `Host` header, if there is one.
pub open spec fn authority_of(raw: Seq<HeaderView>) -> Option<Seq<u8>>
    decreases raw.len(),
{
    if raw.len() == 0 {
        None
    } else if is_host(raw.last()) {
        Some(raw.last().value)
    } else {
        authority_of(raw.drop_last())
    }
}

/// The headers that go on with the request: all but `Host`, each under the
/// name as the `http` crate keeps it and with its value as it is. `None`
/// where the crate refuses a name or a value.
pub open spec fn headers_of(raw: Seq<HeaderView>) -> Option<Seq<HeaderView>>
    decreases raw.len(),
{
    if raw.len() == 0 {
        Some(Seq::empty())
    } else {
        match headers_of(raw.drop_last()) {
            None => None,
            Some(kept) => if is_host(raw.last()) {
                Some(kept)
            } else {
                match header_name_text(raw.last().name) {
                    Some(name) if value_ok(raw.last().value) => Some(
                        kept.push(HeaderView { name, value: raw.last().value }),
                    ),
                    _ => None,
                }
            },
        }
    }
}

/// Whether `kept` are the headers `raw` without `Host`, in their order, each
/// under the same name but for the case of letters and with the same
/// value.
pub open spec fn kept_as(raw: Seq<HeaderView>, kept: Seq<HeaderView>) -> bool
    decreases raw.len(),
{
    if raw.len() == 0 {
        kept.len() == 0
    } else if is_host(raw.last()) {
        kept_as(raw.drop_last(), kept)
    } else {
        &&& kept.len() > 0
        &&& same_name(kept.last().name, raw.last().name)
        &&& kept.last().value == raw.last().value
        &&& kept_as(raw.drop_last(), kept.drop_last())
    }
}

/// The method of a request: the one given as the `http` crate keeps it, or
/// `GET` where none is given.
pub open spec fn method_of(method: Option<Seq<char>>) -> Option<Seq<char>> {
    match method {
        Some(m) => method_text(m),
        None => Some("GET"@),
    }
}

/// Why a parsed head is no request.
pub enum Refusal {
    /// It names no target.
    MissingTarget,
    /// It has no `Host` header.
    MissingHost,
    /// The `http` crate refuses the method, a header or the target.
    Http,
}

/// The request that a parsed head stands for, before its body is chosen:
/// `Host` becomes the authority, the scheme is the one given, and the other
/// headers go on.
pub open spec fn normalized(head: RawHeadView, scheme: Seq<char>) -> Result<RequestView, Refusal> {
    match (head.path, authority_of(head.headers)) {
        (None, _) => Err(Refusal::MissingTarget),
        (Some(_), None) => Err(Refusal::MissingHost),
        (Some(path), Some(authority)) => match (
            method_of(head.method),
            headers_of(head.headers),
            uri_parts(scheme, authority, path),
        ) {
            (Some(method), Some(headers), Some(parts)) => Ok(
                RequestView {
                    method,
                    scheme,
                    target: target_of(parts),
                    headers,
                    body: BodyShape::Plain(0),
                },
            ),
            _ => Err(Refusal::Http),
        },
    }
}

/// What a refusal is as an error.
pub open spec fn is_refusal(e: LolbError, refusal: Refusal) -> bool {
    match refusal {
        Refusal::MissingTarget => e matches LolbError::Http11Parse(ParseError::MissingTarget),
        Refusal::MissingHost => e matches LolbError::Http11Parse(ParseError::MissingHost),
        Refusal::Http => e is Http,
    }
}

/// Turns a parsed head into a request: `Host` becomes the authority, the
/// scheme is the one given, and the other headers go on as the `http` crate
/// keeps them. Fails where the head names no target or has no `Host`, and
/// where the `http` crate refuses the method, a header or the target. The
/// body is chosen later.
pub fn normalize(head: RawHead, scheme: &str) -> (r: LolbResult<Request>)
    ensures
        match normalized(head@, scheme@) {
            Ok(request) => r matches Ok(got) && got@ == request,
            Err(refusal) => r matches Err(e) && is_refusal(e, refusal),
        },
        r matches Ok(got) ==> kept_as(head@.headers, got@.headers),
{
    let mut failure: Option<http::Error> = None;
    let method = match &head.method {
        Some(m) => match http_method(m.as_str()) {
            Ok(kept) => kept,
            Err(e) => {
                failure = Some(e);
                String::from_str("GET")
            },
        },
        None => String::from_str("GET"),
    };
    let ghost bad_method = failure is Some;
    assert(bad_method <==> method_of(head@.method) is None);
    assert(!bad_method ==> method_of(head@.method) == Some(method@));
    let mut authority: Option<Vec<u8>> = None;
    let mut headers: Vec<Header> = Vec::new();
    let mut bad_header = false;
    let ghost raw = head@.headers;
    let mut i: usize = 0;
    assert(raw.take(0) =~= Seq::<HeaderView>::empty());
    assert(header_views(headers@) =~= Seq::<HeaderView>::empty());
    while i < head.headers.len()
        invariant
            i <= head.headers@.len(),
            raw == head@.headers,
            raw.len() == head.headers@.len(),
            held(authority) == authority_of(raw.take(i as int)),
            bad_header <==> headers_of(raw.take(i as int)) is None,
            !bad_header ==> headers_of(raw.take(i as int)) == Some(header_views(headers@)),
            !bad_header ==> kept_as(raw.take(i as int), header_views(headers@)),
            failure is Some <==> bad_method || bad_header,
        decreases head.headers@.len() - i,
    {
        let header = &head.headers[i];
        proof {
            assert(raw.take(i + 1).drop_last() =~= raw.take(i as int));
            assert(raw.take(i + 1).last() == header@);
            reveal_strlit("host");
            assert("host"@ =~= seq!['h', 'o', 's', 't']);
            vstd::string::is_ascii_spec_bytes("host");
            assert(text_bytes("host"@) =~= host_name());
            assert(lower_all(host_name()) =~= host_name());
        }
        if eq_ignore_case(header.name.as_str().as_bytes(), "host".as_bytes()) {
            authority = Some(vstd::slice::slice_to_vec(header.value.as_slice()));
        } else if !bad_header {
            match (http_header_name(header.name.as_str()), http_header_value(header.value.as_slice())) {
                (Ok(name), Ok(value)) => {
                    let ghost before = headers@;
                    headers.push(Header { name, value });
                    assert(header_views(headers@) =~= header_views(before).push(
                        HeaderView { name: name@, value: value@ },
                    ));
                    assert(header_views(headers@).drop_last() =~= header_views(before));
                    assert(lower_all(lower_all(text_bytes(header@.name))) =~= lower_all(
                        text_bytes(header@.name),
                    ));
                },
                (Err(e), _) => {
                    bad_header = true;
                    if failure.is_none() {
                        failure = Some(e);
                    }
                },
                (_, Err(e)) => {
                    bad_header = true;
                    if failure.is_none() {
                        failure = Some(e);
                    }
                },
            }
        }
        i = i + 1;
    }
    assert(raw.take(i as int) =~= raw);
    let path = match &head.path {
        Some(p) => p.as_str(),
        None => {
            return Err(LolbError::Http11Parse(ParseError::MissingTarget));
        },
    };
    let target = match &authority {
        Some(a) => http_uri(scheme, a.as_slice(), path),
        None => {
            return Err(LolbError::Http11Parse(ParseError::MissingHost));
        },
    };
    match target {
        Err(e) => Err(LolbError::Http(e)),
        Ok(parts) => match failure {
            Some(e) => Err(LolbError::Http(e)),
            None => Ok(
                Request {
                    method,
                    scheme: scheme.to_owned(),
                    target: Target::from_parts(parts),
                    headers,
                    body: BodyShape::Plain(0),
                },
            ),
        },
    }
}

/// What the bytes at the start of a stream are as a request: the request
/// and where its body starts, or nothing yet while the head has not ended.
pub open spec fn parsed(buf: Seq<u8>, scheme: Seq<char>) -> Result<Option<(RequestView, usize)>, ()> {
    match httparse_request(buf, MAX_HEADERS) {
        HeadParse::Malformed => Err(()),
        HeadParse::Partial => Ok(None),
        HeadParse::Complete(head) => match normalized(head, scheme) {
            Ok(request) => Ok(Some((request, head.head_len))),
            Err(_) => Err(()),
        },
    }
}

/// Parses the head of a request, if `buf` holds all of it, and says where
/// the body starts.
pub fn try_parse_http11(buf: &[u8], scheme: &str) -> (r: LolbResult<Option<(Request, usize)>>)
    ensures
        match r {
            Ok(Some((request, head_len))) => {
                &&& parsed(buf@, scheme@) == Ok::<Option<(RequestView, usize)>, ()>(
                    Some((request@, head_len)),
                )
                &&& head_len <= buf@.len()
                &&& httparse_request(buf@, MAX_HEADERS) matches HeadParse::Complete(head)
                &&& kept_as(head.headers, request@.headers)
            },
            Ok(None) => parsed(buf@, scheme@) == Ok::<Option<(RequestView, usize)>, ()>(None),
            Err(e) => parsed(buf@, scheme@) is Err && match httparse_request(buf@, MAX_HEADERS) {
                HeadParse::Malformed => e matches LolbError::Http11Parse(ParseError::Head(_)),
                HeadParse::Complete(head) => normalized(head, scheme@) matches Err(refusal)
                    && is_refusal(e, refusal),
                HeadParse::Partial => false,
            },
        },
{
    let head = match parse_head(buf, MAX_HEADERS) {
        Ok(Some(head)) => head,
        Ok(None) => {
            return Ok(None);
        },
        Err(e) => {
            return Err(LolbError::Http11Parse(ParseError::Head(e)));
        },
    };
    let head_len = head.head_len;
    let request = normalize(head, scheme)?;
    Ok(Some((request, head_len)))
}

/// Whether two header names are the same name: the same but for the case
/// of letters.
pub open spec fn same_name(a: Seq<char>, b: Seq<char>) -> bool {
    lower_all(text_bytes(a)) == lower_all(text_bytes(b))
}

/// Whether two header names are the same name.
pub fn names_match(a: &str, b: &str) -> (same: bool)
    ensures
        same == same_name(a@, b@),
{
    eq_ignore_case(a.as_bytes(), b.as_bytes())
}

/// The value of the first header of a name, in whatever case the names are
/// written.
pub open spec fn first_value(headers: Seq<HeaderView>, name: Seq<char>) -> Option<Seq<u8>>
    decreases headers.len(),
{
    if headers.len() == 0 {
        None
    } else if same_name(headers[0].name, name) {
        Some(headers[0].value)
    } else {
        first_value(headers.skip(1), name)
    }
}

proof fn lemma_first_value_at(headers: Seq<HeaderView>, name: Seq<char>, i: int)
    requires
        0 <= i <= headers.len(),
        forall|k: int| 0 <= k < i ==> !same_name((#[trigger] headers[k]).name, name),
    ensures
        first_value(headers, name) == first_value(headers.skip(i), name),
    decreases i,
{
    if i == 0 {
        assert(headers.skip(0) =~= headers);
    } else {
        assert forall|k: int| 0 <= k < i - 1 implies !same_name(
            (#[trigger] headers.skip(1)[k]).name,
            name,
        ) by {
            assert(headers.skip(1)[k] == headers[k + 1]);
        }
        lemma_first_value_at(headers.skip(1), name, i - 1);
        assert(headers.skip(1).skip(i - 1) =~= headers.skip(i));
    }
}

/// The value of the first header of a name, if there is one.
pub fn find_header<'a>(headers: &'a Vec<Header>, name: &str) -> (r: Option<&'a Vec<u8>>)
    ensures
        match r {
            Some(value) => first_value(header_views(headers@), name@) == Some(value@),
            None => first_value(header_views(headers@), name@) is None,
        },
{
    let ghost views = header_views(headers@);
    let mut i: usize = 0;
    while i < headers.len()
        invariant
            i <= headers@.len(),
            views == header_views(headers@),
            forall|k: int| 0 <= k < i ==> !same_name((#[trigger] views[k]).name, name@),
        decreases headers@.len() - i,
    {
        proof {
            lemma_first_value_at(views, name@, i as int);
            assert(views.skip(i as int)[0] == headers@[i as int]@);
        }
        if names_match(headers[i].name.as_str(), name) {
            return Some(&headers[i].value);
        }
        i = i + 1;
    }
    proof {
        lemma_first_value_at(views, name@, i as int);
    }
    None
}

/// The headers without those of a name.
pub open spec fn without(headers: Seq<HeaderView>, name: Seq<char>) -> Seq<HeaderView>
    decreases headers.len(),
{
    if headers.len() == 0 {
        Seq::empty()
    } else if same_name(headers.last().name, name) {
        without(headers.drop_last(), name)
    } else {
        without(headers.drop_last(), name).push(headers.last())
    }
}

/// The headers of a list without those of a name.
pub fn remove_header(headers: &Vec<Header>, name: &str) -> (kept: Vec<Header>)
    ensures
        header_views(kept@) == without(header_views(headers@), name@),
{
    let ghost views = header_views(headers@);
    let mut kept: Vec<Header> = Vec::new();
    let mut i: usize = 0;
    assert(views.take(0) =~= Seq::<HeaderView>::empty());
    assert(header_views(kept@) =~= Seq::<HeaderView>::empty());
    while i < headers.len()
        invariant
            i <= headers@.len(),
            views == header_views(headers@),
            header_views(kept@) == without(views.take(i as int), name@),
        decreases headers@.len() - i,
    {
        let header = &headers[i];
        proof {
            assert(views.take(i + 1).drop_last() =~= views.take(i as int));
            assert(views.take(i + 1).last() == header@);
        }
        if !names_match(header.name.as_str(), name) {
            let ghost before = kept@;
            let copy = Header {
                name: header.name.clone(),
                value: vstd::slice::slice_to_vec(header.value.as_slice()),
            };
            kept.push(copy);
            assert(header_views(kept@) =~= header_views(before).push(header@));
        }
        i = i + 1;
    }
    assert(views.take(i as int) =~= views);
    kept
}

/// Whether a byte is a space or a tab.
pub open spec fn is_blank(b: u8) -> bool {
    b == 0x20 || b == 0x09
}

/// Where the last entry of a comma-separated list starts: behind the last
/// comma, or at the start.
pub open spec fn last_entry_start(value: Seq<u8>) -> int
    decreases value.len(),
{
    if value.len() == 0 {
        0
    } else if value.last() == 0x2C {
        value.len() as int
    } else {
        last_entry_start(value.drop_last())
    }
}

/// A byte string without the blanks around it.
pub open spec fn trimmed(value: Seq<u8>) -> Seq<u8>
    decreases value.len(),
{
    if value.len() > 0 && is_blank(value[0]) {
        trimmed(value.skip(1))
    } else if value.len() > 0 && is_blank(value.last()) {
        trimmed(value.drop_last())
    } else {
        value
    }
}

/// The last entry of a comma-separated list, without the blanks around it.
pub open spec fn last_token(value: Seq<u8>) -> Seq<u8> {
    trimmed(value.skip(last_entry_start(value)))
}

/// The word `chunked` in bytes.
pub open spec fn chunked_word() -> Seq<u8> {
    seq![0x63u8, 0x68, 0x75, 0x6e, 0x6b, 0x65, 0x64]
}

/// Whether a `Transfer-Encoding` value ends in `chunked`, in whatever case.
pub open spec fn names_chunked(value: Seq<u8>) -> bool {
    lower_all(last_token(value)) == chunked_word()
}

proof fn lemma_last_entry_is(value: Seq<u8>, start: int)
    requires
        0 <= start <= value.len(),
        start > 0 ==> value[start - 1] == 0x2C,
        forall|k: int| start <= k < value.len() ==> value[k] != 0x2C,
    ensures
        last_entry_start(value) == start,
    decreases value.len(),
{
    if value.len() > 0 && value.last() != 0x2C {
        lemma_last_entry_is(value.drop_last(), start);
    }
}

/// Whether a `Transfer-Encoding` value ends in `chunked`.
pub fn is_chunked(value: &[u8]) -> (r: bool)
    ensures
        r == names_chunked(value@),
{
    let mut start: usize = value.len();
    while start > 0 && value[start - 1] != 0x2C
        invariant
            start <= value@.len(),
            forall|k: int| start <= k < value@.len() ==> value@[k] != 0x2C,
        decreases start,
    {
        start = start - 1;
    }
    proof {
        lemma_last_entry_is(value@, start as int);
    }
    let ghost entry = value@.skip(start as int);
    let mut lo: usize = start;
    let mut hi: usize = value.len();
    assert(value@.subrange(lo as int, hi as int) =~= entry);
    while lo < hi && (value[lo] == 0x20 || value[lo] == 0x09)
        invariant
            start <= lo <= hi,
            hi == value@.len(),
            trimmed(entry) == trimmed(value@.subrange(lo as int, hi as int)),
        decreases hi - lo,
    {
        proof {
            let now = value@.subrange(lo as int, hi as int);
            assert(now[0] == value@[lo as int]);
            assert(now.skip(1) =~= value@.subrange(lo + 1, hi as int));
        }
        lo = lo + 1;
    }
    while lo < hi && (value[hi - 1] == 0x20 || value[hi - 1] == 0x09)
        invariant
            lo <= hi <= value@.len(),
            lo < hi ==> !is_blank(value@[lo as int]),
            trimmed(entry) == trimmed(value@.subrange(lo as int, hi as int)),
        decreases hi - lo,
    {
        proof {
            let now = value@.subrange(lo as int, hi as int);
            assert(now[0] == value@[lo as int]);
            assert(now.last() == value@[hi - 1]);
            assert(now.drop_last() =~= value@.subrange(lo as int, hi - 1));
        }
        hi = hi - 1;
    }
    let token = vstd::slice::slice_subrange(value, lo, hi);
    proof {
        if lo < hi {
            assert(token@[0] == value@[lo as int]);
            assert(token@.last() == value@[hi - 1]);
        }
        assert(trimmed(token@) == token@);
        reveal_strlit("chunked");
        assert("chunked"@ =~= seq!['c', 'h', 'u', 'n', 'k', 'e', 'd']);
        vstd::string::is_ascii_spec_bytes("chunked");
        assert(text_bytes("chunked"@) =~= chunked_word());
        assert(lower_all(chunked_word()) =~= chunked_word());
    }
    eq_ignore_case(token, "chunked".as_bytes())
}

/// How the body of a request with these headers is read, and the headers
/// that go on: `Transfer-Encoding` is taken out, and where its first value
/// ends in `chunked` the body is chunked; else the first `Content-Length`
/// says how long the body is, and none means it is empty. `Err` where
/// `Content-Length` is not a number.
pub open spec fn body_choice(headers: Seq<HeaderView>) -> Result<(Seq<HeaderView>, BodyShape), ()> {
    let kept = without(headers, "transfer-encoding"@);
    match first_value(headers, "transfer-encoding"@) {
        Some(value) if names_chunked(value) => Ok((kept, BodyShape::Chunked)),
        _ => match first_value(kept, "content-length"@) {
            None => Ok((kept, BodyShape::Plain(0))),
            Some(digits) => if crate::text::is_decimal(digits) && crate::text::decimal_value(
                digits,
            ) <= usize::MAX {
                Ok((kept, BodyShape::Plain(crate::text::decimal_value(digits) as usize)))
            } else {
                Err(())
            },
        },
    }
}

/// Chooses how the body of a request is read, and takes `Transfer-Encoding`
/// out of its headers.
pub fn select_body(request: Request) -> (r: LolbResult<Request>)
    ensures
        match body_choice(request@.headers) {
            Ok((headers, body)) => r matches Ok(chosen) && chosen@ == (RequestView {
                headers,
                body,
                ..request@
            }),
            Err(_) => r matches Err(LolbError::Http11Parse(ParseError::ContentLength)),
        },
{
    let Request { method, scheme, target, headers, body: _ } = request;
    let chunked = match find_header(&headers, "transfer-encoding") {
        Some(value) => is_chunked(value.as_slice()),
        None => false,
    };
    let headers = remove_header(&headers, "transfer-encoding");
    let body = if chunked {
        BodyShape::Chunked
    } else {
        match find_header(&headers, "content-length") {
            None => BodyShape::Plain(0),
            Some(digits) => match parse_decimal(digits.as_slice()) {
                Some(n) => BodyShape::Plain(n),
                None => {
                    return Err(LolbError::Http11Parse(ParseError::ContentLength));
                },
            },
        }
    };
    Ok(Request { method, scheme, target, headers, body })
}

/// The scheme of a connection.
pub open spec fn scheme_of(secure: bool) -> Seq<char> {
    if secure {
        "https"@
    } else {
        "http"@
    }
}

/// The request that opens a stream, as far as `n` bytes of it show: the
/// request with its body chosen, and where the body starts.
pub open spec fn request_in(stream: Seq<u8>, n: int, secure: bool, request: RequestView, head_len: int)
    -> bool {
    &&& 0 <= head_len <= n <= stream.len()
    &&& n <= HTTP11_PARSE_BUF_SIZE
    &&& parsed(stream.take(n), scheme_of(secure)) matches Ok(Some((head, len)))
    &&& len == head_len
    &&& body_choice(head.headers) == Ok::<(Seq<HeaderView>, BodyShape), ()>(
        (request.headers, request.body),
    )
    &&& request == (RequestView { headers: request.headers, body: request.body, ..head })
}

/// Reads the head of the next request from a connection.
///
/// The stream is looked into, up to 16 KiB, until it shows a whole head.
/// Then the head is taken from the stream, so that the body is what comes
/// next, and the request is handed out with its body chosen. A stream that
/// ends before its first byte holds no further request. One that ends
/// inside a head, or whose head has not ended after 16 KiB, or is
/// malformed, fails.
pub fn parse_http11<S: Socket>(conn: &mut Connection<S>) -> (r: LolbResult<Option<Request>>)
    ensures
        final(conn).version() == old(conn).version(),
        final(conn).secure() == old(conn).secure(),
        final(conn).stream().outgoing() == old(conn).stream().outgoing(),
        final(conn).stream().reliable() == old(conn).stream().reliable(),
        match r {
            Ok(Some(request)) => exists|n: int, head_len: int|
                #![trigger request_in(old(conn).stream().incoming(), n, old(conn).secure(), request@, head_len)]
                {
                    &&& request_in(
                        old(conn).stream().incoming(),
                        n,
                        old(conn).secure(),
                        request@,
                        head_len,
                    )
                    &&& final(conn).stream().incoming() == old(conn).stream().incoming().skip(
                        head_len,
                    )
                },
            Ok(None) => {
                &&& old(conn).stream().incoming().len() == 0
                &&& final(conn).stream().incoming() == old(conn).stream().incoming()
            },
            Err(LolbError::Http11Parse(ParseError::Incomplete)) => {
                &&& 0 < old(conn).stream().incoming().len() < HTTP11_PARSE_BUF_SIZE
                &&& parsed(old(conn).stream().incoming(), scheme_of(old(conn).secure())) == Ok::<
                    Option<(RequestView, usize)>,
                    (),
                >(None)
            },
            Err(LolbError::Http11Parse(ParseError::HeaderTooLarge)) => {
                &&& old(conn).stream().incoming().len() >= HTTP11_PARSE_BUF_SIZE
                &&& parsed(
                    old(conn).stream().incoming().take(HTTP11_PARSE_BUF_SIZE as int),
                    scheme_of(old(conn).secure()),
                ) == Ok::<Option<(RequestView, usize)>, ()>(None)
            },
            Err(LolbError::Http11Parse(ParseError::ContentLength)) => exists|n: int|
                0 <= n <= old(conn).stream().incoming().len() && n <= HTTP11_PARSE_BUF_SIZE && (
                #[trigger] parsed(
                    old(conn).stream().incoming().take(n),
                    scheme_of(old(conn).secure()),
                ) matches Ok(Some(found)) && body_choice(found.0.headers) is Err),
            Err(LolbError::Io(_)) => !old(conn).stream().reliable(),
            Err(_) => exists|n: int|
                0 <= n <= old(conn).stream().incoming().len() && n <= HTTP11_PARSE_BUF_SIZE
                    && #[trigger] parsed(
                    old(conn).stream().incoming().take(n),
                    scheme_of(old(conn).secure()),
                ) is Err,
        },
{
    let secure = conn.is_secure();
    let scheme = if secure {
        "https"
    } else {
        "http"
    };
    let ghost stream = conn.stream().incoming();
    let mut buf: Vec<u8> = vec![0u8; HTTP11_PARSE_BUF_SIZE];
    let is_enough = |so_far: &[u8]| -> (enough: bool)
        ensures
            enough <==> parsed(so_far@, scheme@) matches Ok(Some(_)),
        {
            match try_parse_http11(so_far, scheme) {
                Ok(Some(_)) => true,
                _ => false,
            }
        };
    let peeked_amount = match conn.socket().peek(buf.as_mut_slice(), is_enough) {
        Ok(n) => n,
        Err(e) => {
            return Err(LolbError::Io(e));
        },
    };
    let seen = vstd::slice::slice_subrange(buf.as_slice(), 0, peeked_amount);
    assert(seen@ =~= stream.take(peeked_amount as int));
    let (head, header_len) = match try_parse_http11(seen, scheme)? {
        Some(found) => found,
        None => {
            if peeked_amount == 0 {
                return Ok(None);
            } else if peeked_amount < HTTP11_PARSE_BUF_SIZE {
                assert(stream.take(peeked_amount as int) =~= stream);
                return Err(LolbError::Http11Parse(ParseError::Incomplete));
            } else {
                return Err(LolbError::Http11Parse(ParseError::HeaderTooLarge));
            }
        },
    };
    let mut scratch: Vec<u8> = vec![0u8; header_len];
    let taken = crate::conn::read_full(conn.socket(), scratch.as_mut_slice())?;
    let request = select_body(head)?;
    proof {
        assert(taken == header_len);
        assert(request_in(stream, peeked_amount as int, secure, request@, header_len as int));
    }
    Ok(Some(request))
}

/// A response head: the status and the headers.
#[derive(Debug)]
pub struct Response {
    pub status: u16,
    pub headers: Vec<Header>,
}

/// A response head as plain values.
pub struct ResponseView {
    pub status: u16,
    pub headers: Seq<HeaderView>,
}

impl View for Response {
    type V = ResponseView;

    open spec fn view(&self) -> ResponseView {
        ResponseView { status: self.status, headers: header_views(self.headers@) }
    }
}

/// A number in decimal digits, without leading zeros.
pub open spec fn decimal_digits(n: nat) -> Seq<u8>
    decreases n,
{
    if n < 10 {
        seq![(0x30 + n) as u8]
    } else {
        decimal_digits(n / 10).push((0x30 + n % 10) as u8)
    }
}

/// A number in decimal digits.
pub fn to_decimal(n: usize) -> (digits: Vec<u8>)
    ensures
        digits@ == decimal_digits(n as nat),
    decreases n,
{
    let c: u8 = 0x30 + (n % 10) as u8;
    if n < 10 {
        let mut digits: Vec<u8> = Vec::new();
        digits.push(c);
        assert(digits@ =~= seq![(0x30 + n) as u8]);
        digits
    } else {
        let mut digits = to_decimal(n / 10);
        digits.push(c);
        digits
    }
}

/// A header on the wire: name, colon, blank, value, line end.
pub open spec fn header_line(header: HeaderView) -> Seq<u8> {
    text_bytes(header.name) + seq![0x3Au8, 0x20u8] + header.value + seq![0x0Du8, 0x0Au8]
}

/// Headers on the wire, line by line.
pub open spec fn header_lines(headers: Seq<HeaderView>) -> Seq<u8>
    decreases headers.len(),
{
    if headers.len() == 0 {
        Seq::empty()
    } else {
        header_lines(headers.drop_last()) + header_line(headers.last())
    }
}

/// The reason phrase that goes with a status: the one that the `http`
/// crate has for it, or `Unknown`.
pub open spec fn reason_of(status: u16) -> Seq<char> {
    match reason_text(status) {
        Some(reason) => reason,
        None => "Unknown"@,
    }
}

/// A response head on the wire: the status line, the headers, an empty
/// line.
pub open spec fn response_wire(response: ResponseView) -> Seq<u8> {
    text_bytes("HTTP/1.1 "@) + decimal_digits(response.status as nat) + seq![0x20u8] + text_bytes(
        reason_of(response.status),
    ) + seq![0x0Du8, 0x0Au8] + header_lines(response.headers) + seq![0x0Du8, 0x0Au8]
}

/// Writes a response head in HTTP/1.1 behind what `out` holds.
pub fn write_http11_response(out: &mut Vec<u8>, response: &Response)
    ensures
        final(out)@ == old(out)@ + response_wire(response@),
{
    let ghost start = out@;
    out.extend_from_slice("HTTP/1.1 ".as_bytes());
    let digits = to_decimal(response.status as usize);
    out.extend_from_slice(digits.as_slice());
    out.push(0x20);
    let reason = match http_reason(response.status) {
        Some(reason) => reason,
        None => String::from_str("Unknown"),
    };
    out.extend_from_slice(reason.as_str().as_bytes());
    out.push(0x0D);
    out.push(0x0A);
    let ghost line = out@;
    assert(line =~= start + (text_bytes("HTTP/1.1 "@) + decimal_digits(response.status as nat)
        + seq![0x20u8] + text_bytes(reason_of(response.status)) + seq![0x0Du8, 0x0Au8]));
    let ghost views = response@.headers;
    let mut i: usize = 0;
    assert(views.take(0) =~= Seq::<HeaderView>::empty());
    assert(out@ =~= line + header_lines(views.take(0)));
    while i < response.headers.len()
        invariant
            i <= response.headers@.len(),
            views == response@.headers,
            views.len() == response.headers@.len(),
            out@ == line + header_lines(views.take(i as int)),
        decreases response.headers@.len() - i,
    {
        let header = &response.headers[i];
        let ghost before = out@;
        out.extend_from_slice(header.name.as_str().as_bytes());
        out.push(0x3A);
        out.push(0x20);
        out.extend_from_slice(header.value.as_slice());
        out.push(0x0D);
        out.push(0x0A);
        proof {
            assert(views.take(i + 1).drop_last() =~= views.take(i as int));
            assert(views.take(i + 1).last() == header@);
            assert(out@ =~= before + header_line(header@));
            assert(out@ =~= line + header_lines(views.take(i + 1)));
        }
        i = i + 1;
    }
    assert(views.take(i as int) =~= views);
    out.push(0x0D);
    out.push(0x0A);
    assert(out@ =~= start + response_wire(response@));
}

/// Where a byte first stands in a byte string; the length where it does
/// not.
pub open spec fn first_index(s: Seq<u8>, b: u8) -> int
    decreases s.len(),
{
    if s.len() == 0 || s[0] == b {
        0
    } else {
        1 + first_index(s.skip(1), b)
    }
}

/// A header as bytes: the name and the value.
pub open spec fn header_bytes(header: HeaderView) -> (Seq<u8>, Seq<u8>) {
    (text_bytes(header.name), header.value)
}

/// Headers as bytes, in order.
pub open spec fn headers_bytes(headers: Seq<HeaderView>) -> Seq<(Seq<u8>, Seq<u8>)> {
    headers.map_values(|h: HeaderView| header_bytes(h))
}

/// Reads a block of header lines back: each line is a name up to the first
/// colon, a blank, and a value up to the line end; an empty line ends the
/// block. `None` where the bytes are no such block.
pub open spec fn read_lines(wire: Seq<u8>) -> Option<Seq<(Seq<u8>, Seq<u8>)>>
    decreases wire.len(),
{
    if wire.len() >= 2 && wire[0] == 0x0D && wire[1] == 0x0A {
        Some(Seq::empty())
    } else {
        let colon = first_index(wire, 0x3A);
        if colon < 0 || colon + 1 >= wire.len() || wire[colon + 1] != 0x20 {
            None
        } else {
            let rest = wire.skip(colon + 2);
            let end = first_index(rest, 0x0D);
            if end < 0 || end + 1 >= rest.len() || rest[end + 1] != 0x0A {
                None
            } else {
                match read_lines(rest.skip(end + 2)) {
                    None => None,
                    Some(more) => Some(seq![(wire.take(colon), rest.take(end))] + more),
                }
            }
        }
    }
}

/// The value of the first header whose name is the one asked for, whatever
/// the case of either.
pub open spec fn lookup(headers: Seq<(Seq<u8>, Seq<u8>)>, name: Seq<u8>) -> Option<Seq<u8>>
    decreases headers.len(),
{
    if headers.len() == 0 {
        None
    } else if lower_all(headers[0].0) == lower_all(name) {
        Some(headers[0].1)
    } else {
        lookup(headers.skip(1), name)
    }
}

/// Whether a header can stand on a line of its own: its name holds no
/// colon and no carriage return, its value no carriage return.
pub open spec fn fits_a_line(header: HeaderView) -> bool {
    &&& forall|i: int|
        0 <= i < text_bytes(header.name).len() ==> #[trigger] text_bytes(header.name)[i] != 0x3A
            && text_bytes(header.name)[i] != 0x0D
    &&& forall|i: int| 0 <= i < header.value.len() ==> #[trigger] header.value[i] != 0x0D
}

proof fn lemma_first_index(front: Seq<u8>, b: u8, back: Seq<u8>)
    requires
        forall|i: int| 0 <= i < front.len() ==> #[trigger] front[i] != b,
    ensures
        first_index(front + seq![b] + back, b) == front.len(),
    decreases front.len(),
{
    let s = front + seq![b] + back;
    if front.len() == 0 {
        assert(s[0] == b);
    } else {
        assert(s[0] == front[0]);
        assert forall|i: int| 0 <= i < front.skip(1).len() implies #[trigger] front.skip(1)[i]
            != b by {
            assert(front.skip(1)[i] == front[i + 1]);
        }
        lemma_first_index(front.skip(1), b, back);
        assert(s.skip(1) =~= front.skip(1) + seq![b] + back);
    }
}

proof fn lemma_header_lines_front(headers: Seq<HeaderView>)
    requires
        headers.len() > 0,
    ensures
        header_lines(headers) == header_line(headers[0]) + header_lines(headers.skip(1)),
    decreases headers.len(),
{
    if headers.len() == 1 {
        assert(headers.drop_last() =~= Seq::<HeaderView>::empty());
        assert(headers.skip(1) =~= Seq::<HeaderView>::empty());
        assert(header_lines(headers) =~= header_line(headers[0]) + header_lines(headers.skip(1)));
    } else {
        lemma_header_lines_front(headers.drop_last());
        assert(headers.drop_last().skip(1) =~= headers.skip(1).drop_last());
        assert(headers.skip(1).last() == headers.last());
        assert(header_lines(headers) =~= header_line(headers[0]) + header_lines(headers.skip(1)));
    }
}

/// A header line in front of a block reads back as the header, in front of
/// what the block reads back as.
proof fn lemma_read_line(header: HeaderView, tail: Seq<u8>)
    requires
        fits_a_line(header),
    ensures
        read_lines(header_line(header) + tail) == match read_lines(tail) {
            Some(more) => Some(seq![header_bytes(header)] + more),
            None => None,
        },
{
    let n = text_bytes(header.name);
    let v = header.value;
    let end = seq![0x0Du8, 0x0Au8];
    let wire = header_line(header) + tail;
    let behind_colon = seq![0x20u8] + v + end + tail;
    assert(wire =~= n + seq![0x3Au8] + behind_colon);
    lemma_first_index(n, 0x3A, behind_colon);
    let colon = n.len() as int;
    assert(first_index(wire, 0x3A) == colon);
    assert(wire[0] != 0x0D) by {
        if n.len() > 0 {
            assert(wire[0] == n[0]);
        } else {
            assert(wire[0] == 0x3A);
        }
    }
    assert(wire[colon + 1] == 0x20);
    let rest = wire.skip(colon + 2);
    let behind_value = seq![0x0Au8] + tail;
    assert(rest =~= v + seq![0x0Du8] + behind_value);
    lemma_first_index(v, 0x0D, behind_value);
    let stop = v.len() as int;
    assert(first_index(rest, 0x0D) == stop);
    assert(rest[stop + 1] == 0x0A);
    assert(rest.skip(stop + 2) =~= tail);
    assert(wire.take(colon) =~= n);
    assert(rest.take(stop) =~= v);
}

/// The block of header lines that a response head is written with reads
/// back as the headers given, names and values, line by line. This holds
/// of headers that can stand on a line each.
pub proof fn law_headers_read_back(headers: Seq<HeaderView>)
    requires
        forall|i: int| 0 <= i < headers.len() ==> fits_a_line(#[trigger] headers[i]),
    ensures
        read_lines(header_lines(headers) + seq![0x0Du8, 0x0Au8]) == Some(headers_bytes(headers)),
    decreases headers.len(),
{
    let end = seq![0x0Du8, 0x0Au8];
    if headers.len() == 0 {
        assert(header_lines(headers) + end =~= end);
        assert(headers_bytes(headers) =~= Seq::<(Seq<u8>, Seq<u8>)>::empty());
    } else {
        let first = headers[0];
        let others = headers.skip(1);
        assert forall|i: int| 0 <= i < others.len() implies fits_a_line(#[trigger] others[i]) by {
            assert(others[i] == headers[i + 1]);
        }
        law_headers_read_back(others);
        lemma_header_lines_front(headers);
        let tail = header_lines(others) + end;
        assert(header_lines(headers) + end =~= header_line(first) + tail);
        lemma_read_line(first, tail);
        assert(seq![header_bytes(first)] + headers_bytes(others) =~= headers_bytes(headers));
    }
}

/// Looking a name up among the header lines of a response head, in
/// whatever case, finds what looking it up among the headers given finds.
pub proof fn law_headers_found_again(headers: Seq<HeaderView>, name: Seq<u8>)
    requires
        forall|i: int| 0 <= i < headers.len() ==> fits_a_line(#[trigger] headers[i]),
    ensures
        read_lines(header_lines(headers) + seq![0x0Du8, 0x0Au8]) matches Some(lines) && lookup(
            lines,
            name,
        ) == lookup(headers_bytes(headers), name),
{
    law_headers_read_back(headers);
}

/// The first header of a name among headers is the first among all but the
/// last, or else the last.
proof fn lemma_first_value_last(headers: Seq<HeaderView>, name: Seq<char>)
    requires
        headers.len() > 0,
    ensures
        first_value(headers, name) == match first_value(headers.drop_last(), name) {
            Some(v) => Some(v),
            None => if same_name(headers.last().name, name) {
                Some(headers.last().value)
            } else {
                None
            },
        },
    decreases headers.len(),
{
    if headers.len() == 1 {
        assert(headers.drop_last() =~= Seq::<HeaderView>::empty());
        assert(headers.skip(1) =~= Seq::<HeaderView>::empty());
    } else {
        assert(headers.drop_last()[0] == headers[0]);
        if !same_name(headers[0].name, name) {
            lemma_first_value_last(headers.skip(1), name);
            assert(headers.skip(1).drop_last() =~= headers.drop_last().skip(1));
            assert(headers.skip(1).last() == headers.last());
        }
    }
}

/// A request keeps the headers of the head that it was read from, names
/// and values, up to the case of names: looking a name other than `Host`
/// up among the headers of the request finds the value that looking it up
/// in the head finds.
pub proof fn law_headers_kept(raw: Seq<HeaderView>, kept: Seq<HeaderView>, name: Seq<char>)
    requires
        kept_as(raw, kept),
        lower_all(text_bytes(name)) != host_name(),
    ensures
        first_value(kept, name) == first_value(raw, name),
    decreases raw.len(),
{
    if raw.len() > 0 {
        lemma_first_value_last(raw, name);
        if is_host(raw.last()) {
            law_headers_kept(raw.drop_last(), kept, name);
        } else {
            lemma_first_value_last(kept, name);
            law_headers_kept(raw.drop_last(), kept.drop_last(), name);
        }
    }
}

} // verus!
