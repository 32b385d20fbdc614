//! Starting a response to the client.

use vstd::prelude::*;
use vstd::string::*;
use crate::body::Http11Body;
use crate::chunked::ChunkedEncoder;
use crate::conn::{write_all, Socket};
use crate::error::{LolbError, LolbResult};
use crate::http11::{
    find_header, first_value, header_views, remove_header, response_wire, without,
    write_http11_response, Header, HeaderView, Response, ResponseView,
};
use crate::limit::LimitWrite;
use crate::text::{decimal_value, is_decimal, parse_decimal};

verus! {

/// How the body of a response goes out over HTTP/1.1.
#[derive(Debug, Clone, Copy, PartialEq, Eq, Structural)]
pub enum BodyMode {
    /// There is no body.
    NoBody,
    /// The body has the length that `Content-Length` says.
    Limited(usize),
    /// The body goes out in chunks.
    Chunked,
}

/// The length that the headers announce: the number in the first
/// `Content-Length`, if that is a number.
pub open spec fn content_length(headers: Seq<HeaderView>) -> Option<usize> {
    match first_value(headers, "content-length"@) {
        Some(digits) => if is_decimal(digits) && decimal_value(digits) <= usize::MAX {
            Some(decimal_value(digits) as usize)
        } else {
            None
        },
        None => None,
    }
}

/// How the body of a response with these headers goes out: with the length
/// that is announced; else in chunks, unless the upstream has already ended
/// the stream, in which case there is no body.
pub open spec fn body_mode(headers: Seq<HeaderView>, is_end: bool) -> BodyMode {
    match content_length(headers) {
        Some(n) => BodyMode::Limited(n),
        None => if is_end {
            BodyMode::NoBody
        } else {
            BodyMode::Chunked
        },
    }
}

/// The header that announces a chunked body.
pub open spec fn chunked_header() -> HeaderView {
    HeaderView { name: "transfer-encoding"@, value: crate::http11::chunked_word() }
}

/// The head that goes out: the one given, with `Transfer-Encoding: chunked`
/// in place of any other transfer encoding where the body goes out in
/// chunks.
pub open spec fn head_sent(response: ResponseView, is_end: bool) -> ResponseView {
    if body_mode(response.headers, is_end) is Chunked {
        ResponseView {
            headers: without(response.headers, "transfer-encoding"@).push(chunked_header()),
            ..response
        }
    } else {
        response
    }
}

/// Decides how the body of a response goes out over HTTP/1.1.
pub fn choose_body_mode(response: &Response, is_end: bool) -> (mode: BodyMode)
    ensures
        mode == body_mode(response@.headers, is_end),
{
    let content_len = match find_header(&response.headers, "content-length") {
        Some(digits) => parse_decimal(digits.as_slice()),
        None => None,
    };
    match content_len {
        Some(n) => BodyMode::Limited(n),
        None => if is_end {
            BodyMode::NoBody
        } else {
            BodyMode::Chunked
        },
    }
}

/// Starts a response over HTTP/1.1: writes the head to the socket and hands
/// out the writer for the body. `is_end` says that the upstream has ended
/// the stream with the head, so that no body will come.
pub fn send_response_http1<S: Socket>(socket: S, res: Response, is_end: bool) -> (r: LolbResult<
    Http11Body<S>,
>)
    ensures
        r matches Err(e) ==> !socket.reliable() && (e is Io || e == LolbError::Message(
            "failed to write whole buffer",
        )),
        r matches Ok(body) ==> {
            &&& body.socket().incoming() == socket.incoming()
            &&& body.socket().reliable() == socket.reliable()
            &&& body.socket().outgoing() == socket.outgoing() + response_wire(
                head_sent(res@, is_end),
            )
            &&& match body_mode(res@.headers, is_end) {
                BodyMode::NoBody => body is NoBody,
                BodyMode::Limited(n) => body matches Http11Body::Limited(w) && w.limit() == n
                    && w.written() == 0,
                BodyMode::Chunked => body is Chunked,
            }
        },
{
    let mode = choose_body_mode(&res, is_end);
    let mut res = res;
    let ghost given = res@;
    match mode {
        BodyMode::Chunked => {
            let mut headers = remove_header(&res.headers, "transfer-encoding");
            let mut value: Vec<u8> = Vec::new();
            value.extend_from_slice("chunked".as_bytes());
            proof {
                reveal_strlit("chunked");
                assert("chunked"@ =~= seq!['c', 'h', 'u', 'n', 'k', 'e', 'd']);
                vstd::string::is_ascii_spec_bytes("chunked");
                assert(value@ =~= crate::http11::chunked_word());
            }
            let ghost before = headers@;
            headers.push(Header { name: String::from_str("transfer-encoding"), value });
            assert(header_views(headers@) =~= header_views(before).push(chunked_header()));
            res.headers = headers;
        },
        _ => {},
    }
    assert(res@ == head_sent(given, is_end));
    let mut head: Vec<u8> = Vec::new();
    write_http11_response(&mut head, &res);
    assert(head@ =~= response_wire(res@));
    let mut socket = socket;
    write_all(&mut socket, head.as_slice())?;
    Ok(
        match mode {
            BodyMode::Chunked => Http11Body::Chunked(ChunkedEncoder(socket)),
            BodyMode::NoBody => Http11Body::NoBody(socket),
            BodyMode::Limited(size) => Http11Body::Limited(LimitWrite::new(socket, size)),
        },
    )
}

/// Where a response goes.
pub enum Responder<S: Socket> {
    /// To an HTTP/2 stream, which whoever accepted it holds.
    Http2,
    /// To a socket, in HTTP/1.1.
    Http11(S),
}

/// A response that has been started.
pub enum Started<S: Socket> {
    /// The head is to be sent on the HTTP/2 stream, with the end-of-stream
    /// flag as given; unless it is set, the body is then proxied.
    Http2 { head: Response, end_of_stream: bool },
    /// The head has been written; the body goes through the writer.
    Http11(Http11Body<S>),
}

impl<S: Socket> Responder<S> {
    /// Starts a response: over HTTP/2 by saying how the head is to be sent,
    /// over HTTP/1.1 by writing the head.
    pub fn send_response(self, res: Response, is_end: bool) -> (r: LolbResult<Started<S>>)
        ensures
            match self {
                Responder::Http2 => r matches Ok(Started::Http2 { head, end_of_stream }) && head
                    == res && end_of_stream == is_end,
                Responder::Http11(socket) => (r is Err ==> !socket.reliable()) && (r matches Ok(
                    started,
                ) ==> {
                    &&& started matches Started::Http11(body)
                    &&& body.socket().reliable() == socket.reliable()
                    &&& body.socket().incoming() == socket.incoming()
            &&& body.socket().reliable() == socket.reliable()
                    &&& body.socket().outgoing() == socket.outgoing() + response_wire(
                        head_sent(res@, is_end),
                    )
                    &&& match body_mode(res@.headers, is_end) {
                        BodyMode::NoBody => body is NoBody,
                        BodyMode::Limited(n) => body matches Http11Body::Limited(w) && w.limit()
                            == n && w.written() == 0,
                        BodyMode::Chunked => body is Chunked,
                    }
                }),
            },
    {
        match self {
            Responder::Http2 => Ok(Started::Http2 { head: res, end_of_stream: is_end }),
            Responder::Http11(socket) => {
                let body = send_response_http1(socket, res, is_end)?;
                Ok(Started::Http11(body))
            },
        }
    }
}

} // verus!
