//! What can go wrong.

use vstd::prelude::*;
use vstd::string::*;

verus! {

/// `std::io::Error`, carried through as it came from a socket.
#[verifier::external_type_specification]
#[verifier::external_body]
pub struct ExIoError(std::io::Error);

/// `httparse::Error`, carried through as the parser gave it.
#[verifier::external_type_specification]
#[verifier::external_body]
pub struct ExHttparseError(httparse::Error);

/// `http::Error`, carried through as the `http` crate gave it.
#[verifier::external_type_specification]
#[verifier::external_body]
pub struct ExHttpError(http::Error);

/// `h2::Error`, carried through as the HTTP/2 layer gave it.
#[verifier::external_type_specification]
#[verifier::external_body]
pub struct ExH2Error(h2::Error);

/// `acme_lib::Error`, carried through as the ACME client gave it.
#[verifier::external_type_specification]
#[verifier::external_body]
pub struct ExAcmeError(acme_lib::Error);

/// Why bytes are not an HTTP/1.1 message.
#[derive(Debug)]
pub enum ParseError {
    /// The request line or a header line is malformed.
    Head(httparse::Error),
    /// 16 KiB were buffered and the header had not ended.
    HeaderTooLarge,
    /// The stream ended inside the header.
    Incomplete,
    /// The request names no target.
    MissingTarget,
    /// The request has no `Host` header.
    MissingHost,
    /// `Content-Length` is not a number.
    ContentLength,
    /// The size of a chunk is not a hexadecimal number.
    ChunkSize,
    /// The stream ended inside a chunk.
    ShortRead,
}

/// Every failure of the balancer.
#[derive(Debug)]
pub enum LolbError {
    /// A fixed diagnostic.
    Message(&'static str),
    /// A diagnostic made at run time.
    Owned(String),
    /// The socket failed.
    Io(std::io::Error),
    /// A certificate could not be issued.
    Acme(acme_lib::Error),
    /// The HTTP/2 layer failed.
    H2(h2::Error),
    /// The client's HTTP/1.1 could not be parsed.
    Http11Parse(ParseError),
    /// A header or a URI could not be built.
    Http(http::Error),
    /// The framing of a connection broke a rule.
    Protocol(&'static str),
    /// More body bytes were written than the content length allows.
    LimitExceeded { total: usize, limit: usize },
}

pub type LolbResult<T> = Result<T, LolbError>;

/// `Display` of an `std::io::Error`: its text, of which nothing is claimed.
#[verifier::external_body]
fn io_error_text(e: &std::io::Error) -> (text: String) {
    format!("{}", e)
}

/// `Display` of an `h2::Error`: its text, of which nothing is claimed.
#[verifier::external_body]
fn h2_error_text(e: &h2::Error) -> (text: String) {
    format!("{}", e)
}

/// `Display` of an `acme_lib::Error`: its text, of which nothing is claimed.
#[verifier::external_body]
fn acme_error_text(e: &acme_lib::Error) -> (text: String) {
    format!("{}", e)
}

/// `Display` of an `httparse::Error`: its text, of which nothing is claimed.
#[verifier::external_body]
fn httparse_error_text(e: &httparse::Error) -> (text: String) {
    format!("{}", e)
}

/// `Display` of an `http::Error`: its text, of which nothing is claimed.
#[verifier::external_body]
fn http_error_text(e: &http::Error) -> (text: String) {
    format!("{}", e)
}

impl ParseError {
    /// What the error says, apart from the detail that the parser gives.
    pub open spec fn label(&self) -> Seq<char> {
        match self {
            ParseError::Head(_) => "malformed header: "@,
            ParseError::HeaderTooLarge => "header too large"@,
            ParseError::Incomplete => "incomplete header"@,
            ParseError::MissingTarget => "request without a target"@,
            ParseError::MissingHost => "request without a Host header"@,
            ParseError::ContentLength => "content-length is not a number"@,
            ParseError::ChunkSize => "chunk size is not a hexadecimal number"@,
            ParseError::ShortRead => "stream ended inside a chunk"@,
        }
    }

    /// The error as text.
    pub fn message(&self) -> (text: String)
        ensures
            self.label().is_prefix_of(text@),
            !(self is Head) ==> text@ == self.label(),
    {
        match self {
            ParseError::Head(e) => {
                let mut text = String::from_str("malformed header: ");
                let detail = httparse_error_text(e);
                text.append(detail.as_str());
                text
            },
            ParseError::HeaderTooLarge => String::from_str("header too large"),
            ParseError::Incomplete => String::from_str("incomplete header"),
            ParseError::MissingTarget => String::from_str("request without a target"),
            ParseError::MissingHost => String::from_str("request without a Host header"),
            ParseError::ContentLength => String::from_str("content-length is not a number"),
            ParseError::ChunkSize => String::from_str("chunk size is not a hexadecimal number"),
            ParseError::ShortRead => String::from_str("stream ended inside a chunk"),
        }
    }
}

impl LolbError {
    /// The words that open the text of an error of this kind.
    pub open spec fn label(&self) -> Seq<char> {
        match self {
            LolbError::Message(s) => s@,
            LolbError::Owned(s) => s@,
            LolbError::Io(_) => "io: "@,
            LolbError::Acme(_) => "Acme: "@,
            LolbError::H2(_) => "h2: "@,
            LolbError::Http11Parse(_) => "http11parse: "@,
            LolbError::Http(_) => "http: "@,
            LolbError::Protocol(s) => "protocol: "@ + s@,
            LolbError::LimitExceeded { .. } => "more bytes than the content length allows"@,
        }
    }

    /// The error as text: the kind, then the detail.
    pub fn message(&self) -> (text: String)
        ensures
            self.label().is_prefix_of(text@),
            self is Message || self is Owned || self is Protocol || self is LimitExceeded ==> text@
                == self.label(),
            self matches LolbError::Http11Parse(e) ==> text@.skip(13) == e.label() || e is Head,
    {
        match self {
            LolbError::Message(s) => String::from_str(s),
            LolbError::Owned(s) => s.clone(),
            LolbError::Io(e) => {
                let mut text = String::from_str("io: ");
                let detail = io_error_text(e);
                text.append(detail.as_str());
                text
            },
            LolbError::Acme(e) => {
                let mut text = String::from_str("Acme: ");
                let detail = acme_error_text(e);
                text.append(detail.as_str());
                text
            },
            LolbError::H2(e) => {
                let mut text = String::from_str("h2: ");
                let detail = h2_error_text(e);
                text.append(detail.as_str());
                text
            },
            LolbError::Http11Parse(e) => {
                let mut text = String::from_str("http11parse: ");
                let detail = e.message();
                text.append(detail.as_str());
                proof {
                    reveal_strlit("http11parse: ");
                    assert(text@.skip(13) =~= detail@);
                }
                text
            },
            LolbError::Http(e) => {
                let mut text = String::from_str("http: ");
                let detail = http_error_text(e);
                text.append(detail.as_str());
                text
            },
            LolbError::Protocol(s) => {
                let mut text = String::from_str("protocol: ");
                text.append(s);
                text
            },
            LolbError::LimitExceeded { .. } => String::from_str(
                "more bytes than the content length allows",
            ),
        }
    }
}

} // verus!
