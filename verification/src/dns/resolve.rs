//! Answering queries from a table of names and addresses.

use vstd::prelude::*;
use vstd::string::*;
use crate::dns::header::{DnsHeader, DnsQuestion, QueryType, QuestionView, ResultCode};
use crate::dns::packet::{question_views, record_views, DnsPacket, DnsRecord, PacketView, RecordView};
use crate::text::str_eq;

verus! {

/// `regex::Regex`, a compiled pattern.
#[verifier::external_type_specification]
#[verifier::external_body]
pub struct ExRegex(regex::Regex);

/// `regex::Error`, why a pattern was refused.
#[verifier::external_type_specification]
#[verifier::external_body]
pub struct ExRegexError(regex::Error);

/// Whether `regex::Regex::new` accepts a pattern.
pub uninterp spec fn regex_valid(pattern: Seq<char>) -> bool;

/// `regex::Regex::new`: compiles a pattern. Whether it is accepted is only
/// given a name.
#[verifier::external_body]
fn regex_new(pattern: &str) -> (r: Result<regex::Regex, regex::Error>)
    ensures
        r is Ok <==> regex_valid(pattern@),
{
    regex::Regex::new(pattern)
}

/// `regex::Regex::is_match`: whether the pattern matches somewhere in the
/// text. Nothing is claimed of the answer.
#[verifier::external_body]
fn regex_is_match(pattern: &regex::Regex, text: &str) -> (found: bool) {
    pattern.is_match(text)
}

/// What a name is matched against.
pub enum AddressKey {
    /// The very name.
    Raw(String),
    /// A pattern.
    Regex(regex::Regex),
}

/// Whether a text is a pattern between slashes.
pub open spec fn is_pattern(text: Seq<char>) -> bool {
    text.len() >= 2 && text[0] == '/' && text.last() == '/'
}

/// Whether a text stands between two of a mark.
pub open spec fn is_between(text: Seq<char>, mark: char) -> bool {
    text.len() >= 2 && text[0] == mark && text.last() == mark
}

/// What stands between the first and the last character of a text.
pub open spec fn inner(text: Seq<char>) -> Seq<char> {
    text.subrange(1, text.len() - 1)
}

impl AddressKey {
    /// Reads a key: a pattern where the text stands between slashes, else
    /// the text itself. A pattern that cannot be compiled is refused. The
    /// text is not a single slash.
    pub fn new(text: &str) -> (r: Result<AddressKey, regex::Error>)
        requires
            text@ != seq!['/'],
        ensures
            !is_pattern(text@) ==> (r matches Ok(AddressKey::Raw(raw)) && raw@ == text@),
            is_pattern(text@) ==> match r {
                Ok(key) => key is Regex && regex_valid(inner(text@)),
                Err(_) => !regex_valid(inner(text@)),
            },
    {
        let len = text.unicode_len();
        if len >= 2 && text.get_char(0) == '/' && text.get_char(len - 1) == '/' {
            let s = text.substring_char(1, len - 1);
            Ok(AddressKey::Regex(regex_new(s)?))
        } else {
            Ok(AddressKey::Raw(text.to_owned()))
        }
    }

    /// Whether the key matches a name: a raw key where it is the name.
    pub fn is_match(&self, addr: &str) -> (r: bool)
        ensures
            self matches AddressKey::Raw(text) ==> r == (text@ == addr@),
    {
        match self {
            AddressKey::Raw(text) => str_eq(text.as_str(), addr),
            AddressKey::Regex(regex) => regex_is_match(regex, addr),
        }
    }
}

/// Where the address for a name comes from.
#[derive(Debug, Clone, PartialEq, Eq)]
pub enum IpValue {
    /// The address itself.
    Raw(String),
    /// A shell command that prints it.
    Cmd(String),
    /// An environment variable that holds it.
    Env(String),
}

/// A source as plain values.
pub enum IpValueView {
    Raw(Seq<char>),
    Cmd(Seq<char>),
    Env(Seq<char>),
}

impl View for IpValue {
    type V = IpValueView;

    open spec fn view(&self) -> IpValueView {
        match self {
            IpValue::Raw(t) => IpValueView::Raw(t@),
            IpValue::Cmd(t) => IpValueView::Cmd(t@),
            IpValue::Env(t) => IpValueView::Env(t@),
        }
    }
}

/// Whether a text has the form `env(` .. `)`.
pub open spec fn is_env(text: Seq<char>) -> bool {
    text.len() >= 5 && text.subrange(0, 4) == seq!['e', 'n', 'v', '('] && text.last() == ')'
}

/// The source that a text names: a command between backticks, a variable
/// in `env(..)`, or else the address itself.
pub open spec fn ip_source(text: Seq<char>) -> IpValueView {
    if is_between(text, '`') {
        IpValueView::Cmd(inner(text))
    } else if is_env(text) {
        IpValueView::Env(text.subrange(4, text.len() - 1))
    } else {
        IpValueView::Raw(text)
    }
}

impl IpValue {
    /// Reads a source. The text is not a single backtick.
    pub fn new(text: &str) -> (r: IpValue)
        requires
            text@ != seq!['`'],
        ensures
            r@ == ip_source(text@),
    {
        let len = text.unicode_len();
        if len >= 2 && text.get_char(0) == '`' && text.get_char(len - 1) == '`' {
            IpValue::Cmd(text.substring_char(1, len - 1).to_owned())
        } else if len >= 5 && text.get_char(0) == 'e' && text.get_char(1) == 'n' && text.get_char(2)
            == 'v' && text.get_char(3) == '(' && text.get_char(len - 1) == ')' {
            assert(text@.subrange(0, 4) =~= seq!['e', 'n', 'v', '(']);
            IpValue::Env(text.substring_char(4, len - 1).to_owned())
        } else {
            proof {
                if is_env(text@) {
                    assert(text@.subrange(0, 4)[0] == text@[0]);
                    assert(text@.subrange(0, 4)[1] == text@[1]);
                    assert(text@.subrange(0, 4)[2] == text@[2]);
                    assert(text@.subrange(0, 4)[3] == text@[3]);
                }
            }
            IpValue::Raw(text.to_owned())
        }
    }
}

/// A table of keys and sources, in the order in which they are tried.
pub struct AddressMatcher {
    inner: Vec<(AddressKey, IpValue)>,
}

impl AddressMatcher {
    /// The entries, in order.
    pub closed spec fn entries(&self) -> Seq<(AddressKey, IpValue)> {
        self.inner@
    }

    /// Makes the table from pairs of texts: a key and a source each. No
    /// key is a single slash, no source a single backtick.
    pub fn new_from_config(config: &Vec<(String, String)>) -> (r: Result<AddressMatcher, regex::Error>)
        requires
            forall|i: int|
                0 <= i < config@.len() ==> (#[trigger] config@[i]).0@ != seq!['/'] && config@[i].1@
                    != seq!['`'],
        ensures
            r matches Ok(table) ==> {
                &&& table.entries().len() == config@.len()
                &&& forall|i: int|
                    0 <= i < config@.len() ==> {
                        &&& (#[trigger] table.entries()[i]).1@ == ip_source(config@[i].1@)
                        &&& is_pattern(config@[i].0@) ==> table.entries()[i].0 is Regex
                        &&& !is_pattern(config@[i].0@) ==> (table.entries()[i].0 matches AddressKey::Raw(
                            raw,
                        ) && raw@ == config@[i].0@)
                    }
            },
            r is Err ==> exists|i: int|
                0 <= i < config@.len() && is_pattern(#[trigger] config@[i].0@) && !regex_valid(
                    inner(config@[i].0@),
                ),
    {
        let mut vec: Vec<(AddressKey, IpValue)> = Vec::new();
        let mut i: usize = 0;
        while i < config.len()
            invariant
                i <= config@.len(),
                vec@.len() == i,
                forall|k: int|
                    0 <= k < config@.len() ==> (#[trigger] config@[k]).0@ != seq!['/']
                        && config@[k].1@ != seq!['`'],
                forall|k: int|
                    0 <= k < i ==> {
                        &&& (#[trigger] vec@[k]).1@ == ip_source(config@[k].1@)
                        &&& is_pattern(config@[k].0@) ==> vec@[k].0 is Regex
                        &&& !is_pattern(config@[k].0@) ==> (vec@[k].0 matches AddressKey::Raw(raw)
                            && raw@ == config@[k].0@)
                    },
            decreases config@.len() - i,
        {
            let pair = &config[i];
            let key = match AddressKey::new(pair.0.as_str()) {
                Ok(key) => key,
                Err(e) => {
                    assert(is_pattern(config@[i as int].0@));
                    return Err(e);
                },
            };
            vec.push((key, IpValue::new(pair.1.as_str())));
            i = i + 1;
        }
        Ok(AddressMatcher { inner: vec })
    }

    /// The source of the first entry whose key matches a name.
    pub fn matches(&self, qname: &str) -> (r: Option<&IpValue>)
        ensures
            match r {
                Some(source) => exists|i: int|
                    0 <= i < self.entries().len() && *source == (#[trigger] self.entries()[i]).1
                        && (self.entries()[i].0 matches AddressKey::Raw(raw) ==> raw@ == qname@),
                None => forall|i: int|
                    0 <= i < self.entries().len() ==> ((#[trigger] self.entries()[i]).0 matches AddressKey::Raw(
                        raw,
                    ) ==> raw@ != qname@),
            },
    {
        let mut i: usize = 0;
        while i < self.inner.len()
            invariant
                i <= self.inner@.len(),
                forall|k: int|
                    0 <= k < i ==> ((#[trigger] self.inner@[k]).0 matches AddressKey::Raw(raw)
                        ==> raw@ != qname@),
            decreases self.inner@.len() - i,
        {
            if self.inner[i].0.is_match(qname) {
                return Some(&self.inner[i].1);
            }
            i = i + 1;
        }
        None
    }
}

/// How the search for the address of a name ended.
#[derive(Debug, Clone, Copy, PartialEq, Eq)]
pub enum Lookup {
    /// With this address.
    Address([u8; 4]),
    /// With a text that is no address.
    BadAddress,
    /// With no entry for the name.
    NotFound,
    /// With a failure.
    Failed,
}

/// The answer to a query for a name: the address of the name, where the
/// query asks for an address and one was found; else a packet that says
/// why there is none.
pub open spec fn lookup_answer(qname: Seq<char>, qtype: QueryType, found: Lookup) -> PacketView {
    let empty = PacketView {
        header: DnsHeader::new_spec(),
        questions: Seq::empty(),
        answers: Seq::empty(),
        authorities: Seq::empty(),
        resources: Seq::empty(),
    };
    if qtype != QueryType::A && qtype != QueryType::AAAA {
        PacketView { header: DnsHeader { rescode: ResultCode::NOTIMP, ..empty.header }, ..empty }
    } else {
        match found {
            Lookup::Address(addr) => PacketView {
                answers: seq![RecordView::A { domain: qname, addr: addr@, ttl: 0 }],
                ..empty
            },
            _ => PacketView {
                header: DnsHeader { rescode: ResultCode::SERVFAIL, ..empty.header },
                ..empty
            },
        }
    }
}

/// Makes the answer to a query for a name, from how the search for its
/// address ended.
pub fn lookup_regexp_hack(qname: &str, qtype: QueryType, found: Lookup) -> (r: DnsPacket)
    ensures
        r@ == lookup_answer(qname@, qtype, found),
{
    let mut dns_packet = DnsPacket::new();
    dns_packet.header.rescode = ResultCode::NOERROR;
    assert(question_views(dns_packet.questions@) =~= Seq::<QuestionView>::empty());
    assert(record_views(dns_packet.answers@) =~= Seq::<RecordView>::empty());
    assert(record_views(dns_packet.authorities@) =~= Seq::<RecordView>::empty());
    assert(record_views(dns_packet.resources@) =~= Seq::<RecordView>::empty());
    let wanted = match qtype {
        QueryType::A => true,
        QueryType::AAAA => true,
        _ => false,
    };
    if !wanted {
        dns_packet.header.rescode = ResultCode::NOTIMP;
        return dns_packet;
    }
    match found {
        Lookup::Address(addr) => {
            let record = DnsRecord::A { domain: qname.to_owned(), addr: addr, ttl: 0 };
            dns_packet.answers.push(record);
            assert(record_views(dns_packet.answers@) =~= seq![record@]);
        },
        _ => {
            dns_packet.header.rescode = ResultCode::SERVFAIL;
        },
    }
    dns_packet
}

/// The header of a response to a request: the request's number, marked as
/// a response, with recursion desired and available, and the result code
/// given.
pub open spec fn response_header(id: u16, rescode: ResultCode) -> DnsHeader {
    DnsHeader {
        id,
        recursion_desired: true,
        recursion_available: true,
        response: true,
        rescode,
        ..DnsHeader::new_spec()
    }
}

/// The response to a request: to its first question, the answer that the
/// search gave; to a request without a question, a format error.
pub open spec fn response_to(request: PacketView, found: Lookup) -> PacketView {
    if request.questions.len() == 0 {
        PacketView {
            header: response_header(request.header.id, ResultCode::FORMERR),
            questions: Seq::empty(),
            answers: Seq::empty(),
            authorities: Seq::empty(),
            resources: Seq::empty(),
        }
    } else {
        let question = request.questions[0];
        let answer = lookup_answer(question.name, question.qtype, found);
        PacketView {
            header: response_header(request.header.id, answer.header.rescode),
            questions: seq![question],
            answers: answer.answers,
            authorities: answer.authorities,
            resources: answer.resources,
        }
    }
}

/// Makes the response to a request, from how the search for the address of
/// the name in its first question ended.
pub fn respond(request: &DnsPacket, found: Lookup) -> (r: DnsPacket)
    ensures
        r@ == response_to(request@, found),
{
    let mut packet = DnsPacket::new();
    packet.header.id = request.header.id;
    packet.header.recursion_desired = true;
    packet.header.recursion_available = true;
    packet.header.response = true;
    assert(question_views(packet.questions@) =~= Seq::<QuestionView>::empty());
    assert(record_views(packet.answers@) =~= Seq::<RecordView>::empty());
    assert(record_views(packet.authorities@) =~= Seq::<RecordView>::empty());
    assert(record_views(packet.resources@) =~= Seq::<RecordView>::empty());
    if request.questions.len() == 0 {
        packet.header.rescode = ResultCode::FORMERR;
        assert(request@.questions.len() == 0);
        packet
    } else {
        let question = &request.questions[0];
        assert(request@.questions[0] == question@);
        let result = lookup_regexp_hack(question.name.as_str(), question.qtype, found);
        let copy = DnsQuestion::new(question.name.clone(), question.qtype);
        packet.questions.push(copy);
        assert(question_views(packet.questions@) =~= seq![question@]);
        packet.header.rescode = result.header.rescode;
        packet.answers = result.answers;
        packet.authorities = result.authorities;
        packet.resources = result.resources;
        packet
    }
}

} // verus!
