//! The packet header, the codes it carries, and the question section.

use vstd::prelude::*;
use crate::text::text_bytes;
use crate::dns::buffer::{advance, be16, bytes16, join_labels, labels_fit, name_at, name_cursor, name_wire, put, wire_fits, BytePacketBuffer, DnsError};

verus! {

/// The response code of a header.
#[derive(Copy, Clone, Debug, PartialEq, Eq, Structural)]
pub enum ResultCode {
    NOERROR,
    FORMERR,
    SERVFAIL,
    NXDOMAIN,
    NOTIMP,
    REFUSED,
}

impl ResultCode {
    /// The number that stands for the code on the wire.
    pub open spec fn num(self) -> u8 {
        match self {
            ResultCode::NOERROR => 0,
            ResultCode::FORMERR => 1,
            ResultCode::SERVFAIL => 2,
            ResultCode::NXDOMAIN => 3,
            ResultCode::NOTIMP => 4,
            ResultCode::REFUSED => 5,
        }
    }

    /// The code that a number stands for; every number without a code of its
    /// own reads as `NOERROR`.
    pub open spec fn of(num: u8) -> ResultCode {
        if num == 1 {
            ResultCode::FORMERR
        } else if num == 2 {
            ResultCode::SERVFAIL
        } else if num == 3 {
            ResultCode::NXDOMAIN
        } else if num == 4 {
            ResultCode::NOTIMP
        } else if num == 5 {
            ResultCode::REFUSED
        } else {
            ResultCode::NOERROR
        }
    }

    pub fn from_num(num: u8) -> (r: ResultCode)
        ensures
            r == ResultCode::of(num),
    {
        match num {
            1 => ResultCode::FORMERR,
            2 => ResultCode::SERVFAIL,
            3 => ResultCode::NXDOMAIN,
            4 => ResultCode::NOTIMP,
            5 => ResultCode::REFUSED,
            _ => ResultCode::NOERROR,
        }
    }

    pub fn to_num(self) -> (r: u8)
        ensures
            r == self.num(),
    {
        match self {
            ResultCode::NOERROR => 0,
            ResultCode::FORMERR => 1,
            ResultCode::SERVFAIL => 2,
            ResultCode::NXDOMAIN => 3,
            ResultCode::NOTIMP => 4,
            ResultCode::REFUSED => 5,
        }
    }

    /// Reading a code's own number gives the code back.
    pub proof fn law_num_round_trip(self)
        ensures
            ResultCode::of(self.num()) == self,
    {
    }
}

/// The kind of record that a question asks for.
#[derive(PartialEq, Eq, Debug, Clone, Hash, Copy, Structural)]
pub enum QueryType {
    UNKNOWN(u16),
    A,
    NS,
    CNAME,
    MX,
    AAAA,
}

impl QueryType {
    /// The number that stands for the kind on the wire.
    pub open spec fn num(self) -> u16 {
        match self {
            QueryType::UNKNOWN(x) => x,
            QueryType::A => 1,
            QueryType::NS => 2,
            QueryType::CNAME => 5,
            QueryType::MX => 15,
            QueryType::AAAA => 28,
        }
    }

    /// The kind that a number stands for.
    pub open spec fn of(num: u16) -> QueryType {
        if num == 1 {
            QueryType::A
        } else if num == 2 {
            QueryType::NS
        } else if num == 5 {
            QueryType::CNAME
        } else if num == 15 {
            QueryType::MX
        } else if num == 28 {
            QueryType::AAAA
        } else {
            QueryType::UNKNOWN(num)
        }
    }

    pub fn to_num(&self) -> (r: u16)
        ensures
            r == self.num(),
    {
        match *self {
            QueryType::UNKNOWN(x) => x,
            QueryType::A => 1,
            QueryType::NS => 2,
            QueryType::CNAME => 5,
            QueryType::MX => 15,
            QueryType::AAAA => 28,
        }
    }

    pub fn from_num(num: u16) -> (r: QueryType)
        ensures
            r == QueryType::of(num),
    {
        match num {
            1 => QueryType::A,
            2 => QueryType::NS,
            5 => QueryType::CNAME,
            15 => QueryType::MX,
            28 => QueryType::AAAA,
            _ => QueryType::UNKNOWN(num),
        }
    }

    /// Every number reads as a kind that writes as the same number.
    pub proof fn law_num_round_trip(num: u16)
        ensures
            QueryType::of(num).num() == num,
    {
    }
}

/// The twelve bytes that open every packet.
#[derive(Clone, Debug)]
pub struct DnsHeader {
    pub id: u16,
    pub recursion_desired: bool,
    pub truncated_message: bool,
    pub authoritative_answer: bool,
    pub opcode: u8,
    pub response: bool,
    pub rescode: ResultCode,
    pub checking_disabled: bool,
    pub authed_data: bool,
    pub z: bool,
    pub recursion_available: bool,
    pub questions: u16,
    pub answers: u16,
    pub authoritative_entries: u16,
    pub resource_entries: u16,
}

/// A flag as a bit.
pub open spec fn bit(flag: bool) -> u8 {
    if flag {
        1
    } else {
        0
    }
}

fn flag_bit(flag: bool) -> (r: u8)
    ensures
        r == bit(flag),
{
    if flag {
        1
    } else {
        0
    }
}

/// The first flag byte of a header.
pub open spec fn flags_high(h: DnsHeader) -> u8 {
    bit(h.recursion_desired) | (bit(h.truncated_message) << 1) | (bit(h.authoritative_answer) << 2)
        | (h.opcode << 3) | (bit(h.response) << 7)
}

/// The second flag byte of a header.
pub open spec fn flags_low(h: DnsHeader) -> u8 {
    h.rescode.num() | (bit(h.checking_disabled) << 4) | (bit(h.authed_data) << 5) | (bit(h.z) << 6)
        | (bit(h.recursion_available) << 7)
}

/// The wire form of a header.
#[verifier::opaque]
pub open spec fn header_wire(h: DnsHeader) -> Seq<u8> {
    bytes16(h.id) + seq![flags_high(h), flags_low(h)] + bytes16(h.questions) + bytes16(h.answers)
        + bytes16(h.authoritative_entries) + bytes16(h.resource_entries)
}

/// The header that the twelve bytes from `pos` on spell.
pub open spec fn header_at(buf: Seq<u8>, pos: int) -> DnsHeader {
    let a = buf[pos + 2];
    let b = buf[pos + 3];
    DnsHeader {
        id: be16(buf[pos], buf[pos + 1]) as u16,
        recursion_desired: (a & 0x01) > 0,
        truncated_message: (a & 0x02) > 0,
        authoritative_answer: (a & 0x04) > 0,
        opcode: (a >> 3) & 0x0F,
        response: (a & 0x80) > 0,
        rescode: ResultCode::of(b & 0x0F),
        checking_disabled: (b & 0x10) > 0,
        authed_data: (b & 0x20) > 0,
        z: (b & 0x40) > 0,
        recursion_available: (b & 0x80) > 0,
        questions: be16(buf[pos + 4], buf[pos + 5]) as u16,
        answers: be16(buf[pos + 6], buf[pos + 7]) as u16,
        authoritative_entries: be16(buf[pos + 8], buf[pos + 9]) as u16,
        resource_entries: be16(buf[pos + 10], buf[pos + 11]) as u16,
    }
}

/// A header is twelve bytes on the wire.
pub proof fn lemma_header_wire_len(h: DnsHeader)
    ensures
        header_wire(h).len() == 12,
{
    reveal(header_wire);
}

proof fn lemma_flag_halves(flags: u16, hi: u8, lo: u8)
    requires
        flags == hi as int * 256 + lo as int,
    ensures
        (flags >> 8) as u8 == hi,
        (flags & 0xFF) as u8 == lo,
{
    assert((flags >> 8) == flags / 256) by (bit_vector);
    assert((flags & 0xFF) == flags % 256) by (bit_vector);
}

/// The first flag byte gives back what was packed into it.
proof fn lemma_unpack_high(b0: u8, b1: u8, b2: u8, code: u8, b7: u8)
    requires
        b0 <= 1,
        b1 <= 1,
        b2 <= 1,
        b7 <= 1,
        code < 16,
    ensures
        ({
            let a = b0 | (b1 << 1) | (b2 << 2) | (code << 3) | (b7 << 7);
            &&& ((a & 0x01) > 0) == (b0 == 1)
            &&& ((a & 0x02) > 0) == (b1 == 1)
            &&& ((a & 0x04) > 0) == (b2 == 1)
            &&& ((a >> 3) & 0x0F) == code
            &&& ((a & 0x80) > 0) == (b7 == 1)
        }),
{
    assert({
        let a = b0 | (b1 << 1) | (b2 << 2) | (code << 3) | (b7 << 7);
        &&& ((a & 0x01) > 0) == (b0 == 1)
        &&& ((a & 0x02) > 0) == (b1 == 1)
        &&& ((a & 0x04) > 0) == (b2 == 1)
        &&& ((a >> 3) & 0x0F) == code
        &&& ((a & 0x80) > 0) == (b7 == 1)
    }) by (bit_vector)
        requires
            b0 <= 1,
            b1 <= 1,
            b2 <= 1,
            b7 <= 1,
            code < 16,
    ;
}

/// The second flag byte gives back what was packed into it.
proof fn lemma_unpack_low(code: u8, b4: u8, b5: u8, b6: u8, b7: u8)
    requires
        b4 <= 1,
        b5 <= 1,
        b6 <= 1,
        b7 <= 1,
        code < 16,
    ensures
        ({
            let b = code | (b4 << 4) | (b5 << 5) | (b6 << 6) | (b7 << 7);
            &&& (b & 0x0F) == code
            &&& ((b & 0x10) > 0) == (b4 == 1)
            &&& ((b & 0x20) > 0) == (b5 == 1)
            &&& ((b & 0x40) > 0) == (b6 == 1)
            &&& ((b & 0x80) > 0) == (b7 == 1)
        }),
{
    assert({
        let b = code | (b4 << 4) | (b5 << 5) | (b6 << 6) | (b7 << 7);
        &&& (b & 0x0F) == code
        &&& ((b & 0x10) > 0) == (b4 == 1)
        &&& ((b & 0x20) > 0) == (b5 == 1)
        &&& ((b & 0x40) > 0) == (b6 == 1)
        &&& ((b & 0x80) > 0) == (b7 == 1)
    }) by (bit_vector)
        requires
            b4 <= 1,
            b5 <= 1,
            b6 <= 1,
            b7 <= 1,
            code < 16,
    ;
}

/// A header that was written reads back as it was, where its operation
/// code fits the four bits that the wire has for it.
pub proof fn law_header_round_trip(h: DnsHeader, buf: Seq<u8>, pos: int)
    requires
        buf.len() == 512,
        0 <= pos,
        pos + 12 <= 512,
        h.opcode < 16,
    ensures
        header_at(put(buf, pos, header_wire(h)), pos) == h,
{
    reveal(header_wire);
    let wire = header_wire(h);
    let after = put(buf, pos, wire);
    assert(wire.len() == 12);
    assert forall|i: int| 0 <= i < 12 implies after[pos + i] == wire[i] by {}
    assert(wire[2] == flags_high(h));
    assert(wire[3] == flags_low(h));
    lemma_unpack_high(
        bit(h.recursion_desired),
        bit(h.truncated_message),
        bit(h.authoritative_answer),
        h.opcode,
        bit(h.response),
    );
    lemma_unpack_low(
        h.rescode.num(),
        bit(h.checking_disabled),
        bit(h.authed_data),
        bit(h.z),
        bit(h.recursion_available),
    );
    let back = header_at(after, pos);
    assert(back.id == h.id);
    assert(back.questions == h.questions);
    assert(back.answers == h.answers);
    assert(back.authoritative_entries == h.authoritative_entries);
    assert(back.resource_entries == h.resource_entries);
    assert(back.rescode == h.rescode);
}

impl DnsHeader {
    /// The header with every field zero or false.
    pub open spec fn new_spec() -> DnsHeader {
        DnsHeader {
            id: 0,
            recursion_desired: false,
            truncated_message: false,
            authoritative_answer: false,
            opcode: 0,
            response: false,
            rescode: ResultCode::NOERROR,
            checking_disabled: false,
            authed_data: false,
            z: false,
            recursion_available: false,
            questions: 0,
            answers: 0,
            authoritative_entries: 0,
            resource_entries: 0,
        }
    }

    /// A header with every field zero or false.
    pub fn new() -> (r: DnsHeader)
        ensures
            r == DnsHeader::new_spec(),
    {
        DnsHeader {
            id: 0,
            recursion_desired: false,
            truncated_message: false,
            authoritative_answer: false,
            opcode: 0,
            response: false,
            rescode: ResultCode::NOERROR,
            checking_disabled: false,
            authed_data: false,
            z: false,
            recursion_available: false,
            questions: 0,
            answers: 0,
            authoritative_entries: 0,
            resource_entries: 0,
        }
    }

    /// Reads the header from the twelve bytes under the cursor. Where fewer
    /// than twelve are left, the read fails with the cursor at the end.
    pub fn read(&mut self, buffer: &mut BytePacketBuffer) -> (r: Result<(), DnsError>)
        ensures
            final(buffer).buf == old(buffer).buf,
            final(buffer).pos == advance(old(buffer).pos as int, 12),
            old(buffer).pos + 12 <= 512 ==> r is Ok && *final(self) == header_at(
                old(buffer).buf@,
                old(buffer).pos as int,
            ),
            old(buffer).pos + 12 > 512 ==> r == Err::<(), DnsError>(DnsError::EndOfBuffer),
    {
        let ghost p = old(buffer).pos as int;
        let ghost bytes = old(buffer).buf@;
        self.id = buffer.read_u16()?;
        let flags = buffer.read_u16()?;
        proof {
            lemma_flag_halves(flags, bytes[p + 2], bytes[p + 3]);
        }
        let a = (flags >> 8) as u8;
        let b = (flags & 0xFF) as u8;
        self.recursion_desired = (a & 0x01) > 0;
        self.truncated_message = (a & 0x02) > 0;
        self.authoritative_answer = (a & 0x04) > 0;
        self.opcode = (a >> 3) & 0x0F;
        self.response = (a & 0x80) > 0;
        self.rescode = ResultCode::from_num(b & 0x0F);
        self.checking_disabled = (b & 0x10) > 0;
        self.authed_data = (b & 0x20) > 0;
        self.z = (b & 0x40) > 0;
        self.recursion_available = (b & 0x80) > 0;
        self.questions = buffer.read_u16()?;
        self.answers = buffer.read_u16()?;
        self.authoritative_entries = buffer.read_u16()?;
        self.resource_entries = buffer.read_u16()?;
        Ok(())
    }

    /// Writes the header's twelve bytes under the cursor. Where fewer than
    /// twelve are left, the write fails with the cursor at the end.
    pub fn write(&self, buffer: &mut BytePacketBuffer) -> (r: Result<(), DnsError>)
        ensures
            final(buffer).pos == advance(old(buffer).pos as int, 12),
            old(buffer).pos + 12 <= 512 ==> r is Ok && final(buffer).buf@ == put(
                old(buffer).buf@,
                old(buffer).pos as int,
                header_wire(*self),
            ),
            old(buffer).pos + 12 > 512 ==> r == Err::<(), DnsError>(DnsError::EndOfBuffer),
    {
        proof {
            reveal(header_wire);
        }
        buffer.write_u16(self.id)?;
        buffer.write_u8(
            flag_bit(self.recursion_desired) | (flag_bit(self.truncated_message) << 1) | (flag_bit(
                self.authoritative_answer,
            ) << 2) | (self.opcode << 3) | (flag_bit(self.response) << 7),
        )?;
        buffer.write_u8(
            self.rescode.to_num() | (flag_bit(self.checking_disabled) << 4) | (flag_bit(
                self.authed_data,
            ) << 5) | (flag_bit(self.z) << 6) | (flag_bit(self.recursion_available) << 7),
        )?;
        buffer.write_u16(self.questions)?;
        buffer.write_u16(self.answers)?;
        buffer.write_u16(self.authoritative_entries)?;
        buffer.write_u16(self.resource_entries)?;
        assert(buffer.buf@ =~= put(old(buffer).buf@, old(buffer).pos as int, header_wire(*self)));
        Ok(())
    }
}

/// One entry of the question section.
#[derive(Debug, Clone, PartialEq, Eq)]
pub struct DnsQuestion {
    pub name: String,
    pub qtype: QueryType,
}

/// A question as plain values.
pub struct QuestionView {
    pub name: Seq<char>,
    pub qtype: QueryType,
}

impl View for DnsQuestion {
    type V = QuestionView;

    open spec fn view(&self) -> QuestionView {
        QuestionView { name: self.name@, qtype: self.qtype }
    }
}

/// The wire form of a question: the name, the kind, and class 1.
pub open spec fn question_wire(name: Seq<u8>, qtype: QueryType) -> Seq<u8> {
    name_wire(name) + bytes16(qtype.num()) + bytes16(1)
}

impl DnsQuestion {
    pub fn new(name: String, qtype: QueryType) -> (r: DnsQuestion)
        ensures
            r.name == name,
            r.qtype == qtype,
    {
        DnsQuestion { name: name, qtype: qtype }
    }

    /// Reads a question from under the cursor: the name is appended to
    /// `self.name`, the kind replaces `self.qtype`, the class is passed over.
    pub fn read(&mut self, buffer: &mut BytePacketBuffer) -> (r: Result<(), DnsError>)
        ensures
            final(buffer).buf == old(buffer).buf,
            ({
                let name = name_at(old(buffer).buf@, old(buffer).pos as int);
                let p = name_cursor(name, old(buffer).pos as int);
                &&& final(self).name@ == old(self).name@ + join_labels(name.labels)
                &&& name.error matches Some(e) ==> r == Err::<(), DnsError>(e) && final(buffer).pos
                    == p
                &&& name.error is None ==> final(buffer).pos == advance(p, 4)
                &&& name.error is None && p + 4 > 512 ==> r == Err::<(), DnsError>(
                    DnsError::EndOfBuffer,
                )
                &&& name.error is None && p + 4 <= 512 ==> r is Ok && final(self).qtype
                    == QueryType::of(be16(old(buffer).buf@[p], old(buffer).buf@[p + 1]) as u16)
            }),
    {
        buffer.read_qname(&mut self.name)?;
        self.qtype = QueryType::from_num(buffer.read_u16()?);
        let _ = buffer.read_u16()?;
        Ok(())
    }

    /// Writes the question under the cursor.
    pub fn write(&self, buffer: &mut BytePacketBuffer) -> (r: Result<(), DnsError>)
        ensures
            ({
                let wire = question_wire(text_bytes(self.name@), self.qtype);
                let fits = labels_fit(text_bytes(self.name@));
                &&& fits && old(buffer).pos + wire.len() <= 512 ==> {
                    &&& r is Ok
                    &&& final(buffer).buf@ == put(old(buffer).buf@, old(buffer).pos as int, wire)
                    &&& final(buffer).pos == old(buffer).pos + wire.len()
                }
                &&& !fits && wire_fits(
                    old(buffer).pos as int,
                    name_wire(text_bytes(self.name@)),
                ) ==> r == Err::<(), DnsError>(DnsError::LabelTooLong)
                &&& (fits && old(buffer).pos + wire.len() > 512) || !wire_fits(
                    old(buffer).pos as int,
                    name_wire(text_bytes(self.name@)),
                ) ==> r == Err::<(), DnsError>(DnsError::EndOfBuffer)
            }),
    {
        buffer.write_qname(self.name.as_str())?;
        let typenum = self.qtype.to_num();
        buffer.write_u16(typenum)?;
        buffer.write_u16(1)?;
        assert(buffer.buf@ =~= put(
            old(buffer).buf@,
            old(buffer).pos as int,
            question_wire(text_bytes(self.name@), self.qtype),
        ));
        Ok(())
    }
}

} // verus!
