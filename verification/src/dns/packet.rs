//! Resource records and whole packets.

use vstd::prelude::*;
use vstd::string::*;
use crate::dns::buffer::{
    advance, be16, be32, bytes16, bytes32, join_labels, labels_fit, lemma_split32, name_at,
    lemma_put_append, lemma_put_patch, name_cursor, name_wire, put, wire_fits,
    BytePacketBuffer, DnsError,
};
use crate::dns::header::{
    header_at, header_wire, lemma_header_wire_len, question_wire, DnsHeader, DnsQuestion,
    QueryType, QuestionView,
};
use crate::text::text_bytes;

verus! {

/// A resource record.
#[derive(Debug, Clone, PartialEq, Eq, Hash, PartialOrd, Ord)]
pub enum DnsRecord {
    UNKNOWN { domain: String, qtype: u16, data_len: u16, ttl: u32 },
    /// An IPv4 address, as its four octets.
    A { domain: String, addr: [u8; 4], ttl: u32 },
    NS { domain: String, host: String, ttl: u32 },
    CNAME { domain: String, host: String, ttl: u32 },
    MX { domain: String, priority: u16, host: String, ttl: u32 },
    /// An IPv6 address, as its eight segments.
    AAAA { domain: String, addr: [u16; 8], ttl: u32 },
}

/// A record as plain values.
pub enum RecordView {
    UNKNOWN { domain: Seq<char>, qtype: u16, data_len: u16, ttl: u32 },
    A { domain: Seq<char>, addr: Seq<u8>, ttl: u32 },
    NS { domain: Seq<char>, host: Seq<char>, ttl: u32 },
    CNAME { domain: Seq<char>, host: Seq<char>, ttl: u32 },
    MX { domain: Seq<char>, priority: u16, host: Seq<char>, ttl: u32 },
    AAAA { domain: Seq<char>, addr: Seq<u16>, ttl: u32 },
}

impl View for DnsRecord {
    type V = RecordView;

    open spec fn view(&self) -> RecordView {
        match self {
            DnsRecord::UNKNOWN { domain, qtype, data_len, ttl } => RecordView::UNKNOWN {
                domain: domain@,
                qtype: *qtype,
                data_len: *data_len,
                ttl: *ttl,
            },
            DnsRecord::A { domain, addr, ttl } => RecordView::A {
                domain: domain@,
                addr: addr@,
                ttl: *ttl,
            },
            DnsRecord::NS { domain, host, ttl } => RecordView::NS {
                domain: domain@,
                host: host@,
                ttl: *ttl,
            },
            DnsRecord::CNAME { domain, host, ttl } => RecordView::CNAME {
                domain: domain@,
                host: host@,
                ttl: *ttl,
            },
            DnsRecord::MX { domain, priority, host, ttl } => RecordView::MX {
                domain: domain@,
                priority: *priority,
                host: host@,
                ttl: *ttl,
            },
            DnsRecord::AAAA { domain, addr, ttl } => RecordView::AAAA {
                domain: domain@,
                addr: addr@,
                ttl: *ttl,
            },
        }
    }
}

/// The eight segments that sixteen bytes from `pos` on spell.
pub open spec fn segments_at(buf: Seq<u8>, pos: int) -> Seq<u16> {
    Seq::new(8, |i: int| be16(buf[pos + 2 * i], buf[pos + 2 * i + 1]) as u16)
}

/// The data of a record of a kind that stand at `pos`, with what was read
/// in front of them, as a record; or why there is none; and where the
/// cursor stands after they were read.
pub open spec fn data_at(
    buf: Seq<u8>,
    pos: int,
    kind: QueryType,
    domain: Seq<char>,
    qtype: u16,
    data_len: u16,
    ttl: u32,
) -> (Result<RecordView, DnsError>, int) {
    match kind {
        QueryType::A => if pos + 4 > 512 {
            (Err(DnsError::EndOfBuffer), advance(pos, 4))
        } else {
            (Ok(RecordView::A { domain, addr: buf.subrange(pos, pos + 4), ttl }), pos + 4)
        },
        QueryType::AAAA => if pos + 16 > 512 {
            (Err(DnsError::EndOfBuffer), advance(pos, 16))
        } else {
            (Ok(RecordView::AAAA { domain, addr: segments_at(buf, pos), ttl }), pos + 16)
        },
        QueryType::NS => match host_at(buf, pos) {
            (Err(e), end) => (Err(e), end),
            (Ok(host), end) => (Ok(RecordView::NS { domain, host, ttl }), end),
        },
        QueryType::CNAME => match host_at(buf, pos) {
            (Err(e), end) => (Err(e), end),
            (Ok(host), end) => (Ok(RecordView::CNAME { domain, host, ttl }), end),
        },
        QueryType::MX => if pos + 2 > 512 {
            (Err(DnsError::EndOfBuffer), advance(pos, 2))
        } else {
            match host_at(buf, pos + 2) {
                (Err(e), end) => (Err(e), end),
                (Ok(host), end) => (
                    Ok(
                        RecordView::MX {
                            domain,
                            priority: be16(buf[pos], buf[pos + 1]) as u16,
                            host,
                            ttl,
                        },
                    ),
                    end,
                ),
            }
        },
        QueryType::UNKNOWN(_) => (
            Ok(RecordView::UNKNOWN { domain, qtype, data_len, ttl }),
            pos + data_len,
        ),
    }
}

/// The name that stands at `pos`, as text, or why there is none, and where
/// the cursor stands after it was read.
pub open spec fn host_at(buf: Seq<u8>, pos: int) -> (Result<Seq<char>, DnsError>, int) {
    let name = name_at(buf, pos);
    let end = name_cursor(name, pos);
    match name.error {
        Some(e) => (Err(e), end),
        None => (Ok(join_labels(name.labels)), end),
    }
}

/// The record that stands at `pos`, or why there is none, and where the
/// cursor stands after it was read.
pub open spec fn record_at(buf: Seq<u8>, pos: int) -> (Result<RecordView, DnsError>, int) {
    match host_at(buf, pos) {
        (Err(e), c1) => (Err(e), c1),
        (Ok(domain), c1) => if c1 + 10 > 512 {
            (Err(DnsError::EndOfBuffer), advance(c1, 10))
        } else {
            let qtype = be16(buf[c1], buf[c1 + 1]) as u16;
            let ttl = be32(buf[c1 + 4], buf[c1 + 5], buf[c1 + 6], buf[c1 + 7]) as u32;
            let data_len = be16(buf[c1 + 8], buf[c1 + 9]) as u16;
            data_at(buf, c1 + 10, QueryType::of(qtype), domain, qtype, data_len, ttl)
        },
    }
}

proof fn lemma_halves32(v: u32)
    ensures
        ((v >> 16) & 0xFFFF) == v / 65536,
        ((v >> 0) & 0xFFFF) == v % 65536,
{
    assert(((v >> 16) & 0xFFFF) == v / 65536) by (bit_vector);
    assert(((v >> 0) & 0xFFFF) == v % 65536) by (bit_vector);
}

/// Why writing a name from `pos` on fails, or where the cursor stands
/// after it.
pub open spec fn name_outcome(pos: int, name: Seq<char>) -> Result<int, DnsError> {
    let wire = name_wire(text_bytes(name));
    if !wire_fits(pos, wire) {
        Err(DnsError::EndOfBuffer)
    } else if !labels_fit(text_bytes(name)) {
        Err(DnsError::LabelTooLong)
    } else {
        Ok(pos + wire.len())
    }
}

/// The wire form of what stands in front of the data of a record: the
/// name, the kind, class 1, the time to live.
pub open spec fn record_head(domain: Seq<char>, kind: u16, ttl: u32) -> Seq<u8> {
    name_wire(text_bytes(domain)) + bytes16(kind) + bytes16(1) + bytes32(ttl)
}

/// The eight segments of an address on the wire.
pub open spec fn segments_wire(addr: Seq<u16>) -> Seq<u8> {
    segments_prefix(addr, 8)
}

/// The wire form of a record, where it can be written. A record of unknown
/// kind is passed over: nothing is written for it.
pub open spec fn record_wire(record: RecordView) -> Seq<u8> {
    match record {
        RecordView::UNKNOWN { .. } => Seq::empty(),
        RecordView::A { domain, addr, ttl } => record_head(domain, 1, ttl) + bytes16(4) + addr,
        RecordView::NS { domain, host, ttl } => record_head(domain, 2, ttl) + bytes16(
            name_wire(text_bytes(host)).len() as u16,
        ) + name_wire(text_bytes(host)),
        RecordView::CNAME { domain, host, ttl } => record_head(domain, 5, ttl) + bytes16(
            name_wire(text_bytes(host)).len() as u16,
        ) + name_wire(text_bytes(host)),
        RecordView::MX { domain, priority, host, ttl } => record_head(domain, 15, ttl) + bytes16(
            (name_wire(text_bytes(host)).len() + 2) as u16,
        ) + bytes16(priority) + name_wire(text_bytes(host)),
        RecordView::AAAA { domain, addr, ttl } => record_head(domain, 28, ttl) + bytes16(16)
            + segments_wire(addr),
    }
}

/// Why writing a record from `pos` on fails, if it does: the first name
/// with a label that is too long, or the first byte that does not fit.
pub open spec fn record_failure(record: RecordView, pos: int) -> Option<DnsError> {
    match record {
        RecordView::UNKNOWN { .. } => None,
        RecordView::A { domain, addr, ttl } => match name_outcome(pos, domain) {
            Err(e) => Some(e),
            Ok(c1) => if c1 + 14 > 512 {
                Some(DnsError::EndOfBuffer)
            } else {
                None
            },
        },
        RecordView::AAAA { domain, addr, ttl } => match name_outcome(pos, domain) {
            Err(e) => Some(e),
            Ok(c1) => if c1 + 26 > 512 {
                Some(DnsError::EndOfBuffer)
            } else {
                None
            },
        },
        RecordView::NS { domain, host, ttl } => named_failure(domain, host, pos, 10),
        RecordView::CNAME { domain, host, ttl } => named_failure(domain, host, pos, 10),
        RecordView::MX { domain, priority, host, ttl } => named_failure(domain, host, pos, 12),
    }
}

/// Why writing a record that ends in a host name fails, if it does, with
/// `fixed` bytes between the two names.
pub open spec fn named_failure(domain: Seq<char>, host: Seq<char>, pos: int, fixed: int) -> Option<
    DnsError,
> {
    match name_outcome(pos, domain) {
        Err(e) => Some(e),
        Ok(c1) => if c1 + fixed > 512 {
            Some(DnsError::EndOfBuffer)
        } else {
            match name_outcome(c1 + fixed, host) {
                Err(e) => Some(e),
                Ok(_) => None,
            }
        },
    }
}

/// Reads a name into a text of its own.
fn read_host(buffer: &mut BytePacketBuffer) -> (r: Result<String, DnsError>)
    ensures
        final(buffer).buf == old(buffer).buf,
        final(buffer).pos == host_at(old(buffer).buf@, old(buffer).pos as int).1,
        match host_at(old(buffer).buf@, old(buffer).pos as int).0 {
            Ok(host) => r matches Ok(got) && got@ == host,
            Err(e) => r == Err::<String, DnsError>(e),
        },
{
    let mut host = String::new();
    buffer.read_qname(&mut host)?;
    assert(host@ =~= join_labels(name_at(old(buffer).buf@, old(buffer).pos as int).labels));
    Ok(host)
}

/// Reads the four octets of an address.
fn read_octets(buffer: &mut BytePacketBuffer) -> (r: Result<[u8; 4], DnsError>)
    ensures
        final(buffer).buf == old(buffer).buf,
        final(buffer).pos == advance(old(buffer).pos as int, 4),
        old(buffer).pos + 4 <= 512 ==> (r matches Ok(addr) && addr@ == old(buffer).buf@.subrange(
            old(buffer).pos as int,
            old(buffer).pos + 4,
        )),
        old(buffer).pos + 4 > 512 ==> r == Err::<[u8; 4], DnsError>(DnsError::EndOfBuffer),
{
    let raw_addr = buffer.read_u32()?;
    proof {
        lemma_split32(raw_addr);
    }
    let addr: [u8; 4] = [
        ((raw_addr >> 24) & 0xFF) as u8,
        ((raw_addr >> 16) & 0xFF) as u8,
        ((raw_addr >> 8) & 0xFF) as u8,
        ((raw_addr >> 0) & 0xFF) as u8,
    ];
    assert(addr@ =~= old(buffer).buf@.subrange(old(buffer).pos as int, old(buffer).pos + 4));
    Ok(addr)
}

/// Reads two segments of an address.
fn read_pair(buffer: &mut BytePacketBuffer) -> (r: Result<(u16, u16), DnsError>)
    ensures
        final(buffer).buf == old(buffer).buf,
        final(buffer).pos == advance(old(buffer).pos as int, 4),
        old(buffer).pos + 4 <= 512 ==> (r matches Ok(pair) && pair.0 == be16(
            old(buffer).buf@[old(buffer).pos as int],
            old(buffer).buf@[old(buffer).pos + 1],
        ) && pair.1 == be16(
            old(buffer).buf@[old(buffer).pos + 2],
            old(buffer).buf@[old(buffer).pos + 3],
        )),
        old(buffer).pos + 4 > 512 ==> r == Err::<(u16, u16), DnsError>(DnsError::EndOfBuffer),
{
    let raw = buffer.read_u32()?;
    proof {
        lemma_halves32(raw);
    }
    Ok((((raw >> 16) & 0xFFFF) as u16, ((raw >> 0) & 0xFFFF) as u16))
}

/// Reads the eight segments of an address.
fn read_segments(buffer: &mut BytePacketBuffer) -> (r: Result<[u16; 8], DnsError>)
    ensures
        final(buffer).buf == old(buffer).buf,
        final(buffer).pos == advance(old(buffer).pos as int, 16),
        old(buffer).pos + 16 <= 512 ==> (r matches Ok(addr) && addr@ == segments_at(
            old(buffer).buf@,
            old(buffer).pos as int,
        )),
        old(buffer).pos + 16 > 512 ==> r == Err::<[u16; 8], DnsError>(DnsError::EndOfBuffer),
{
    let a = read_pair(buffer)?;
    let b = read_pair(buffer)?;
    let c = read_pair(buffer)?;
    let d = read_pair(buffer)?;
    let addr: [u16; 8] = [a.0, a.1, b.0, b.1, c.0, c.1, d.0, d.1];
    assert(addr@ =~= segments_at(old(buffer).buf@, old(buffer).pos as int));
    Ok(addr)
}

/// Reads the data of a record of a kind, and makes the record.
fn read_data(
    buffer: &mut BytePacketBuffer,
    kind: QueryType,
    domain: String,
    qtype: u16,
    data_len: u16,
    ttl: u32,
) -> (r: Result<DnsRecord, DnsError>)
    requires
        old(buffer).pos <= 513,
    ensures
        final(buffer).buf == old(buffer).buf,
        final(buffer).pos == data_at(
            old(buffer).buf@,
            old(buffer).pos as int,
            kind,
            domain@,
            qtype,
            data_len,
            ttl,
        ).1,
        match data_at(
            old(buffer).buf@,
            old(buffer).pos as int,
            kind,
            domain@,
            qtype,
            data_len,
            ttl,
        ).0 {
            Ok(record) => r matches Ok(got) && got@ == record,
            Err(e) => r == Err::<DnsRecord, DnsError>(e),
        },
{
    match kind {
        QueryType::A => {
            let addr = read_octets(buffer)?;
            Ok(DnsRecord::A { domain: domain, addr: addr, ttl: ttl })
        },
        QueryType::AAAA => {
            let addr = read_segments(buffer)?;
            Ok(DnsRecord::AAAA { domain: domain, addr: addr, ttl: ttl })
        },
        QueryType::NS => {
            let ns = read_host(buffer)?;
            Ok(DnsRecord::NS { domain: domain, host: ns, ttl: ttl })
        },
        QueryType::CNAME => {
            let cname = read_host(buffer)?;
            Ok(DnsRecord::CNAME { domain: domain, host: cname, ttl: ttl })
        },
        QueryType::MX => {
            let priority = buffer.read_u16()?;
            let mx = read_host(buffer)?;
            Ok(DnsRecord::MX { domain: domain, priority: priority, host: mx, ttl: ttl })
        },
        QueryType::UNKNOWN(_) => {
            buffer.step(data_len as usize)?;
            Ok(
                DnsRecord::UNKNOWN {
                    domain: domain,
                    qtype: qtype,
                    data_len: data_len,
                    ttl: ttl,
                },
            )
        },
    }
}

/// Reads what stands between the name and the data of a record: the kind,
/// the class, which is passed over, the time to live, and the length of
/// the data.
fn read_fixed(buffer: &mut BytePacketBuffer) -> (r: Result<(u16, u32, u16), DnsError>)
    ensures
        final(buffer).buf == old(buffer).buf,
        final(buffer).pos == advance(old(buffer).pos as int, 10),
        old(buffer).pos + 10 > 512 ==> r == Err::<(u16, u32, u16), DnsError>(DnsError::EndOfBuffer),
        old(buffer).pos + 10 <= 512 ==> {
            let buf = old(buffer).buf@;
            let p = old(buffer).pos as int;
            &&& r matches Ok(fixed)
            &&& fixed.0 == be16(buf[p], buf[p + 1])
            &&& fixed.1 == be32(buf[p + 4], buf[p + 5], buf[p + 6], buf[p + 7])
            &&& fixed.2 == be16(buf[p + 8], buf[p + 9])
        },
{
    let qtype_num = buffer.read_u16()?;
    let _ = buffer.read_u16()?;
    let ttl = buffer.read_u32()?;
    let data_len = buffer.read_u16()?;
    Ok((qtype_num, ttl, data_len))
}

impl DnsRecord {
    /// Reads the record under the cursor.
    pub fn read(buffer: &mut BytePacketBuffer) -> (r: Result<DnsRecord, DnsError>)
        ensures
            final(buffer).buf == old(buffer).buf,
            final(buffer).pos == record_at(old(buffer).buf@, old(buffer).pos as int).1,
            match record_at(old(buffer).buf@, old(buffer).pos as int).0 {
                Ok(record) => r matches Ok(got) && got@ == record,
                Err(e) => r == Err::<DnsRecord, DnsError>(e),
            },
    {
        let domain = read_host(buffer)?;
        let (qtype_num, ttl, data_len) = read_fixed(buffer)?;
        let qtype = QueryType::from_num(qtype_num);
        read_data(buffer, qtype, domain, qtype_num, data_len, ttl)
    }

    /// Writes what stands in front of the data of a record.
    fn write_head(buffer: &mut BytePacketBuffer, domain: &str, kind: u16, ttl: u32) -> (r: Result<
        (),
        DnsError,
    >)
        ensures
            match name_outcome(old(buffer).pos as int, domain@) {
                Err(e) => r == Err::<(), DnsError>(e),
                Ok(c1) => if c1 + 8 > 512 {
                    r == Err::<(), DnsError>(DnsError::EndOfBuffer)
                } else {
                    &&& r is Ok
                    &&& final(buffer).pos == c1 + 8
                    &&& final(buffer).buf@ == put(
                        old(buffer).buf@,
                        old(buffer).pos as int,
                        record_head(domain@, kind, ttl),
                    )
                },
            },
    {
        let ghost start = buffer.buf@;
        let ghost at = buffer.pos as int;
        buffer.write_qname(domain)?;
        let ghost name = name_wire(text_bytes(domain@));
        buffer.write_u16(kind)?;
        proof {
            lemma_put_append(start, at, name, bytes16(kind));
        }
        buffer.write_u16(1)?;
        proof {
            lemma_put_append(start, at, name + bytes16(kind), bytes16(1));
        }
        buffer.write_u32(ttl)?;
        proof {
            lemma_put_append(start, at, name + bytes16(kind) + bytes16(1), bytes32(ttl));
        }
        Ok(())
    }

    /// Writes a record that holds an IPv4 address.
    fn write_a(buffer: &mut BytePacketBuffer, domain: &str, addr: &[u8; 4], ttl: u32) -> (r: Result<
        (),
        DnsError,
    >)
        ensures
            ({
                let record = RecordView::A { domain: domain@, addr: addr@, ttl };
                match record_failure(record, old(buffer).pos as int) {
                    Some(e) => r == Err::<(), DnsError>(e),
                    None => {
                        &&& r is Ok
                        &&& final(buffer).pos == old(buffer).pos + record_wire(record).len()
                        &&& final(buffer).buf@ == put(
                            old(buffer).buf@,
                            old(buffer).pos as int,
                            record_wire(record),
                        )
                    },
                }
            }),
    {
        let ghost start = buffer.buf@;
        let ghost at = buffer.pos as int;
        DnsRecord::write_head(buffer, domain, 1, ttl)?;
        let ghost head = record_head(domain@, 1, ttl);
        buffer.write_u16(4)?;
        proof {
            lemma_put_append(start, at, head, bytes16(4));
        }
        let octets = addr.as_slice();
        buffer.write_all(octets)?;
        proof {
            lemma_put_append(start, at, head + bytes16(4), addr@);
        }
        Ok(())
    }

    /// Writes a record that holds an IPv6 address.
    fn write_aaaa(buffer: &mut BytePacketBuffer, domain: &str, addr: &[u16; 8], ttl: u32) -> (r:
        Result<(), DnsError>)
        ensures
            ({
                let record = RecordView::AAAA { domain: domain@, addr: addr@, ttl };
                match record_failure(record, old(buffer).pos as int) {
                    Some(e) => r == Err::<(), DnsError>(e),
                    None => {
                        &&& r is Ok
                        &&& final(buffer).pos == old(buffer).pos + record_wire(record).len()
                        &&& final(buffer).buf@ == put(
                            old(buffer).buf@,
                            old(buffer).pos as int,
                            record_wire(record),
                        )
                    },
                }
            }),
    {
        let ghost start = buffer.buf@;
        let ghost at = buffer.pos as int;
        DnsRecord::write_head(buffer, domain, 28, ttl)?;
        let ghost head = record_head(domain@, 28, ttl);
        buffer.write_u16(16)?;
        proof {
            lemma_put_append(start, at, head, bytes16(16));
        }
        let ghost front = head + bytes16(16);
        let mut i: usize = 0;
        assert(front + segments_prefix(addr@, 0) =~= front);
        while i < 8
            invariant
                i <= 8,
                at == old(buffer).pos,
                start == old(buffer).buf@,
                head == record_head(domain@, 28, ttl),
                front == head + bytes16(16),
                at + front.len() + 2 * i <= 512,
                buffer.pos == at + front.len() + 2 * i,
                segments_prefix(addr@, i as int).len() == 2 * i,
                buffer.buf@ == put(start, at, front + segments_prefix(addr@, i as int)),
                record_failure(RecordView::AAAA { domain: domain@, addr: addr@, ttl }, at)
                    == if at + front.len() + 16 > 512 {
                    Some(DnsError::EndOfBuffer)
                } else {
                    None::<DnsError>
                },
            decreases 8 - i,
        {
            buffer.write_u16(addr[i])?;
            proof {
                lemma_put_append(
                    start,
                    at,
                    front + segments_prefix(addr@, i as int),
                    bytes16(addr@[i as int]),
                );
                assert(front + segments_prefix(addr@, i as int) + bytes16(addr@[i as int]) =~= front
                    + segments_prefix(addr@, i + 1));
            }
            i = i + 1;
        }
        Ok(())
    }

    /// Writes a record that ends in a host name. The length of its data is
    /// written as zero first and set right once the name has been written.
    fn write_named(
        buffer: &mut BytePacketBuffer,
        kind: u16,
        domain: &str,
        priority: Option<u16>,
        host: &str,
        ttl: u32,
    ) -> (r: Result<(), DnsError>)
        ensures
            ({
                let fixed: int = if priority is Some {
                    12
                } else {
                    10
                };
                let extra: Seq<u8> = match priority {
                    Some(p) => bytes16(p),
                    None => Seq::empty(),
                };
                let name = name_wire(text_bytes(host@));
                let wire = record_head(domain@, kind, ttl) + bytes16(
                    (name.len() + extra.len()) as u16,
                ) + extra + name;
                match named_failure(domain@, host@, old(buffer).pos as int, fixed) {
                    Some(e) => r == Err::<(), DnsError>(e),
                    None => {
                        &&& r is Ok
                        &&& final(buffer).pos == old(buffer).pos + wire.len()
                        &&& final(buffer).buf@ == put(old(buffer).buf@, old(buffer).pos as int, wire)
                    },
                }
            }),
    {
        let ghost start = buffer.buf@;
        let ghost at = buffer.pos as int;
        DnsRecord::write_head(buffer, domain, kind, ttl)?;
        let ghost head = record_head(domain@, kind, ttl);
        let pos = buffer.pos();
        buffer.write_u16(0)?;
        proof {
            lemma_put_append(start, at, head, bytes16(0));
        }
        let ghost extra: Seq<u8> = Seq::empty();
        match priority {
            Some(p) => {
                buffer.write_u16(p)?;
                proof {
                    lemma_put_append(start, at, head + bytes16(0), bytes16(p));
                    extra = bytes16(p);
                }
            },
            None => {
                assert(head + bytes16(0) + extra =~= head + bytes16(0));
            },
        }
        buffer.write_qname(host)?;
        let ghost name = name_wire(text_bytes(host@));
        proof {
            lemma_put_append(start, at, head + bytes16(0) + extra, name);
        }
        let size = buffer.pos() - (pos + 2);
        buffer.set_u16(pos, size as u16)?;
        proof {
            assert(head + bytes16(0) + extra + name =~= head + bytes16(0) + (extra + name));
            lemma_put_patch(start, at, head, bytes16(0), bytes16(size as u16), extra + name);
            assert(head + bytes16(size as u16) + (extra + name) =~= head + bytes16(size as u16)
                + extra + name);
        }
        Ok(())
    }

    /// Writes a record that names a name server.
    fn write_ns(buffer: &mut BytePacketBuffer, domain: &str, host: &str, ttl: u32) -> (r: Result<
        (),
        DnsError,
    >)
        ensures
            ({
                let record = RecordView::NS { domain: domain@, host: host@, ttl };
                match record_failure(record, old(buffer).pos as int) {
                    Some(e) => r == Err::<(), DnsError>(e),
                    None => {
                        &&& r is Ok
                        &&& final(buffer).pos == old(buffer).pos + record_wire(record).len()
                        &&& final(buffer).buf@ == put(
                            old(buffer).buf@,
                            old(buffer).pos as int,
                            record_wire(record),
                        )
                    },
                }
            }),
    {
        let r = DnsRecord::write_named(buffer, 2, domain, None, host, ttl);
        assert(record_wire(RecordView::NS { domain: domain@, host: host@, ttl }) =~= record_head(
            domain@,
            2,
            ttl,
        ) + bytes16((name_wire(text_bytes(host@)).len() + 0) as u16) + Seq::<u8>::empty()
            + name_wire(text_bytes(host@)));
        r
    }

    /// Writes a record that names the canonical name of a domain.
    fn write_cname(buffer: &mut BytePacketBuffer, domain: &str, host: &str, ttl: u32) -> (r: Result<
        (),
        DnsError,
    >)
        ensures
            ({
                let record = RecordView::CNAME { domain: domain@, host: host@, ttl };
                match record_failure(record, old(buffer).pos as int) {
                    Some(e) => r == Err::<(), DnsError>(e),
                    None => {
                        &&& r is Ok
                        &&& final(buffer).pos == old(buffer).pos + record_wire(record).len()
                        &&& final(buffer).buf@ == put(
                            old(buffer).buf@,
                            old(buffer).pos as int,
                            record_wire(record),
                        )
                    },
                }
            }),
    {
        let r = DnsRecord::write_named(buffer, 5, domain, None, host, ttl);
        assert(record_wire(RecordView::CNAME { domain: domain@, host: host@, ttl }) =~= record_head(
            domain@,
            5,
            ttl,
        ) + bytes16((name_wire(text_bytes(host@)).len() + 0) as u16) + Seq::<u8>::empty()
            + name_wire(text_bytes(host@)));
        r
    }

    /// Writes a record that names a mail server.
    fn write_mx(buffer: &mut BytePacketBuffer, domain: &str, priority: u16, host: &str, ttl: u32)
        -> (r: Result<(), DnsError>)
        ensures
            ({
                let record = RecordView::MX { domain: domain@, priority, host: host@, ttl };
                match record_failure(record, old(buffer).pos as int) {
                    Some(e) => r == Err::<(), DnsError>(e),
                    None => {
                        &&& r is Ok
                        &&& final(buffer).pos == old(buffer).pos + record_wire(record).len()
                        &&& final(buffer).buf@ == put(
                            old(buffer).buf@,
                            old(buffer).pos as int,
                            record_wire(record),
                        )
                    },
                }
            }),
    {
        DnsRecord::write_named(buffer, 15, domain, Some(priority), host, ttl)
    }

    /// Writes the record under the cursor and says how many bytes that
    /// were. A record of unknown kind is passed over.
    pub fn write(&self, buffer: &mut BytePacketBuffer) -> (r: Result<usize, DnsError>)
        ensures
            match record_failure(self@, old(buffer).pos as int) {
                Some(e) => r == Err::<usize, DnsError>(e),
                None => {
                    &&& r == Ok::<usize, DnsError>(record_wire(self@).len() as usize)
                    &&& final(buffer).pos == old(buffer).pos + record_wire(self@).len()
                    &&& final(buffer).buf@ == put(
                        old(buffer).buf@,
                        old(buffer).pos as int,
                        record_wire(self@),
                    )
                },
            },
    {
        let start_pos = buffer.pos();
        match self {
            DnsRecord::A { domain, addr, ttl } => {
                DnsRecord::write_a(buffer, domain.as_str(), addr, *ttl)?;
            },
            DnsRecord::NS { domain, host, ttl } => {
                DnsRecord::write_ns(buffer, domain.as_str(), host.as_str(), *ttl)?;
            },
            DnsRecord::CNAME { domain, host, ttl } => {
                DnsRecord::write_cname(buffer, domain.as_str(), host.as_str(), *ttl)?;
            },
            DnsRecord::MX { domain, priority, host, ttl } => {
                DnsRecord::write_mx(buffer, domain.as_str(), *priority, host.as_str(), *ttl)?;
            },
            DnsRecord::AAAA { domain, addr, ttl } => {
                DnsRecord::write_aaaa(buffer, domain.as_str(), addr, *ttl)?;
            },
            DnsRecord::UNKNOWN { .. } => {
                assert(buffer.buf@ =~= put(buffer.buf@, start_pos as int, record_wire(self@)));
            },
        }
        Ok(buffer.pos() - start_pos)
    }
}

/// The first `count` segments of an address on the wire.
pub open spec fn segments_prefix(addr: Seq<u16>, count: int) -> Seq<u8>
    decreases count,
{
    if count <= 0 {
        Seq::empty()
    } else {
        segments_prefix(addr, count - 1) + bytes16(addr[count - 1])
    }
}

/// The question that stands at `pos`, or why there is none, and where the
/// cursor stands after it was read.
pub open spec fn question_at(buf: Seq<u8>, pos: int) -> (Result<QuestionView, DnsError>, int) {
    match host_at(buf, pos) {
        (Err(e), p) => (Err(e), p),
        (Ok(name), p) => if p + 4 > 512 {
            (Err(DnsError::EndOfBuffer), advance(p, 4))
        } else {
            (Ok(QuestionView { name, qtype: QueryType::of(be16(buf[p], buf[p + 1]) as u16) }), p + 4)
        },
    }
}

/// The `count` questions that stand at `pos`, one behind the other, or why
/// one of them is missing, and where the cursor stands after they were
/// read.
pub open spec fn questions_at(buf: Seq<u8>, pos: int, count: nat) -> (
    Result<Seq<QuestionView>, DnsError>,
    int,
)
    decreases count,
{
    if count == 0 {
        (Ok(Seq::empty()), pos)
    } else {
        match question_at(buf, pos) {
            (Err(e), p) => (Err(e), p),
            (Ok(first), p) => match questions_at(buf, p, (count - 1) as nat) {
                (Err(e), end) => (Err(e), end),
                (Ok(rest), end) => (Ok(seq![first] + rest), end),
            },
        }
    }
}

/// The `count` records that stand at `pos`, one behind the other, or why
/// one of them is missing, and where the cursor stands after they were
/// read.
pub open spec fn records_at(buf: Seq<u8>, pos: int, count: nat) -> (
    Result<Seq<RecordView>, DnsError>,
    int,
)
    decreases count,
{
    if count == 0 {
        (Ok(Seq::empty()), pos)
    } else {
        match record_at(buf, pos) {
            (Err(e), p) => (Err(e), p),
            (Ok(first), p) => match records_at(buf, p, (count - 1) as nat) {
                (Err(e), end) => (Err(e), end),
                (Ok(rest), end) => (Ok(seq![first] + rest), end),
            },
        }
    }
}

/// A whole packet.
#[derive(Clone, Debug)]
pub struct DnsPacket {
    pub header: DnsHeader,
    pub questions: Vec<DnsQuestion>,
    pub answers: Vec<DnsRecord>,
    pub authorities: Vec<DnsRecord>,
    pub resources: Vec<DnsRecord>,
}

/// A packet as plain values.
pub struct PacketView {
    pub header: DnsHeader,
    pub questions: Seq<QuestionView>,
    pub answers: Seq<RecordView>,
    pub authorities: Seq<RecordView>,
    pub resources: Seq<RecordView>,
}

/// Questions as plain values, in order.
pub open spec fn question_views(questions: Seq<DnsQuestion>) -> Seq<QuestionView> {
    questions.map_values(|q: DnsQuestion| q@)
}

/// Records as plain values, in order.
pub open spec fn record_views(records: Seq<DnsRecord>) -> Seq<RecordView> {
    records.map_values(|r: DnsRecord| r@)
}

impl View for DnsPacket {
    type V = PacketView;

    open spec fn view(&self) -> PacketView {
        PacketView {
            header: self.header,
            questions: question_views(self.questions@),
            answers: record_views(self.answers@),
            authorities: record_views(self.authorities@),
            resources: record_views(self.resources@),
        }
    }
}

/// The packet that stands at `pos`: the header and as many questions,
/// answers, authorities and resources as it counts; or why a part is
/// missing; and where the cursor stands after the packet was read.
pub open spec fn packet_at(buf: Seq<u8>, pos: int) -> (Result<PacketView, DnsError>, int) {
    if pos + 12 > 512 {
        (Err(DnsError::EndOfBuffer), advance(pos, 12))
    } else {
        let header = header_at(buf, pos);
        match questions_at(buf, pos + 12, header.questions as nat) {
            (Err(e), end) => (Err(e), end),
            (Ok(questions), c1) => match records_at(buf, c1, header.answers as nat) {
                (Err(e), end) => (Err(e), end),
                (Ok(answers), c2) => match records_at(
                    buf,
                    c2,
                    header.authoritative_entries as nat,
                ) {
                    (Err(e), end) => (Err(e), end),
                    (Ok(authorities), c3) => match records_at(
                        buf,
                        c3,
                        header.resource_entries as nat,
                    ) {
                        (Err(e), end) => (Err(e), end),
                        (Ok(resources), c4) => (
                            Ok(PacketView { header, questions, answers, authorities, resources }),
                            c4,
                        ),
                    },
                },
            },
        }
    }
}

/// Reads `count` questions, one behind the other.
fn read_questions(buffer: &mut BytePacketBuffer, count: u16) -> (r: Result<
    Vec<DnsQuestion>,
    DnsError,
>)
    ensures
        final(buffer).buf == old(buffer).buf,
        final(buffer).pos == questions_at(old(buffer).buf@, old(buffer).pos as int, count as nat).1,
        match questions_at(old(buffer).buf@, old(buffer).pos as int, count as nat).0 {
            Ok(questions) => r matches Ok(got) && question_views(got@) == questions,
            Err(e) => r == Err::<Vec<DnsQuestion>, DnsError>(e),
        },
{
    let ghost buf = buffer.buf@;
    let ghost whole = questions_at(buf, buffer.pos as int, count as nat);
    let mut questions: Vec<DnsQuestion> = Vec::new();
    let mut i: u16 = 0;
    assert(question_views(questions@) =~= Seq::<QuestionView>::empty());
    while i < count
        invariant
            i <= count,
            buffer.buf@ == buf,
            buf == old(buffer).buf@,
            whole == questions_at(buf, old(buffer).pos as int, count as nat),
            whole.1 == questions_at(buf, buffer.pos as int, (count - i) as nat).1,
            whole.0 == match questions_at(buf, buffer.pos as int, (count - i) as nat).0 {
                Ok(rest) => Ok::<Seq<QuestionView>, DnsError>(question_views(questions@) + rest),
                Err(e) => Err::<Seq<QuestionView>, DnsError>(e),
            },
        decreases count - i,
    {
        let ghost at = buffer.pos as int;
        let mut question = DnsQuestion::new(String::new(), QueryType::UNKNOWN(0));
        question.read(buffer)?;
        proof {
            assert(question@.name =~= join_labels(name_at(buf, at).labels));
            let rest = questions_at(buf, buffer.pos as int, (count - i - 1) as nat);
            let ghost before = questions@;
            match rest.0 {
                Ok(more) => {
                    assert(question_views(before) + (seq![question@] + more) =~= question_views(
                        before.push(question),
                    ) + more);
                },
                Err(_) => {},
            }
        }
        questions.push(question);
        i = i + 1;
    }
    assert(question_views(questions@) + Seq::<QuestionView>::empty() =~= question_views(
        questions@,
    ));
    Ok(questions)
}

/// Reads `count` records, one behind the other.
fn read_records(buffer: &mut BytePacketBuffer, count: u16) -> (r: Result<Vec<DnsRecord>, DnsError>)
    ensures
        final(buffer).buf == old(buffer).buf,
        final(buffer).pos == records_at(old(buffer).buf@, old(buffer).pos as int, count as nat).1,
        match records_at(old(buffer).buf@, old(buffer).pos as int, count as nat).0 {
            Ok(records) => r matches Ok(got) && record_views(got@) == records,
            Err(e) => r == Err::<Vec<DnsRecord>, DnsError>(e),
        },
{
    let ghost buf = buffer.buf@;
    let ghost whole = records_at(buf, buffer.pos as int, count as nat);
    let mut records: Vec<DnsRecord> = Vec::new();
    let mut i: u16 = 0;
    assert(record_views(records@) =~= Seq::<RecordView>::empty());
    while i < count
        invariant
            i <= count,
            buffer.buf@ == buf,
            buf == old(buffer).buf@,
            whole == records_at(buf, old(buffer).pos as int, count as nat),
            whole.1 == records_at(buf, buffer.pos as int, (count - i) as nat).1,
            whole.0 == match records_at(buf, buffer.pos as int, (count - i) as nat).0 {
                Ok(rest) => Ok::<Seq<RecordView>, DnsError>(record_views(records@) + rest),
                Err(e) => Err::<Seq<RecordView>, DnsError>(e),
            },
        decreases count - i,
    {
        let rec = DnsRecord::read(buffer)?;
        proof {
            let rest = records_at(buf, buffer.pos as int, (count - i - 1) as nat);
            let ghost before = records@;
            match rest.0 {
                Ok(more) => {
                    assert(record_views(before) + (seq![rec@] + more) =~= record_views(
                        before.push(rec),
                    ) + more);
                },
                Err(_) => {},
            }
        }
        records.push(rec);
        i = i + 1;
    }
    assert(record_views(records@) + Seq::<RecordView>::empty() =~= record_views(records@));
    Ok(records)
}

/// The wire form of questions, one behind the other.
pub open spec fn questions_wire(questions: Seq<QuestionView>) -> Seq<u8>
    decreases questions.len(),
{
    if questions.len() == 0 {
        Seq::empty()
    } else {
        questions_wire(questions.drop_last()) + question_wire(
            text_bytes(questions.last().name),
            questions.last().qtype,
        )
    }
}

/// Why writing a question from `pos` on fails, if it does.
pub open spec fn question_failure(question: QuestionView, pos: int) -> Option<DnsError> {
    match name_outcome(pos, question.name) {
        Err(e) => Some(e),
        Ok(p) => if p + 4 > 512 {
            Some(DnsError::EndOfBuffer)
        } else {
            None
        },
    }
}

/// Why writing questions from `pos` on, one behind the other, fails, if it
/// does: why the first of them fails that does.
pub open spec fn questions_failure(questions: Seq<QuestionView>, pos: int) -> Option<DnsError>
    decreases questions.len(),
{
    if questions.len() == 0 {
        None
    } else {
        match questions_failure(questions.drop_last(), pos) {
            Some(e) => Some(e),
            None => question_failure(
                questions.last(),
                pos + questions_wire(questions.drop_last()).len(),
            ),
        }
    }
}

/// The wire form of records, one behind the other.
pub open spec fn records_wire(records: Seq<RecordView>) -> Seq<u8>
    decreases records.len(),
{
    if records.len() == 0 {
        Seq::empty()
    } else {
        records_wire(records.drop_last()) + record_wire(records.last())
    }
}

/// Why writing records from `pos` on, one behind the other, fails, if it
/// does: why the first of them fails that does.
pub open spec fn records_failure(records: Seq<RecordView>, pos: int) -> Option<DnsError>
    decreases records.len(),
{
    if records.len() == 0 {
        None
    } else {
        match records_failure(records.drop_last(), pos) {
            Some(e) => Some(e),
            None => record_failure(records.last(), pos + records_wire(records.drop_last()).len()),
        }
    }
}

proof fn lemma_questions_failure_stays(questions: Seq<QuestionView>, pos: int, n: int)
    requires
        0 <= n <= questions.len(),
        questions_failure(questions.take(n), pos) is Some,
    ensures
        questions_failure(questions, pos) == questions_failure(questions.take(n), pos),
    decreases questions.len() - n,
{
    if n == questions.len() {
        assert(questions.take(n) =~= questions);
    } else {
        assert(questions.take(n + 1).drop_last() =~= questions.take(n));
        lemma_questions_failure_stays(questions, pos, n + 1);
    }
}

proof fn lemma_records_failure_stays(records: Seq<RecordView>, pos: int, n: int)
    requires
        0 <= n <= records.len(),
        records_failure(records.take(n), pos) is Some,
    ensures
        records_failure(records, pos) == records_failure(records.take(n), pos),
    decreases records.len() - n,
{
    if n == records.len() {
        assert(records.take(n) =~= records);
    } else {
        assert(records.take(n + 1).drop_last() =~= records.take(n));
        lemma_records_failure_stays(records, pos, n + 1);
    }
}

/// Writes questions, one behind the other.
fn write_questions(buffer: &mut BytePacketBuffer, questions: &Vec<DnsQuestion>) -> (r: Result<
    (),
    DnsError,
>)
    ensures
        match questions_failure(question_views(questions@), old(buffer).pos as int) {
            Some(e) => r == Err::<(), DnsError>(e),
            None => {
                &&& r is Ok
                &&& final(buffer).pos == old(buffer).pos + questions_wire(
                    question_views(questions@),
                ).len()
                &&& final(buffer).buf@ == put(
                    old(buffer).buf@,
                    old(buffer).pos as int,
                    questions_wire(question_views(questions@)),
                )
            },
        },
{
    let ghost start = buffer.buf@;
    let ghost at = buffer.pos as int;
    let ghost views = question_views(questions@);
    let mut i: usize = 0;
    assert(views.take(0) =~= Seq::<QuestionView>::empty());
    assert(buffer.buf@ =~= put(start, at, questions_wire(views.take(0))));
    while i < questions.len()
        invariant
            i <= questions@.len(),
            views == question_views(questions@),
            start == old(buffer).buf@,
            at == old(buffer).pos,
            questions_failure(views.take(i as int), at) is None,
            buffer.pos == at + questions_wire(views.take(i as int)).len(),
            buffer.buf@ == put(start, at, questions_wire(views.take(i as int))),
        decreases questions@.len() - i,
    {
        let ghost done = questions_wire(views.take(i as int));
        let question = &questions[i];
        proof {
            assert(views.take(i + 1).drop_last() =~= views.take(i as int));
            assert(views.take(i + 1).last() == question@);
        }
        let wrote = question.write(buffer);
        if wrote.is_err() {
            proof {
                lemma_questions_failure_stays(views, at, i + 1);
            }
            return wrote;
        }
        proof {
            lemma_put_append(start, at, done, question_wire(text_bytes(question@.name), question@.qtype));
        }
        i = i + 1;
    }
    assert(views.take(i as int) =~= views);
    Ok(())
}

/// Writes records, one behind the other.
fn write_records(buffer: &mut BytePacketBuffer, records: &Vec<DnsRecord>) -> (r: Result<
    (),
    DnsError,
>)
    ensures
        match records_failure(record_views(records@), old(buffer).pos as int) {
            Some(e) => r == Err::<(), DnsError>(e),
            None => {
                &&& r is Ok
                &&& final(buffer).pos == old(buffer).pos + records_wire(record_views(records@)).len()
                &&& final(buffer).buf@ == put(
                    old(buffer).buf@,
                    old(buffer).pos as int,
                    records_wire(record_views(records@)),
                )
            },
        },
{
    let ghost start = buffer.buf@;
    let ghost at = buffer.pos as int;
    let ghost views = record_views(records@);
    let mut i: usize = 0;
    assert(views.take(0) =~= Seq::<RecordView>::empty());
    assert(buffer.buf@ =~= put(start, at, records_wire(views.take(0))));
    while i < records.len()
        invariant
            i <= records@.len(),
            views == record_views(records@),
            start == old(buffer).buf@,
            at == old(buffer).pos,
            records_failure(views.take(i as int), at) is None,
            buffer.pos == at + records_wire(views.take(i as int)).len(),
            buffer.buf@ == put(start, at, records_wire(views.take(i as int))),
        decreases records@.len() - i,
    {
        let ghost done = records_wire(views.take(i as int));
        let rec = &records[i];
        proof {
            assert(views.take(i + 1).drop_last() =~= views.take(i as int));
            assert(views.take(i + 1).last() == rec@);
        }
        match rec.write(buffer) {
            Ok(_) => {},
            Err(e) => {
                proof {
                    lemma_records_failure_stays(views, at, i + 1);
                }
                return Err(e);
            },
        }
        proof {
            lemma_put_append(start, at, done, record_wire(rec@));
        }
        i = i + 1;
    }
    assert(views.take(i as int) =~= views);
    Ok(())
}

/// The header of a packet as it is written: with the counts of the
/// packet's four sections, each cut to sixteen bits.
pub open spec fn counted(packet: PacketView) -> DnsHeader {
    DnsHeader {
        questions: packet.questions.len() as u16,
        answers: packet.answers.len() as u16,
        authoritative_entries: packet.authorities.len() as u16,
        resource_entries: packet.resources.len() as u16,
        ..packet.header
    }
}

/// The wire form of a packet: the header with the counts, then the four
/// sections.
pub open spec fn packet_wire(packet: PacketView) -> Seq<u8> {
    header_wire(counted(packet)) + (front_wire(packet) + tail_wire(packet))
}

/// Why writing the two sections of a packet that come first fails from
/// `pos` on, if it does.
pub open spec fn front_failure(packet: PacketView, pos: int) -> Option<DnsError> {
    match questions_failure(packet.questions, pos) {
        Some(e) => Some(e),
        None => records_failure(packet.answers, pos + questions_wire(packet.questions).len()),
    }
}

/// The wire form of the two sections of a packet that come first.
pub open spec fn front_wire(packet: PacketView) -> Seq<u8> {
    questions_wire(packet.questions) + records_wire(packet.answers)
}

/// Why writing the two sections of a packet that come last fails from
/// `pos` on, if it does.
pub open spec fn tail_failure(packet: PacketView, pos: int) -> Option<DnsError> {
    match records_failure(packet.authorities, pos) {
        Some(e) => Some(e),
        None => records_failure(packet.resources, pos + records_wire(packet.authorities).len()),
    }
}

/// The wire form of the two sections of a packet that come last.
pub open spec fn tail_wire(packet: PacketView) -> Seq<u8> {
    records_wire(packet.authorities) + records_wire(packet.resources)
}

/// Why writing the four sections of a packet fails from `pos` on, if it
/// does.
pub open spec fn sections_failure(packet: PacketView, pos: int) -> Option<DnsError> {
    match front_failure(packet, pos) {
        Some(e) => Some(e),
        None => tail_failure(packet, pos + front_wire(packet).len()),
    }
}

/// Why writing a packet from `pos` on fails, if it does: why the first
/// part of it fails that does.
pub open spec fn packet_failure(packet: PacketView, pos: int) -> Option<DnsError> {
    if pos + 12 > 512 {
        Some(DnsError::EndOfBuffer)
    } else {
        sections_failure(packet, pos + 12)
    }
}

impl DnsPacket {
    /// A packet with an all-zero header and no entries.
    pub fn new() -> (r: DnsPacket)
        ensures
            r.header == DnsHeader::new_spec(),
            r.questions@.len() == 0,
            r.answers@.len() == 0,
            r.authorities@.len() == 0,
            r.resources@.len() == 0,
    {
        DnsPacket {
            header: DnsHeader::new(),
            questions: Vec::new(),
            answers: Vec::new(),
            authorities: Vec::new(),
            resources: Vec::new(),
        }
    }

    /// Reads the packet under the cursor.
    pub fn from_buffer(buffer: &mut BytePacketBuffer) -> (r: Result<DnsPacket, DnsError>)
        ensures
            final(buffer).buf == old(buffer).buf,
            final(buffer).pos == packet_at(old(buffer).buf@, old(buffer).pos as int).1,
            match packet_at(old(buffer).buf@, old(buffer).pos as int).0 {
                Ok(packet) => r matches Ok(got) && got@ == packet,
                Err(e) => r == Err::<DnsPacket, DnsError>(e),
            },
    {
        let mut result = DnsPacket::new();
        result.header.read(buffer)?;
        result.questions = read_questions(buffer, result.header.questions)?;
        result.answers = read_records(buffer, result.header.answers)?;
        result.authorities = read_records(buffer, result.header.authoritative_entries)?;
        result.resources = read_records(buffer, result.header.resource_entries)?;
        Ok(result)
    }

    /// Sets the counts of the header to the lengths of the four sections.
    fn count(&mut self)
        ensures
            final(self)@ == (PacketView { header: counted(old(self)@), ..old(self)@ }),
    {
        self.header.questions = self.questions.len() as u16;
        self.header.answers = self.answers.len() as u16;
        self.header.authoritative_entries = self.authorities.len() as u16;
        self.header.resource_entries = self.resources.len() as u16;
    }

    /// Writes the two sections that come last.
    fn write_tail(&self, buffer: &mut BytePacketBuffer) -> (r: Result<(), DnsError>)
        ensures
            match tail_failure(self@, old(buffer).pos as int) {
                Some(e) => r == Err::<(), DnsError>(e),
                None => {
                    &&& r is Ok
                    &&& final(buffer).pos == old(buffer).pos + tail_wire(self@).len()
                    &&& final(buffer).buf@ == put(
                        old(buffer).buf@,
                        old(buffer).pos as int,
                        tail_wire(self@),
                    )
                },
            },
    {
        let ghost start = buffer.buf@;
        let ghost at = buffer.pos as int;
        write_records(buffer, &self.authorities)?;
        write_records(buffer, &self.resources)?;
        proof {
            lemma_put_append(
                start,
                at,
                records_wire(self@.authorities),
                records_wire(self@.resources),
            );
        }
        Ok(())
    }

    /// Writes the two sections that come first.
    fn write_front(&self, buffer: &mut BytePacketBuffer) -> (r: Result<(), DnsError>)
        ensures
            match front_failure(self@, old(buffer).pos as int) {
                Some(e) => r == Err::<(), DnsError>(e),
                None => {
                    &&& r is Ok
                    &&& final(buffer).pos == old(buffer).pos + front_wire(self@).len()
                    &&& final(buffer).buf@ == put(
                        old(buffer).buf@,
                        old(buffer).pos as int,
                        front_wire(self@),
                    )
                },
            },
    {
        let ghost start = buffer.buf@;
        let ghost at = buffer.pos as int;
        write_questions(buffer, &self.questions)?;
        write_records(buffer, &self.answers)?;
        proof {
            lemma_put_append(
                start,
                at,
                questions_wire(self@.questions),
                records_wire(self@.answers),
            );
        }
        Ok(())
    }

    /// Writes the four sections.
    fn write_sections(&self, buffer: &mut BytePacketBuffer) -> (r: Result<(), DnsError>)
        ensures
            match sections_failure(self@, old(buffer).pos as int) {
                Some(e) => r == Err::<(), DnsError>(e),
                None => {
                    &&& r is Ok
                    &&& final(buffer).pos == old(buffer).pos + front_wire(self@).len() + tail_wire(
                        self@,
                    ).len()
                    &&& final(buffer).buf@ == put(
                        old(buffer).buf@,
                        old(buffer).pos as int,
                        front_wire(self@) + tail_wire(self@),
                    )
                },
            },
    {
        let ghost start = buffer.buf@;
        let ghost at = buffer.pos as int;
        self.write_front(buffer)?;
        self.write_tail(buffer)?;
        proof {
            lemma_put_append(start, at, front_wire(self@), tail_wire(self@));
        }
        Ok(())
    }

    /// Writes the packet as it is.
    fn write_counted(&self, buffer: &mut BytePacketBuffer) -> (r: Result<(), DnsError>)
        ensures
            match packet_failure(self@, old(buffer).pos as int) {
                Some(e) => r == Err::<(), DnsError>(e),
                None => {
                    &&& r is Ok
                    &&& final(buffer).pos == old(buffer).pos + 12 + front_wire(self@).len()
                        + tail_wire(self@).len()
                    &&& final(buffer).buf@ == put(
                        old(buffer).buf@,
                        old(buffer).pos as int,
                        header_wire(self.header) + (front_wire(self@) + tail_wire(self@)),
                    )
                },
            },
    {
        let ghost start = buffer.buf@;
        let ghost at = buffer.pos as int;
        proof {
            lemma_header_wire_len(self.header);
        }
        self.header.write(buffer)?;
        self.write_sections(buffer)?;
        proof {
            lemma_put_append(
                start,
                at,
                header_wire(self.header),
                front_wire(self@) + tail_wire(self@),
            );
        }
        Ok(())
    }

    /// Sets the counts of the header to the lengths of the four sections,
    /// and writes the packet under the cursor.
    pub fn write(&mut self, buffer: &mut BytePacketBuffer) -> (r: Result<(), DnsError>)
        ensures
            final(self)@ == (PacketView { header: counted(old(self)@), ..old(self)@ }),
            match packet_failure(old(self)@, old(buffer).pos as int) {
                Some(e) => r == Err::<(), DnsError>(e),
                None => {
                    &&& r is Ok
                    &&& final(buffer).pos == old(buffer).pos + packet_wire(old(self)@).len()
                    &&& final(buffer).buf@ == put(
                        old(buffer).buf@,
                        old(buffer).pos as int,
                        packet_wire(old(self)@),
                    )
                },
            },
    {
        self.count();
        proof {
            let was = old(self)@;
            let now = self@;
            assert(packet_failure(now, old(buffer).pos as int) == packet_failure(
                was,
                old(buffer).pos as int,
            ));
            assert(front_wire(now) == front_wire(was));
            assert(tail_wire(now) == tail_wire(was));
            lemma_header_wire_len(now.header);
        }
        self.write_counted(buffer)
    }
}

} // verus!
