//! The 512 byte packet buffer with a cursor.

use vstd::prelude::*;
use vstd::string::*;
use crate::text::text_bytes;

verus! {

/// Why a buffer operation failed.
#[derive(Debug, Clone, Copy, PartialEq, Eq, Structural)]
pub enum DnsError {
    /// The cursor, or a range asked for, reaches past the 512 bytes.
    EndOfBuffer,
    /// A label of a name to write is longer than the limit.
    LabelTooLong,
    /// A name's compression pointers lead in a circle.
    PointerLoop,
}

/// A packet buffer: 512 bytes and the position of the next read or write.
pub struct BytePacketBuffer {
    pub buf: [u8; 512],
    pub pos: usize,
}

/// Where the cursor stands after `n` single-byte reads or writes were tried
/// from `pos`: each moves it by one until the end of the buffer stops it.
pub open spec fn advance(pos: int, n: int) -> int {
    if pos + n <= 512 {
        pos + n
    } else if pos <= 512 {
        512
    } else {
        pos
    }
}

/// The buffer contents after `bytes` were written from `pos` on, one by one,
/// as far as they fit.
pub open spec fn put(buf: Seq<u8>, pos: int, bytes: Seq<u8>) -> Seq<u8> {
    Seq::new(
        buf.len(),
        |i: int|
            if pos <= i < pos + bytes.len() {
                bytes[i - pos]
            } else {
                buf[i]
            },
    )
}

/// Writing one run behind another is writing the two as one.
pub proof fn lemma_put_append(buf: Seq<u8>, pos: int, first: Seq<u8>, second: Seq<u8>)
    ensures
        put(put(buf, pos, first), pos + first.len(), second) == put(buf, pos, first + second),
{
    assert(put(put(buf, pos, first), pos + first.len(), second) =~= put(buf, pos, first + second));
}

/// Writing over the middle of a run is writing the run with the new middle.
pub proof fn lemma_put_patch(
    buf: Seq<u8>,
    pos: int,
    front: Seq<u8>,
    was: Seq<u8>,
    now: Seq<u8>,
    back: Seq<u8>,
)
    requires
        was.len() == now.len(),
    ensures
        put(put(buf, pos, front + was + back), pos + front.len(), now) == put(
            buf,
            pos,
            front + now + back,
        ),
{
    assert(put(put(buf, pos, front + was + back), pos + front.len(), now) =~= put(
        buf,
        pos,
        front + now + back,
    ));
}

/// The number that two bytes spell, most significant first.
pub open spec fn be16(hi: u8, lo: u8) -> int {
    hi as int * 256 + lo as int
}

/// The number that four bytes spell, most significant first.
pub open spec fn be32(b0: u8, b1: u8, b2: u8, b3: u8) -> int {
    b0 as int * 16777216 + b1 as int * 65536 + b2 as int * 256 + b3 as int
}

/// The two bytes of a 16 bit number, most significant first.
pub open spec fn bytes16(v: u16) -> Seq<u8> {
    seq![(v / 256) as u8, (v % 256) as u8]
}

/// The four bytes of a 32 bit number, most significant first.
pub open spec fn bytes32(v: u32) -> Seq<u8> {
    seq![
        (v / 16777216) as u8,
        (v / 65536 % 256) as u8,
        (v / 256 % 256) as u8,
        (v % 256) as u8,
    ]
}

proof fn lemma_join16(hi: u8, lo: u8)
    ensures
        (((hi as u16) << 8) | (lo as u16)) == hi as u16 * 256 + lo as u16,
{
    assert((((hi as u16) << 8) | (lo as u16)) == hi as u16 * 256 + lo as u16) by (bit_vector);
}

proof fn lemma_join32(b0: u8, b1: u8, b2: u8, b3: u8)
    ensures
        (((b0 as u32) << 24) | ((b1 as u32) << 16) | ((b2 as u32) << 8) | ((b3 as u32) << 0))
            == b0 as u32 * 16777216 + b1 as u32 * 65536 + b2 as u32 * 256 + b3 as u32,
{
    assert((((b0 as u32) << 24) | ((b1 as u32) << 16) | ((b2 as u32) << 8) | ((b3 as u32) << 0))
        == b0 as u32 * 16777216 + b1 as u32 * 65536 + b2 as u32 * 256 + b3 as u32)
        by (bit_vector);
}

pub proof fn lemma_split16(v: u16)
    ensures
        (v >> 8) == v / 256,
        (v & 0xFF) == v % 256,
{
    assert((v >> 8) == v / 256) by (bit_vector);
    assert((v & 0xFF) == v % 256) by (bit_vector);
}

pub proof fn lemma_split32(v: u32)
    ensures
        ((v >> 24) & 0xFF) == v / 16777216,
        ((v >> 16) & 0xFF) == v / 65536 % 256,
        ((v >> 8) & 0xFF) == v / 256 % 256,
        ((v >> 0) & 0xFF) == v % 256,
{
    assert(((v >> 24) & 0xFF) == v / 16777216) by (bit_vector);
    assert(((v >> 16) & 0xFF) == v / 65536 % 256) by (bit_vector);
    assert(((v >> 8) & 0xFF) == v / 256 % 256) by (bit_vector);
    assert(((v >> 0) & 0xFF) == v % 256) by (bit_vector);
}


/// The text that `String::from_utf8_lossy` makes of a byte string.
pub uninterp spec fn utf8_lossy_text(bytes: Seq<u8>) -> Seq<char>;

/// The text that `str::to_lowercase` makes of a text.
pub uninterp spec fn lowercase_text(text: Seq<char>) -> Seq<char>;

/// `String::from_utf8_lossy`: the bytes as text, with the replacement
/// character wherever they are not UTF-8. The result is only given a name.
#[verifier::external_body]
fn from_utf8_lossy(bytes: &[u8]) -> (text: String)
    ensures
        text@ == utf8_lossy_text(bytes@),
{
    String::from_utf8_lossy(bytes).into_owned()
}

/// `str::to_lowercase`: the lower-case form of a text, by Unicode's rules.
/// The result is only given a name.
#[verifier::external_body]
fn to_lowercase(text: &str) -> (lower: String)
    ensures
        lower@ == lowercase_text(text@),
{
    text.to_lowercase()
}

/// Whether a length byte is the first byte of a compression pointer.
pub open spec fn is_pointer(len: u8) -> bool {
    len >= 0xC0
}

/// The offset that the two bytes of a compression pointer name.
pub open spec fn pointer_target(len: u8, low: u8) -> int {
    (len as int - 0xC0) * 256 + low as int
}

/// How one label reads as text: lossily decoded, then in lower case.
pub open spec fn label_text(label: Seq<u8>) -> Seq<char> {
    lowercase_text(utf8_lossy_text(label))
}

/// Labels joined by dots.
pub open spec fn join_labels(labels: Seq<Seq<u8>>) -> Seq<char>
    decreases labels.len(),
{
    if labels.len() == 0 {
        Seq::empty()
    } else if labels.len() == 1 {
        label_text(labels[0])
    } else {
        join_labels(labels.drop_last()) + seq!['.'] + label_text(labels.last())
    }
}

/// What following a name through the buffer finds.
pub struct NameWalk {
    /// The labels met, in order, up to the end of the name or the failure.
    pub labels: Seq<Seq<u8>>,
    /// Where the first compression pointer stood, if one was followed.
    pub pointer_at: Option<int>,
    /// The position after the name's closing zero byte.
    pub end: int,
    /// Why the walk failed, if it did.
    pub error: Option<DnsError>,
}

/// Follows the name that starts at `pos`, label by label and pointer by
/// pointer, for at most `fuel` steps.
pub open spec fn walk_name(buf: Seq<u8>, pos: int, fuel: nat) -> NameWalk
    decreases fuel,
{
    if fuel == 0 {
        NameWalk {
            labels: Seq::empty(),
            pointer_at: None,
            end: pos,
            error: Some(DnsError::PointerLoop),
        }
    } else if pos >= 512 {
        NameWalk {
            labels: Seq::empty(),
            pointer_at: None,
            end: pos,
            error: Some(DnsError::EndOfBuffer),
        }
    } else {
        let len = buf[pos];
        if is_pointer(len) {
            if pos + 1 >= 512 {
                NameWalk {
                    labels: Seq::empty(),
                    pointer_at: Some(pos),
                    end: pos,
                    error: Some(DnsError::EndOfBuffer),
                }
            } else {
                let rest = walk_name(buf, pointer_target(len, buf[pos + 1]), (fuel - 1) as nat);
                NameWalk { pointer_at: Some(pos), ..rest }
            }
        } else if len == 0 {
            NameWalk { labels: Seq::empty(), pointer_at: None, end: pos + 1, error: None }
        } else if pos + 1 + len >= 512 {
            NameWalk {
                labels: Seq::empty(),
                pointer_at: None,
                end: pos,
                error: Some(DnsError::EndOfBuffer),
            }
        } else {
            let rest = walk_name(buf, pos + 1 + len, (fuel - 1) as nat);
            NameWalk {
                labels: seq![buf.subrange(pos + 1, pos + 1 + len)] + rest.labels,
                ..rest
            }
        }
    }
}

/// The name that stands at `pos`: a walk of at most 512 steps, which is as
/// many as a name without a circle can take in 512 bytes.
pub open spec fn name_at(buf: Seq<u8>, pos: int) -> NameWalk {
    walk_name(buf, pos, 512)
}

/// Where the cursor stands after a name was read from `pos`.
pub open spec fn name_cursor(walk: NameWalk, pos: int) -> int {
    match walk.pointer_at {
        Some(p) => p + 2,
        None => if walk.error is None {
            walk.end
        } else {
            pos
        },
    }
}

/// Whether `wire` can be written from `pos` on: it is empty, or ends inside
/// the buffer.
pub open spec fn wire_fits(pos: int, wire: Seq<u8>) -> bool {
    wire.len() == 0 || pos + wire.len() <= 512
}

/// The longest label that `write_qname` accepts.
pub const MAX_LABEL: usize = 0x34;

/// The length of the first label of a dotted name: the index of its first
/// dot, or its whole length.
pub open spec fn first_label_len(name: Seq<u8>) -> int
    decreases name.len(),
{
    if name.len() == 0 || name[0] == 0x2E {
        0
    } else {
        1 + first_label_len(name.skip(1))
    }
}

/// Whether every label of a dotted name is short enough to be written.
pub open spec fn labels_fit(name: Seq<u8>) -> bool
    decreases name.len(),
{
    let n = first_label_len(name);
    n <= 0x34 && (0 <= n < name.len() ==> labels_fit(name.skip(n + 1)))
}

/// The wire form of a dotted name: each label behind its length, then a zero
/// byte. Stops at the first label that is too long.
pub open spec fn name_wire(name: Seq<u8>) -> Seq<u8>
    decreases name.len(),
{
    let n = first_label_len(name);
    if n > 0x34 {
        Seq::empty()
    } else if 0 <= n < name.len() {
        seq![n as u8] + name.take(n) + name_wire(name.skip(n + 1))
    } else {
        seq![n as u8] + name + seq![0u8]
    }
}

/// A run without a dot that ends at a dot, or at the end, is the first label.
proof fn lemma_first_label_is(name: Seq<u8>, n: int)
    requires
        0 <= n <= name.len(),
        forall|i: int| 0 <= i < n ==> name[i] != 0x2E,
        n < name.len() ==> name[n] == 0x2E,
    ensures
        first_label_len(name) == n,
    decreases name.len(),
{
    if n == 0 {
    } else {
        assert forall|i: int| 0 <= i < n - 1 implies name.skip(1)[i] != 0x2E by {
            assert(name.skip(1)[i] == name[i + 1]);
        }
        lemma_first_label_is(name.skip(1), n - 1);
    }
}

impl BytePacketBuffer {
    /// An all-zero buffer with the cursor at the start.
    pub fn new() -> (r: BytePacketBuffer)
        ensures
            r.pos == 0,
            r.buf@ == Seq::new(512, |i: int| 0u8),
    {
        let r = BytePacketBuffer { buf: [0; 512], pos: 0 };
        assert(r.buf@ =~= Seq::new(512, |i: int| 0u8));
        r
    }

    /// The cursor.
    pub fn pos(&self) -> (r: usize)
        ensures
            r == self.pos,
    {
        self.pos
    }

    /// Moves the cursor forward by `steps`, wherever that leads.
    pub fn step(&mut self, steps: usize) -> (r: Result<(), DnsError>)
        requires
            old(self).pos + steps <= usize::MAX,
        ensures
            r is Ok,
            final(self).pos == old(self).pos + steps,
            final(self).buf == old(self).buf,
    {
        self.pos = self.pos + steps;
        Ok(())
    }

    /// Puts the cursor at `pos`, wherever that is.
    pub fn seek(&mut self, pos: usize) -> (r: Result<(), DnsError>)
        ensures
            r is Ok,
            final(self).pos == pos,
            final(self).buf == old(self).buf,
    {
        self.pos = pos;
        Ok(())
    }

    /// Reads the byte under the cursor and moves past it.
    pub fn read(&mut self) -> (r: Result<u8, DnsError>)
        ensures
            final(self).buf == old(self).buf,
            final(self).pos == advance(old(self).pos as int, 1),
            old(self).pos < 512 ==> r == Ok::<u8, DnsError>(old(self).buf@[old(self).pos as int]),
            old(self).pos >= 512 ==> r == Err::<u8, DnsError>(DnsError::EndOfBuffer),
    {
        if self.pos >= 512 {
            return Err(DnsError::EndOfBuffer);
        }
        let res = self.buf[self.pos];
        self.pos = self.pos + 1;
        Ok(res)
    }

    /// The byte at `pos`; the cursor stays.
    pub fn get(&self, pos: usize) -> (r: Result<u8, DnsError>)
        ensures
            pos < 512 ==> r == Ok::<u8, DnsError>(self.buf@[pos as int]),
            pos >= 512 ==> r == Err::<u8, DnsError>(DnsError::EndOfBuffer),
    {
        if pos >= 512 {
            return Err(DnsError::EndOfBuffer);
        }
        Ok(self.buf[pos])
    }

    /// The `len` bytes from `start` on. The range must end before the last
    /// byte of the buffer.
    pub fn get_range(&self, start: usize, len: usize) -> (r: Result<&[u8], DnsError>)
        ensures
            start + len < 512 ==> r is Ok && r->Ok_0@ == self.buf@.subrange(
                start as int,
                start + len,
            ),
            start + len >= 512 ==> r == Err::<&[u8], DnsError>(DnsError::EndOfBuffer),
    {
        if start >= 512 || len >= 512 - start {
            return Err(DnsError::EndOfBuffer);
        }
        let all = self.buf.as_slice();
        Ok(vstd::slice::slice_subrange(all, start, start + len))
    }

    /// Reads two bytes as a number, most significant byte first.
    pub fn read_u16(&mut self) -> (r: Result<u16, DnsError>)
        ensures
            final(self).buf == old(self).buf,
            final(self).pos == advance(old(self).pos as int, 2),
            old(self).pos + 2 <= 512 ==> r is Ok && r->Ok_0 == be16(
                old(self).buf@[old(self).pos as int],
                old(self).buf@[old(self).pos + 1],
            ),
            old(self).pos + 2 > 512 ==> r == Err::<u16, DnsError>(DnsError::EndOfBuffer),
    {
        let hi = self.read()?;
        let lo = self.read()?;
        proof {
            lemma_join16(hi, lo);
        }
        Ok(((hi as u16) << 8) | (lo as u16))
    }

    /// Reads four bytes as a number, most significant byte first.
    pub fn read_u32(&mut self) -> (r: Result<u32, DnsError>)
        ensures
            final(self).buf == old(self).buf,
            final(self).pos == advance(old(self).pos as int, 4),
            old(self).pos + 4 <= 512 ==> r is Ok && r->Ok_0 == be32(
                old(self).buf@[old(self).pos as int],
                old(self).buf@[old(self).pos + 1],
                old(self).buf@[old(self).pos + 2],
                old(self).buf@[old(self).pos + 3],
            ),
            old(self).pos + 4 > 512 ==> r == Err::<u32, DnsError>(DnsError::EndOfBuffer),
    {
        let b0 = self.read()?;
        let b1 = self.read()?;
        let b2 = self.read()?;
        let b3 = self.read()?;
        proof {
            lemma_join32(b0, b1, b2, b3);
        }
        Ok(((b0 as u32) << 24) | ((b1 as u32) << 16) | ((b2 as u32) << 8) | ((b3 as u32) << 0))
    }

    /// Writes one byte under the cursor and moves past it.
    pub fn write(&mut self, val: u8) -> (r: Result<(), DnsError>)
        ensures
            final(self).buf@ == put(old(self).buf@, old(self).pos as int, seq![val]),
            final(self).pos == advance(old(self).pos as int, 1),
            r == if old(self).pos < 512 {
                Ok::<(), DnsError>(())
            } else {
                Err::<(), DnsError>(DnsError::EndOfBuffer)
            },
    {
        if self.pos >= 512 {
            assert(self.buf@ =~= put(old(self).buf@, old(self).pos as int, seq![val]));
            return Err(DnsError::EndOfBuffer);
        }
        self.buf[self.pos] = val;
        self.pos = self.pos + 1;
        assert(self.buf@ =~= put(old(self).buf@, old(self).pos as int, seq![val]));
        Ok(())
    }

    /// Writes one byte.
    pub fn write_u8(&mut self, val: u8) -> (r: Result<(), DnsError>)
        ensures
            final(self).buf@ == put(old(self).buf@, old(self).pos as int, seq![val]),
            final(self).pos == advance(old(self).pos as int, 1),
            r == if old(self).pos < 512 {
                Ok::<(), DnsError>(())
            } else {
                Err::<(), DnsError>(DnsError::EndOfBuffer)
            },
    {
        self.write(val)?;
        Ok(())
    }

    /// Writes a 16 bit number, most significant byte first.
    pub fn write_u16(&mut self, val: u16) -> (r: Result<(), DnsError>)
        ensures
            final(self).buf@ == put(old(self).buf@, old(self).pos as int, bytes16(val)),
            final(self).pos == advance(old(self).pos as int, 2),
            r == if old(self).pos + 2 <= 512 {
                Ok::<(), DnsError>(())
            } else {
                Err::<(), DnsError>(DnsError::EndOfBuffer)
            },
    {
        proof {
            lemma_split16(val);
        }
        let r1 = self.write((val >> 8) as u8);
        if r1.is_err() {
            assert(self.buf@ =~= put(old(self).buf@, old(self).pos as int, bytes16(val)));
            return r1;
        }
        let r2 = self.write((val & 0xFF) as u8);
        assert(self.buf@ =~= put(old(self).buf@, old(self).pos as int, bytes16(val)));
        r2
    }

    /// Writes a 32 bit number, most significant byte first.
    pub fn write_u32(&mut self, val: u32) -> (r: Result<(), DnsError>)
        ensures
            final(self).buf@ == put(old(self).buf@, old(self).pos as int, bytes32(val)),
            final(self).pos == advance(old(self).pos as int, 4),
            r == if old(self).pos + 4 <= 512 {
                Ok::<(), DnsError>(())
            } else {
                Err::<(), DnsError>(DnsError::EndOfBuffer)
            },
    {
        proof {
            lemma_split32(val);
        }
        let ghost want = put(old(self).buf@, old(self).pos as int, bytes32(val));
        let r1 = self.write(((val >> 24) & 0xFF) as u8);
        if r1.is_err() {
            assert(self.buf@ =~= want);
            return r1;
        }
        let r2 = self.write(((val >> 16) & 0xFF) as u8);
        if r2.is_err() {
            assert(self.buf@ =~= want);
            return r2;
        }
        let r3 = self.write(((val >> 8) & 0xFF) as u8);
        if r3.is_err() {
            assert(self.buf@ =~= want);
            return r3;
        }
        let r4 = self.write(((val >> 0) & 0xFF) as u8);
        assert(self.buf@ =~= want);
        r4
    }

    /// Overwrites the byte at `pos`; the cursor stays.
    pub fn set(&mut self, pos: usize, val: u8) -> (r: Result<(), DnsError>)
        requires
            pos < 512,
        ensures
            r is Ok,
            final(self).pos == old(self).pos,
            final(self).buf@ == old(self).buf@.update(pos as int, val),
    {
        self.buf[pos] = val;
        Ok(())
    }

    /// Overwrites the two bytes at `pos` with a 16 bit number; the cursor
    /// stays.
    pub fn set_u16(&mut self, pos: usize, val: u16) -> (r: Result<(), DnsError>)
        requires
            pos + 1 < 512,
        ensures
            r is Ok,
            final(self).pos == old(self).pos,
            final(self).buf@ == put(old(self).buf@, pos as int, bytes16(val)),
    {
        proof {
            lemma_split16(val);
        }
        self.set(pos, (val >> 8) as u8)?;
        self.set(pos + 1, (val & 0xFF) as u8)?;
        assert(self.buf@ =~= put(old(self).buf@, pos as int, bytes16(val)));
        Ok(())
    }
    /// Writes a run of bytes, one by one, as far as they fit.
    pub fn write_all(&mut self, bytes: &[u8]) -> (r: Result<(), DnsError>)
        ensures
            final(self).buf@ == put(old(self).buf@, old(self).pos as int, bytes@),
            final(self).pos == advance(old(self).pos as int, bytes@.len() as int),
            r == if wire_fits(old(self).pos as int, bytes@) {
                Ok::<(), DnsError>(())
            } else {
                Err::<(), DnsError>(DnsError::EndOfBuffer)
            },
    {
        let mut i: usize = 0;
        assert(self.buf@ =~= put(old(self).buf@, old(self).pos as int, bytes@.take(0)));
        while i < bytes.len()
            invariant
                i <= bytes@.len(),
                i > 0 ==> old(self).pos + i <= 512,
                self.pos == old(self).pos + i,
                self.buf@ == put(old(self).buf@, old(self).pos as int, bytes@.take(i as int)),
            decreases bytes@.len() - i,
        {
            let r = self.write(bytes[i]);
            if r.is_err() {
                assert(self.buf@ =~= put(old(self).buf@, old(self).pos as int, bytes@));
                return r;
            }
            i = i + 1;
            assert(self.buf@ =~= put(old(self).buf@, old(self).pos as int, bytes@.take(i as int)));
        }
        assert(bytes@.take(i as int) =~= bytes@);
        Ok(())
    }

    /// Reads the name under the cursor and appends it, dotted and in lower
    /// case, to `outstr`. Compression pointers are followed; the cursor ends
    /// behind the name, or behind the first pointer where there was one. A
    /// name whose pointers never end is refused.
    pub fn read_qname(&mut self, outstr: &mut String) -> (r: Result<(), DnsError>)
        ensures
            final(self).buf == old(self).buf,
            final(self).pos == name_cursor(
                name_at(old(self).buf@, old(self).pos as int),
                old(self).pos as int,
            ),
            final(outstr)@ == old(outstr)@ + join_labels(
                name_at(old(self).buf@, old(self).pos as int).labels,
            ),
            r == match name_at(old(self).buf@, old(self).pos as int).error {
                Some(e) => Err::<(), DnsError>(e),
                None => Ok::<(), DnsError>(()),
            },
    {
        let mut pos: usize = self.pos;
        let mut jumped = false;
        let mut first = true;
        let mut fuel: usize = 512;
        let ghost whole = name_at(old(self).buf@, old(self).pos as int);
        let ghost done: Seq<Seq<u8>> = Seq::empty();
        let ghost pointer_at: Option<int> = None;
        loop
            invariant
                fuel <= 512,
                self.buf == old(self).buf,
                first <==> done.len() == 0,
                jumped <==> pointer_at is Some,
                jumped ==> self.pos == pointer_at->Some_0 + 2,
                !jumped ==> self.pos == old(self).pos,
                outstr@ == old(outstr)@ + join_labels(done),
                whole == name_at(old(self).buf@, old(self).pos as int),
                whole.labels == done + walk_name(self.buf@, pos as int, fuel as nat).labels,
                whole.error == walk_name(self.buf@, pos as int, fuel as nat).error,
                whole.end == walk_name(self.buf@, pos as int, fuel as nat).end,
                whole.pointer_at == if jumped {
                    pointer_at
                } else {
                    walk_name(self.buf@, pos as int, fuel as nat).pointer_at
                },
                !jumped && fuel < 512 ==> pos > 0,
                !jumped ==> pos >= old(self).pos,
            decreases fuel,
        {
            let ghost here = walk_name(self.buf@, pos as int, fuel as nat);
            if fuel == 0 {
                assert(whole.labels =~= done);
                return Err(DnsError::PointerLoop);
            }
            if pos >= 512 {
                assert(whole.labels =~= done);
                return Err(DnsError::EndOfBuffer);
            }
            let len = self.buf[pos];
            if len >= 0xC0 {
                if !jumped {
                    self.pos = pos + 2;
                    proof {
                        pointer_at = Some(pos as int);
                    }
                    jumped = true;
                }
                if pos + 1 >= 512 {
                    assert(whole.labels =~= done);
                    return Err(DnsError::EndOfBuffer);
                }
                let low = self.buf[pos + 1];
                pos = (len as usize - 0xC0) * 256 + low as usize;
                fuel = fuel - 1;
                continue ;
            }
            if len == 0 {
                assert(whole.labels =~= done);
                if !jumped {
                    self.pos = pos + 1;
                }
                return Ok(());
            }
            if pos + 1 + len as usize >= 512 {
                assert(whole.labels =~= done);
                return Err(DnsError::EndOfBuffer);
            }
            let all = self.buf.as_slice();
            let label = vstd::slice::slice_subrange(all, pos + 1, pos + 1 + len as usize);
            let text = from_utf8_lossy(label);
            let lower = to_lowercase(text.as_str());
            if !first {
                outstr.append(".");
            }
            outstr.append(lower.as_str());
            proof {
                reveal_strlit(".");
                let rest = walk_name(self.buf@, pos + 1 + len, (fuel - 1) as nat);
                let grown = done.push(label@);
                assert(grown.drop_last() =~= done);
                assert(grown.last() == label@);
                assert("."@ =~= seq!['.']);
                assert(outstr@ =~= old(outstr)@ + join_labels(grown));
                assert(whole.labels =~= grown + rest.labels);
                done = grown;
            }
            first = false;
            pos = pos + 1 + len as usize;
            fuel = fuel - 1;
        }
    }

    /// Writes a dotted name in wire form: each label behind its length byte,
    /// then a zero byte. A label longer than 0x34 bytes is refused; what
    /// stood before it has then been written.
    pub fn write_qname(&mut self, qname: &str) -> (r: Result<(), DnsError>)
        ensures
            !wire_fits(old(self).pos as int, name_wire(text_bytes(qname@))) ==> r == Err::<
                (),
                DnsError,
            >(DnsError::EndOfBuffer),
            wire_fits(old(self).pos as int, name_wire(text_bytes(qname@))) ==> {
                &&& final(self).buf@ == put(
                    old(self).buf@,
                    old(self).pos as int,
                    name_wire(text_bytes(qname@)),
                )
                &&& final(self).pos == old(self).pos + name_wire(text_bytes(qname@)).len()
                &&& r == if labels_fit(text_bytes(qname@)) {
                    Ok::<(), DnsError>(())
                } else {
                    Err::<(), DnsError>(DnsError::LabelTooLong)
                }
            },
    {
        let bytes = qname.as_bytes();
        let ghost name = bytes@;
        let ghost written: Seq<u8> = Seq::empty();
        let mut start: usize = 0;
        assert(name.skip(0) =~= name);
        loop
            invariant
                name == bytes@,
                name == text_bytes(qname@),
                start <= name.len(),
                name_wire(name) == written + name_wire(name.skip(start as int)),
                labels_fit(name) == labels_fit(name.skip(start as int)),
                wire_fits(old(self).pos as int, written),
                self.pos == old(self).pos + written.len(),
                self.buf@ == put(old(self).buf@, old(self).pos as int, written),
            decreases name.len() - start,
        {
            let ghost rest = name.skip(start as int);
            let mut end: usize = start;
            while end < bytes.len() && bytes[end] != 0x2E
                invariant
                    name == bytes@,
                    start <= end <= name.len(),
                    forall|i: int| start <= i < end ==> name[i] != 0x2E,
                decreases name.len() - end,
            {
                end = end + 1;
            }
            let len: usize = end - start;
            proof {
                assert forall|i: int| 0 <= i < len implies rest[i] != 0x2E by {
                    assert(rest[i] == name[start + i]);
                }
                lemma_first_label_is(rest, len as int);
            }
            if len > MAX_LABEL {
                assert(name_wire(name) =~= written);
                return Err(DnsError::LabelTooLong);
            }
            let ghost label = rest.take(len as int);
            let ghost tail: Seq<u8> = if end < name.len() {
                name_wire(rest.skip(len + 1))
            } else {
                seq![0u8]
            };
            proof {
                assert(name_wire(rest) =~= seq![len as u8] + label + tail);
                assert(name_wire(name) =~= written + seq![len as u8] + label + tail);
            }
            self.write_u8(len as u8)?;
            let piece = vstd::slice::slice_subrange(bytes, start, end);
            assert(piece@ =~= label);
            self.write_all(piece)?;
            proof {
                assert(piece@ =~= label);
                let grown = written + seq![len as u8] + label;
                assert(self.buf@ =~= put(old(self).buf@, old(self).pos as int, grown));
                written = grown;
            }
            if end == bytes.len() {
                self.write_u8(0)?;
                proof {
                    assert(self.buf@ =~= put(
                        old(self).buf@,
                        old(self).pos as int,
                        written + seq![0u8],
                    ));
                    assert(name_wire(name) =~= written + seq![0u8]);
                }
                return Ok(());
            }
            proof {
                assert(rest.skip(len + 1) =~= name.skip(end + 1));
            }
            start = end + 1;
        }
    }
}

} // verus!
