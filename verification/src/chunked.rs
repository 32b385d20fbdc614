//! Transfer-encoding chunked: the decoder that reads a chunked body from a
//! socket, and the encoder that writes one.

use vstd::prelude::*;
use crate::conn::{read_full, write_all, Socket};
use crate::error::{LolbError, LolbResult, ParseError};

verus! {

/// The most that the decoder hands out at once. A larger chunk comes in
/// pieces.
pub const MAX_READ_SIZE: usize = 1024 * 1024;

/// Whether a byte is a hexadecimal digit.
pub open spec fn is_hex(b: u8) -> bool {
    (0x30 <= b <= 0x39) || (0x61 <= b <= 0x66) || (0x41 <= b <= 0x46)
}

/// The number that a hexadecimal digit stands for.
pub open spec fn hex_digit_value(b: u8) -> nat {
    if 0x30 <= b <= 0x39 {
        (b - 0x30) as nat
    } else if 0x61 <= b <= 0x66 {
        (b - 0x61 + 10) as nat
    } else {
        (b - 0x41 + 10) as nat
    }
}

/// The number that a string of hexadecimal digits spells.
pub open spec fn hex_value(digits: Seq<u8>) -> nat
    decreases digits.len(),
{
    if digits.len() == 0 {
        0
    } else {
        hex_value(digits.drop_last()) * 16 + hex_digit_value(digits.last())
    }
}

/// How many hexadecimal digits open a byte string.
pub open spec fn hex_len(s: Seq<u8>) -> nat
    decreases s.len(),
{
    if s.len() > 0 && is_hex(s[0]) {
        1 + hex_len(s.skip(1))
    } else {
        0
    }
}

/// The length of the first line of a byte string, its line feed included;
/// `None` where there is no line feed.
pub open spec fn line_len(s: Seq<u8>) -> Option<nat>
    decreases s.len(),
{
    if s.len() == 0 {
        None
    } else if s[0] == 0x0A {
        Some(1)
    } else {
        match line_len(s.skip(1)) {
            Some(n) => Some(n + 1),
            None => None,
        }
    }
}

/// What the line that opens a chunk says.
pub enum SizeLine {
    /// The stream ends before the line does.
    Short,
    /// The line does not open with a hexadecimal number that fits.
    Bad,
    /// The size of the chunk, and the length of the line.
    Size(nat, nat),
}

/// Reads the line that opens a chunk: hexadecimal digits, one byte that is
/// none, and whatever follows up to and including the next line feed.
pub open spec fn size_line(s: Seq<u8>) -> SizeLine {
    let k = hex_len(s);
    if k >= s.len() {
        SizeLine::Short
    } else {
        match line_len(s.skip(k as int + 1)) {
            None => SizeLine::Short,
            Some(m) => if k == 0 || hex_value(s.take(k as int)) > usize::MAX {
                SizeLine::Bad
            } else {
                SizeLine::Size(hex_value(s.take(k as int)), k + 1 + m)
            },
        }
    }
}

/// What one call of the decoder makes of the stream.
pub enum ChunkStep {
    /// The stream ends too early.
    Short,
    /// The size of a chunk cannot be read.
    Bad,
    /// The body has ended; the rest of the stream follows.
    End(Seq<u8>),
    /// A piece of the body, the rest of the stream, and how much of the
    /// current chunk is still to come.
    Data(Seq<u8>, Seq<u8>, nat),
}

/// The smaller of two numbers.
pub open spec fn least(a: nat, b: nat) -> nat {
    if a <= b {
        a
    } else {
        b
    }
}

/// Takes the next piece of a chunk of which `left` bytes are to come: all
/// of them, or the most that is handed out at once. After the last piece of
/// a chunk the line end that closes it is passed over.
pub open spec fn payload_step(s: Seq<u8>, left: nat) -> ChunkStep {
    let n = least(left, MAX_READ_SIZE as nat);
    if s.len() < n {
        ChunkStep::Short
    } else if n < left {
        ChunkStep::Data(s.take(n as int), s.skip(n as int), (left - n) as nat)
    } else {
        match line_len(s.skip(n as int)) {
            None => ChunkStep::Short,
            Some(m) => ChunkStep::Data(s.take(n as int), s.skip(n as int + m as int), 0),
        }
    }
}

/// What the decoder does next, with `left` bytes of the current chunk still
/// to come: it goes on with the chunk, or reads the line that opens the next
/// one, where size zero ends the body; the line that closes the body is
/// then passed over.
pub open spec fn chunk_step(s: Seq<u8>, left: nat) -> ChunkStep {
    if left > 0 {
        payload_step(s, left)
    } else {
        match size_line(s) {
            SizeLine::Short => ChunkStep::Short,
            SizeLine::Bad => ChunkStep::Bad,
            SizeLine::Size(size, used) => if size == 0 {
                match line_len(s.skip(used as int)) {
                    None => ChunkStep::Short,
                    Some(m) => ChunkStep::End(s.skip(used as int + m as int)),
                }
            } else {
                payload_step(s.skip(used as int), size)
            },
        }
    }
}

/// A line that opens a chunk is no longer than the bytes it is found in.
proof fn lemma_size_line_len(s: Seq<u8>)
    ensures
        size_line(s) matches SizeLine::Size(size, used) ==> used <= s.len(),
{
    let k = hex_len(s);
    if k < s.len() {
        lemma_line_len(s.skip(k as int + 1));
    }
}

proof fn lemma_hex_len_at(s: Seq<u8>, i: int)
    requires
        0 <= i <= s.len(),
        forall|k: int| 0 <= k < i ==> is_hex(#[trigger] s[k]),
    ensures
        hex_len(s) == i + hex_len(s.skip(i)),
    decreases i,
{
    if i == 0 {
        assert(s.skip(0) =~= s);
    } else {
        assert forall|k: int| 0 <= k < i - 1 implies is_hex(#[trigger] s.skip(1)[k]) by {
            assert(s.skip(1)[k] == s[k + 1]);
        }
        lemma_hex_len_at(s.skip(1), i - 1);
        assert(s.skip(1).skip(i - 1) =~= s.skip(i));
    }
}

proof fn lemma_line_len_at(s: Seq<u8>, i: int)
    requires
        0 <= i <= s.len(),
        forall|k: int| 0 <= k < i ==> #[trigger] s[k] != 0x0A,
    ensures
        line_len(s) == match line_len(s.skip(i)) {
            Some(n) => Some((n + i) as nat),
            None => None,
        },
    decreases i,
{
    if i == 0 {
        assert(s.skip(0) =~= s);
    } else {
        assert forall|k: int| 0 <= k < i - 1 implies #[trigger] s.skip(1)[k] != 0x0A by {
            assert(s.skip(1)[k] == s[k + 1]);
        }
        lemma_line_len_at(s.skip(1), i - 1);
        assert(s.skip(1).skip(i - 1) =~= s.skip(i));
    }
}

/// A line is no longer than the bytes it is found in, ends with its first
/// line feed, and holds no other.
pub proof fn lemma_line_len(s: Seq<u8>)
    ensures
        line_len(s) matches Some(m) ==> 1 <= m <= s.len() && s[m - 1] == 0x0A && forall|k: int|
            0 <= k < m - 1 ==> #[trigger] s[k] != 0x0A,
        line_len(s) is None ==> forall|k: int| 0 <= k < s.len() ==> #[trigger] s[k] != 0x0A,
    decreases s.len(),
{
    if s.len() == 0 {
    } else if s[0] == 0x0A {
    } else {
        lemma_line_len(s.skip(1));
        match line_len(s.skip(1)) {
            Some(n) => {
                assert(s.skip(1)[n - 1] == s[n as int]);
                assert forall|k: int| 0 <= k < n implies #[trigger] s[k] != 0x0A by {
                    if k > 0 {
                        assert(s.skip(1)[k - 1] == s[k]);
                    }
                }
            },
            None => {
                assert forall|k: int| 0 <= k < s.len() implies #[trigger] s[k] != 0x0A by {
                    if k > 0 {
                        assert(s.skip(1)[k - 1] == s[k]);
                    }
                }
            },
        }
    }
}

/// Decodes a chunked body read from a socket.
pub struct ChunkedDecoder<S: Socket> {
    socket: S,
    amount_left: usize,
}

impl<S: Socket> ChunkedDecoder<S> {
    /// The socket that the body is read from.
    pub closed spec fn socket(&self) -> S {
        self.socket
    }

    /// How many bytes of the current chunk are still to come.
    pub closed spec fn amount_left(&self) -> nat {
        self.amount_left as nat
    }

    pub fn new(socket: S) -> (r: Self)
        ensures
            r.socket() == socket,
            r.amount_left() == 0,
    {
        ChunkedDecoder { socket, amount_left: 0 }
    }

    /// A decoder in the middle of a body: `amount_left` bytes of the
    /// current chunk are still to come.
    pub fn resume(socket: S, amount_left: usize) -> (r: Self)
        ensures
            r.socket() == socket,
            r.amount_left() == amount_left,
    {
        ChunkedDecoder { socket, amount_left }
    }

    /// How many bytes of the current chunk are still to come.
    pub fn left(&self) -> (r: usize)
        ensures
            r == self.amount_left(),
    {
        self.amount_left
    }

    /// Gives up the decoder for its socket.
    pub fn into_inner(self) -> (r: S)
        ensures
            r == self.socket(),
    {
        self.socket
    }

    /// Reads one byte; `None` at the end of the stream.
    fn read_byte(&mut self) -> (r: LolbResult<Option<u8>>)
        ensures
            final(self).amount_left() == old(self).amount_left(),
            final(self).socket().outgoing() == old(self).socket().outgoing(),
            final(self).socket().reliable() == old(self).socket().reliable(),
            match r {
                Ok(Some(b)) => {
                    &&& old(self).socket().incoming().len() > 0
                    &&& b == old(self).socket().incoming()[0]
                    &&& final(self).socket().incoming() == old(self).socket().incoming().skip(1)
                },
                Ok(None) => {
                    &&& old(self).socket().incoming().len() == 0
                    &&& final(self).socket().incoming() == old(self).socket().incoming()
                },
                Err(e) => e is Io && !old(self).socket().reliable(),
            },
    {
        let mut one: Vec<u8> = vec![0u8; 1];
        match self.socket.read(one.as_mut_slice()) {
            Ok(n) => {
                if n == 0 {
                    assert(self.socket.incoming() =~= old(self).socket.incoming());
                    Ok(None)
                } else {
                    Ok(Some(one[0]))
                }
            },
            Err(e) => Err(LolbError::Io(e)),
        }
    }

    /// Reads on until a line feed has been read.
    fn skip_until_lf(&mut self) -> (r: LolbResult<()>)
        ensures
            final(self).amount_left() == old(self).amount_left(),
            final(self).socket().outgoing() == old(self).socket().outgoing(),
            final(self).socket().reliable() == old(self).socket().reliable(),
            match r {
                Ok(_) => {
                    &&& line_len(old(self).socket().incoming()) matches Some(m)
                    &&& final(self).socket().incoming() == old(self).socket().incoming().skip(
                        m as int,
                    )
                },
                Err(LolbError::Http11Parse(ParseError::ShortRead)) => line_len(
                    old(self).socket().incoming(),
                ) is None,
                Err(e) => e is Io && !old(self).socket().reliable(),
            },
    {
        let ghost s = self.socket.incoming();
        let ghost mut i: int = 0;
        assert(s.skip(0) =~= s);
        loop
            invariant
                s == old(self).socket().incoming(),
                0 <= i <= s.len(),
                forall|k: int| 0 <= k < i ==> #[trigger] s[k] != 0x0A,
                self.socket.incoming() == s.skip(i),
                self.socket.outgoing() == old(self).socket().outgoing(),
                self.socket.reliable() == old(self).socket().reliable(),
                self.amount_left == old(self).amount_left,
            decreases s.len() - i,
        {
            proof {
                lemma_line_len_at(s, i);
            }
            match self.read_byte()? {
                None => {
                    return Err(LolbError::Http11Parse(ParseError::ShortRead));
                },
                Some(b) => {
                    proof {
                        assert(s.skip(i).skip(1) =~= s.skip(i + 1));
                        assert(s.skip(i)[0] == s[i]);
                    }
                    if b == 0x0A {
                        return Ok(());
                    }
                    proof {
                        i = i + 1;
                    }
                },
            }
        }
    }

    /// Reads the line that opens a chunk and says the chunk's size.
    fn read_chunk_size(&mut self) -> (r: LolbResult<usize>)
        ensures
            final(self).amount_left() == old(self).amount_left(),
            final(self).socket().outgoing() == old(self).socket().outgoing(),
            final(self).socket().reliable() == old(self).socket().reliable(),
            match r {
                Ok(size) => {
                    &&& size_line(old(self).socket().incoming()) matches SizeLine::Size(n, used)
                    &&& n == size
                    &&& final(self).socket().incoming() == old(self).socket().incoming().skip(
                        used as int,
                    )
                },
                Err(LolbError::Http11Parse(ParseError::ShortRead)) => size_line(
                    old(self).socket().incoming(),
                ) is Short,
                Err(LolbError::Http11Parse(ParseError::ChunkSize)) => size_line(
                    old(self).socket().incoming(),
                ) is Bad,
                Err(e) => e is Io && !old(self).socket().reliable(),
            },
    {
        let ghost s = self.socket.incoming();
        let ghost mut i: int = 0;
        let mut digits: usize = 0;
        let mut value: usize = 0;
        let mut fits: bool = true;
        assert(s.skip(0) =~= s);
        assert(s.take(0) =~= Seq::<u8>::empty());
        loop
            invariant_except_break
                self.socket.incoming() == s.skip(i),
            invariant
                s == old(self).socket().incoming(),
                0 <= i <= s.len(),
                forall|k: int| 0 <= k < i ==> is_hex(#[trigger] s[k]),
                self.socket.outgoing() == old(self).socket().outgoing(),
                self.socket.reliable() == old(self).socket().reliable(),
                self.amount_left == old(self).amount_left,
                digits == 0 <==> i == 0,
                fits ==> value == hex_value(s.take(i)),
                !fits ==> hex_value(s.take(i)) > usize::MAX,
            ensures
                i < s.len(),
                !is_hex(s[i]),
                self.socket.incoming() == s.skip(i + 1),
            decreases s.len() - i,
        {
            proof {
                lemma_hex_len_at(s, i);
            }
            let b = match self.read_byte()? {
                None => {
                    return Err(LolbError::Http11Parse(ParseError::ShortRead));
                },
                Some(b) => b,
            };
            proof {
                assert(s.skip(i).skip(1) =~= s.skip(i + 1));
                assert(s.skip(i)[0] == s[i]);
            }
            let digit: usize = if 0x30 <= b && b <= 0x39 {
                (b - 0x30) as usize
            } else if 0x61 <= b && b <= 0x66 {
                (b - 0x61 + 10) as usize
            } else if 0x41 <= b && b <= 0x46 {
                (b - 0x41 + 10) as usize
            } else {
                break ;
            };
            proof {
                assert(s.take(i + 1).drop_last() =~= s.take(i));
                assert(s.take(i + 1).last() == b);
            }
            if fits && value <= (usize::MAX - digit) / 16 {
                value = value * 16 + digit;
            } else {
                fits = false;
            }
            proof {
                if !fits {
                    assert(hex_value(s.take(i + 1)) > usize::MAX);
                }
            }
            if digits < 2 {
                digits = digits + 1;
            }
            proof {
                i = i + 1;
            }
        }
        proof {
            lemma_hex_len_at(s, i);
            assert(s.skip(i)[0] == s[i]);
            assert(hex_len(s) == i);
        }
        let ghost after = self.socket.incoming();
        self.skip_until_lf()?;
        proof {
            let m = line_len(after)->Some_0;
            lemma_line_len(after);
            assert(after.skip(m as int) =~= s.skip(i + 1 + m));
        }
        if digits == 0 || !fits {
            return Err(LolbError::Http11Parse(ParseError::ChunkSize));
        }
        Ok(value)
    }

    /// The next piece of the body; `None` when the body has ended.
    ///
    /// What the decoder makes of the stream is what `chunk_step` says,
    /// unless the socket fails.
    pub fn data(&mut self) -> (r: Option<LolbResult<Vec<u8>>>)
        ensures
            final(self).socket().outgoing() == old(self).socket().outgoing(),
            final(self).socket().reliable() == old(self).socket().reliable(),
            (r matches Some(Err(LolbError::Io(_))) && !old(self).socket().reliable()) || match chunk_step(
                old(self).socket().incoming(),
                old(self).amount_left(),
            ) {
                ChunkStep::Short => r matches Some(
                    Err(LolbError::Http11Parse(ParseError::ShortRead)),
                ),
                ChunkStep::Bad => r matches Some(Err(LolbError::Http11Parse(ParseError::ChunkSize))),
                ChunkStep::End(rest) => {
                    &&& r is None
                    &&& final(self).socket().incoming() == rest
                    &&& final(self).amount_left() == 0
                },
                ChunkStep::Data(piece, rest, left) => {
                    &&& r matches Some(Ok(bytes))
                    &&& bytes@ == piece
                    &&& final(self).socket().incoming() == rest
                    &&& final(self).amount_left() == left
                },
            },
    {
        match self.data_res() {
            Ok(Some(bytes)) => Some(Ok(bytes)),
            Ok(None) => None,
            Err(e) => Some(Err(e)),
        }
    }

    fn data_res(&mut self) -> (r: LolbResult<Option<Vec<u8>>>)
        ensures
            final(self).socket().outgoing() == old(self).socket().outgoing(),
            final(self).socket().reliable() == old(self).socket().reliable(),
            (r matches Err(LolbError::Io(_)) && !old(self).socket().reliable()) || match chunk_step(
                old(self).socket().incoming(),
                old(self).amount_left(),
            ) {
                ChunkStep::Short => r matches Err(LolbError::Http11Parse(ParseError::ShortRead)),
                ChunkStep::Bad => r matches Err(LolbError::Http11Parse(ParseError::ChunkSize)),
                ChunkStep::End(rest) => {
                    &&& r matches Ok(None)
                    &&& final(self).socket().incoming() == rest
                    &&& final(self).amount_left() == 0
                },
                ChunkStep::Data(piece, rest, left) => {
                    &&& r matches Ok(Some(bytes))
                    &&& bytes@ == piece
                    &&& final(self).socket().incoming() == rest
                    &&& final(self).amount_left() == left
                },
            },
    {
        if self.amount_left == 0 {
            let ghost start = self.socket.incoming();
            let chunk_size = self.read_chunk_size()?;
            if chunk_size == 0 {
                let ghost behind = self.socket.incoming();
                self.skip_until_lf()?;
                proof {
                    let used = size_line(start)->Size_1;
                    let m = line_len(behind)->Some_0;
                    lemma_line_len(behind);
                    lemma_size_line_len(start);
                    assert(behind.skip(m as int) =~= start.skip(used as int + m as int));
                }
                return Ok(None);
            }
            self.amount_left = chunk_size;
        }
        let ghost s = self.socket.incoming();
        let to_read: usize = if self.amount_left < MAX_READ_SIZE {
            self.amount_left
        } else {
            MAX_READ_SIZE
        };
        let mut buf: Vec<u8> = vec![0u8; to_read];
        let n = read_full(&mut self.socket, buf.as_mut_slice())?;
        if n < to_read {
            return Err(LolbError::Http11Parse(ParseError::ShortRead));
        }
        assert(buf@ =~= s.take(to_read as int));
        self.amount_left = self.amount_left - to_read;
        if self.amount_left == 0 {
            self.skip_until_lf()?;
            proof {
                let m = line_len(s.skip(to_read as int))->Some_0;
                lemma_line_len(s.skip(to_read as int));
                assert(s.skip(to_read as int).skip(m as int) =~= s.skip(to_read + m));
            }
        }
        Ok(Some(buf))
    }
}

/// The character of a hexadecimal digit, in lower case.
pub open spec fn hex_char(d: nat) -> u8 {
    if d < 10 {
        (0x30 + d) as u8
    } else {
        (0x61 + d - 10) as u8
    }
}

/// A number in hexadecimal digits, without leading zeros.
pub open spec fn hex_digits(n: nat) -> Seq<u8>
    decreases n,
{
    if n < 16 {
        seq![hex_char(n)]
    } else {
        hex_digits(n / 16).push(hex_char(n % 16))
    }
}

/// A line end: carriage return, line feed.
pub open spec fn crlf() -> Seq<u8> {
    seq![0x0Du8, 0x0Au8]
}

/// One chunk on the wire: its size in hexadecimal, a line end, the bytes,
/// a line end.
pub open spec fn chunk_frame(payload: Seq<u8>) -> Seq<u8> {
    hex_digits(payload.len()) + crlf() + payload + crlf()
}

/// What ends a chunked body on the wire: a chunk of size zero and an empty
/// line.
pub open spec fn last_frame() -> Seq<u8> {
    seq![0x30u8, 0x0Du8, 0x0Au8, 0x0Du8, 0x0Au8]
}

/// A number in hexadecimal digits.
pub fn to_hex(n: usize) -> (digits: Vec<u8>)
    ensures
        digits@ == hex_digits(n as nat),
    decreases n,
{
    let d: u8 = (n % 16) as u8;
    let c: u8 = if d < 10 {
        0x30 + d
    } else {
        0x61 + d - 10
    };
    if n < 16 {
        let mut digits: Vec<u8> = Vec::new();
        digits.push(c);
        assert(digits@ =~= seq![hex_char(n as nat)]);
        digits
    } else {
        let mut digits = to_hex(n / 16);
        digits.push(c);
        digits
    }
}

/// Writes a body to a socket in chunks.
pub struct ChunkedEncoder<S: Socket>(pub S);

impl<S: Socket> ChunkedEncoder<S> {
    /// Writes one chunk that holds `buf`.
    pub fn send_chunk(&mut self, buf: &[u8]) -> (r: LolbResult<()>)
        ensures
            final(self).0.incoming() == old(self).0.incoming(),
            r is Ok ==> final(self).0.outgoing() == old(self).0.outgoing() + chunk_frame(buf@),
            final(self).0.reliable() == old(self).0.reliable(),
            r matches Err(e) ==> !old(self).0.reliable() && (e is Io || e == LolbError::Message(
                "failed to write whole buffer",
            )),
            r is Err ==> exists|k: int|
                0 <= k <= chunk_frame(buf@).len() && final(self).0.outgoing() == old(
                    self,
                ).0.outgoing() + #[trigger] chunk_frame(buf@).take(k),
    {
        let mut frame = to_hex(buf.len());
        frame.push(0x0D);
        frame.push(0x0A);
        let mut i: usize = 0;
        let ghost head = frame@;
        while i < buf.len()
            invariant
                i <= buf@.len(),
                frame@ == head + buf@.take(i as int),
            decreases buf@.len() - i,
        {
            frame.push(buf[i]);
            i = i + 1;
            assert(frame@ =~= head + buf@.take(i as int));
        }
        frame.push(0x0D);
        frame.push(0x0A);
        assert(buf@.take(i as int) =~= buf@);
        assert(frame@ =~= chunk_frame(buf@));
        write_all(&mut self.0, frame.as_slice())
    }

    /// Writes what ends the body.
    pub fn send_finish(&mut self) -> (r: LolbResult<()>)
        ensures
            final(self).0.incoming() == old(self).0.incoming(),
            r is Ok ==> final(self).0.outgoing() == old(self).0.outgoing() + last_frame(),
            final(self).0.reliable() == old(self).0.reliable(),
            r matches Err(e) ==> !old(self).0.reliable() && (e is Io || e == LolbError::Message(
                "failed to write whole buffer",
            )),
            r is Err ==> exists|k: int|
                0 <= k <= last_frame().len() && final(self).0.outgoing() == old(self).0.outgoing()
                    + #[trigger] last_frame().take(k),
    {
        let mut end: Vec<u8> = Vec::new();
        end.push(0x30);
        end.push(0x0D);
        end.push(0x0A);
        end.push(0x0D);
        end.push(0x0A);
        assert(end@ =~= last_frame());
        write_all(&mut self.0, end.as_slice())
    }
}

/// The body that a chunked stream holds and what follows it in the stream;
/// `None` where the stream is not a whole chunked body. `left` bytes of a
/// chunk are still to come at the start.
pub open spec fn decode_all(s: Seq<u8>, left: nat) -> Option<(Seq<u8>, Seq<u8>)>
    decreases s.len(),
{
    match chunk_step(s, left) {
        ChunkStep::Short => None,
        ChunkStep::Bad => None,
        ChunkStep::End(rest) => Some((Seq::empty(), rest)),
        ChunkStep::Data(piece, rest, more) => if rest.len() < s.len() {
            match decode_all(rest, more) {
                Some((body, after)) => Some((piece + body, after)),
                None => None,
            }
        } else {
            None
        },
    }
}

/// The chunks of a body on the wire, one after the other, and the end.
pub open spec fn encode_all(chunks: Seq<Seq<u8>>) -> Seq<u8>
    decreases chunks.len(),
{
    if chunks.len() == 0 {
        last_frame()
    } else {
        chunk_frame(chunks[0]) + encode_all(chunks.skip(1))
    }
}

/// The chunks of a body, one after the other.
pub open spec fn concat_all(chunks: Seq<Seq<u8>>) -> Seq<u8>
    decreases chunks.len(),
{
    if chunks.len() == 0 {
        Seq::empty()
    } else {
        chunks[0] + concat_all(chunks.skip(1))
    }
}

/// A number's hexadecimal digits are digits, at least one, and spell the
/// number.
pub proof fn lemma_hex_digits(n: nat)
    ensures
        hex_digits(n).len() >= 1,
        forall|k: int| 0 <= k < hex_digits(n).len() ==> is_hex(#[trigger] hex_digits(n)[k]),
        hex_value(hex_digits(n)) == n,
    decreases n,
{
    if n < 16 {
        assert(hex_digits(n).drop_last() =~= Seq::<u8>::empty());
        assert(hex_value(hex_digits(n).drop_last()) == 0);
    } else {
        lemma_hex_digits(n / 16);
        assert(hex_digits(n).drop_last() =~= hex_digits(n / 16));
    }
}

/// The line that opens a chunk of `n` bytes reads as size `n`.
proof fn lemma_size_line(n: nat, tail: Seq<u8>)
    requires
        n <= usize::MAX,
    ensures
        size_line(hex_digits(n) + crlf() + tail) == SizeLine::Size(n, hex_digits(n).len() + 2),
{
    let d = hex_digits(n);
    let s = d + crlf() + tail;
    lemma_hex_digits(n);
    let k = d.len() as int;
    assert forall|j: int| 0 <= j < k implies is_hex(#[trigger] s[j]) by {
        assert(s[j] == d[j]);
    }
    lemma_hex_len_at(s, k);
    assert(s.skip(k)[0] == 0x0D);
    assert(hex_len(s.skip(k)) == 0);
    assert(s.skip(k + 1)[0] == 0x0A);
    assert(line_len(s.skip(k + 1)) == Some(1nat));
    assert(s.take(k) =~= d);
}

/// A chunk's bytes and the line end behind them decode to those bytes, in
/// one piece or in several, and decoding goes on behind the line end.
proof fn lemma_payload(payload: Seq<u8>, tail: Seq<u8>)
    requires
        payload.len() >= 1,
    ensures
        decode_all(payload + crlf() + tail, payload.len()) == match decode_all(tail, 0) {
            Some((body, after)) => Some((payload + body, after)),
            None => None,
        },
    decreases payload.len(),
{
    let s = payload + crlf() + tail;
    let left = payload.len();
    let n = least(left, MAX_READ_SIZE as nat) as int;
    assert(s.take(n) =~= payload.take(n));
    if n < left {
        let rest = payload.skip(n);
        assert(s.skip(n) =~= rest + crlf() + tail);
        lemma_payload(rest, tail);
        assert(payload.take(n) + rest =~= payload);
        match decode_all(tail, 0) {
            Some((body, after)) => {
                assert(payload.take(n) + (rest + body) =~= payload + body);
            },
            None => {},
        }
    } else {
        assert(payload.take(n) =~= payload);
        let behind = s.skip(n);
        assert(behind =~= crlf() + tail);
        assert(behind[0] == 0x0D);
        assert(behind.skip(1)[0] == 0x0A);
        assert(line_len(behind.skip(1)) == Some(1nat));
        assert(line_len(behind) == Some(2nat));
        assert(s.skip(n + 2) =~= tail);
    }
}

/// What ends a body decodes to no bytes, and nothing of it is left.
proof fn lemma_last_frame()
    ensures
        decode_all(last_frame(), 0) == Some((Seq::<u8>::empty(), Seq::<u8>::empty())),
{
    let s = last_frame();
    assert(hex_digits(0) =~= seq![0x30u8]);
    assert(s =~= hex_digits(0) + crlf() + crlf());
    lemma_size_line(0, crlf());
    assert(size_line(s) == SizeLine::Size(0, 3));
    let behind = s.skip(3);
    assert(behind =~= crlf());
    assert(behind[0] == 0x0D);
    assert(behind.skip(1)[0] == 0x0A);
    assert(line_len(behind.skip(1)) == Some(1nat));
    assert(line_len(behind) == Some(2nat));
    assert(s.skip(5) =~= Seq::<u8>::empty());
    assert(chunk_step(s, 0) == ChunkStep::End(Seq::<u8>::empty()));
}

/// A chunk on the wire decodes to its bytes, and decoding goes on behind
/// it.
proof fn lemma_frame(first: Seq<u8>, tail: Seq<u8>)
    requires
        0 < first.len() <= usize::MAX,
    ensures
        decode_all(chunk_frame(first) + tail, 0) == match decode_all(tail, 0) {
            Some((body, after)) => Some((first + body, after)),
            None => None,
        },
{
    let d = hex_digits(first.len());
    let s = chunk_frame(first) + tail;
    let behind = first + crlf() + tail;
    assert(s =~= d + crlf() + behind);
    lemma_size_line(first.len(), behind);
    let used = (d.len() + 2) as int;
    assert(size_line(s) == SizeLine::Size(first.len(), (d.len() + 2) as nat));
    assert(s.skip(used) =~= behind);
    assert(chunk_step(s, 0) == payload_step(behind, first.len()));
    assert(chunk_step(behind, first.len()) == payload_step(behind, first.len()));
    lemma_payload(first, tail);
    lemma_step_shortens(behind, first.len());
    assert(decode_all(s, 0) == decode_all(behind, first.len())) by {
        match payload_step(behind, first.len()) {
            ChunkStep::Data(piece, rest, more) => {
                assert(rest.len() < behind.len());
                assert(behind.len() < s.len());
            },
            _ => {},
        }
    }
}

/// A piece of a chunk that is handed out leaves less of the stream.
proof fn lemma_step_shortens(s: Seq<u8>, left: nat)
    requires
        left > 0,
    ensures
        payload_step(s, left) matches ChunkStep::Data(piece, rest, more) ==> rest.len() < s.len(),
{
    let n = least(left, MAX_READ_SIZE as nat);
    if s.len() >= n && n == left {
        lemma_line_len(s.skip(n as int));
    }
}

/// What the encoder writes for a body, chunk by chunk and then the end, the
/// decoder reads back as the same bytes: the chunks one after the other,
/// and nothing is left in the stream. No chunk is empty: an empty chunk on
/// the wire is the end of the body.
pub proof fn law_chunked_round_trip(chunks: Seq<Seq<u8>>)
    requires
        forall|i: int| 0 <= i < chunks.len() ==> 0 < (#[trigger] chunks[i]).len() <= usize::MAX,
    ensures
        decode_all(encode_all(chunks), 0) == Some((concat_all(chunks), Seq::<u8>::empty())),
    decreases chunks.len(),
{
    if chunks.len() == 0 {
        lemma_last_frame();
    } else {
        let first = chunks[0];
        let rest = chunks.skip(1);
        assert forall|i: int| 0 <= i < rest.len() implies 0 < (#[trigger] rest[i]).len()
            <= usize::MAX by {
            assert(rest[i] == chunks[i + 1]);
        }
        law_chunked_round_trip(rest);
        lemma_frame(first, encode_all(rest));
        assert(first + concat_all(rest) =~= concat_all(chunks));
    }
}

} // verus!
