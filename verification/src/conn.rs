//! Sockets and accepted connections.

use vstd::prelude::*;
use crate::error::{LolbError, LolbResult};
use crate::peek::Peekable;

verus! {

/// Whether `after` is `before` with the first `n` bytes of `stream` copied
/// over its front: what a read or a look of `n` bytes does to the buffer it
/// is given.
pub open spec fn front_filled(before: Seq<u8>, after: Seq<u8>, stream: Seq<u8>, n: int) -> bool {
    &&& 0 <= n <= before.len()
    &&& n <= stream.len()
    &&& after == stream.take(n) + before.skip(n)
}

/// A two-way stream of bytes, such as a TCP or TLS connection.
///
/// A socket is thought of as two byte strings: what the peer sends and has
/// not been read yet, and what has been written to the peer. The contracts
/// of `read` and `write` say how a call moves bytes out of the first and
/// into the second.
pub trait Socket {
    /// The bytes that `read` will hand out, in order, from now to the end of
    /// the stream.
    spec fn incoming(&self) -> Seq<u8>;

    /// The bytes written so far.
    spec fn outgoing(&self) -> Seq<u8>;

    /// Whether the socket cannot fail: every read and every write succeeds,
    /// and a write takes at least one of the bytes it is given.
    spec fn reliable(&self) -> bool;

    /// Reads up to `buf.len()` bytes into the front of `buf` and says how
    /// many. None are read only where `buf` is empty or the stream has ended.
    fn read(&mut self, buf: &mut [u8]) -> (r: Result<usize, std::io::Error>)
        ensures
            final(buf)@.len() == old(buf)@.len(),
            final(self).outgoing() == old(self).outgoing(),
            final(self).reliable() == old(self).reliable(),
            old(self).reliable() ==> r is Ok,
            r matches Ok(n) ==> {
                &&& front_filled(old(buf)@, final(buf)@, old(self).incoming(), n as int)
                &&& final(self).incoming() == old(self).incoming().skip(n as int)
                &&& n == 0 ==> old(buf)@.len() == 0 || old(self).incoming().len() == 0
            },
            r is Err ==> final(self).incoming() == old(self).incoming() && final(buf)@ == old(
                buf,
            )@,
    ;

    /// Writes bytes from the front of `buf` and says how many.
    fn write(&mut self, buf: &[u8]) -> (r: Result<usize, std::io::Error>)
        ensures
            final(self).incoming() == old(self).incoming(),
            final(self).reliable() == old(self).reliable(),
            old(self).reliable() ==> r is Ok,
            r matches Ok(n) ==> {
                &&& n <= buf@.len()
                &&& final(self).outgoing() == old(self).outgoing() + buf@.take(n as int)
                &&& old(self).reliable() && buf@.len() > 0 ==> n > 0
            },
            r is Err ==> final(self).outgoing() == old(self).outgoing(),
    ;
}

/// What becomes of a write of `rest` bytes that were still to go: how far
/// it came, or why the writing ends. A write that took none of the bytes
/// that were to go ends it, as does a failure of the socket.
pub open spec fn write_outcome(wrote: Result<usize, std::io::Error>, rest: usize) -> LolbResult<
    usize,
> {
    match wrote {
        Ok(n) => if n == 0 && rest > 0 {
            Err(LolbError::Message("failed to write whole buffer"))
        } else {
            Ok(n)
        },
        Err(e) => Err(LolbError::Io(e)),
    }
}

/// Says what becomes of a write of `rest` bytes that were still to go, from
/// what the socket answered.
pub fn after_write(wrote: Result<usize, std::io::Error>, rest: usize) -> (r: LolbResult<usize>)
    ensures
        r == write_outcome(wrote, rest),
{
    match wrote {
        Ok(n) => {
            if n == 0 && rest > 0 {
                Err(LolbError::Message("failed to write whole buffer"))
            } else {
                Ok(n)
            }
        },
        Err(e) => Err(LolbError::Io(e)),
    }
}

/// Writes all of `bytes`, in as many writes as it takes. Each write is
/// judged by `after_write`: the first that ends the writing ends it with
/// that error. On a socket that cannot fail all bytes are written.
pub fn write_all<S: Socket>(socket: &mut S, bytes: &[u8]) -> (r: LolbResult<()>)
    ensures
        final(socket).incoming() == old(socket).incoming(),
        final(socket).reliable() == old(socket).reliable(),
        r is Ok ==> final(socket).outgoing() == old(socket).outgoing() + bytes@,
        r is Err ==> exists|k: int|
            0 <= k < bytes@.len() && final(socket).outgoing() == old(socket).outgoing()
                + #[trigger] bytes@.take(k),
        r matches Err(e) ==> !old(socket).reliable() && (e is Io || e
            == LolbError::Message("failed to write whole buffer")),
{
    let mut done: usize = 0;
    assert(socket.outgoing() =~= old(socket).outgoing() + bytes@.take(0));
    while done < bytes.len()
        invariant
            done <= bytes@.len(),
            socket.incoming() == old(socket).incoming(),
            socket.reliable() == old(socket).reliable(),
            socket.outgoing() == old(socket).outgoing() + bytes@.take(done as int),
        decreases bytes@.len() - done,
    {
        let rest = vstd::slice::slice_subrange(bytes, done, bytes.len());
        let wrote = socket.write(rest);
        let n = after_write(wrote, bytes.len() - done)?;
        assert(socket.outgoing() =~= old(socket).outgoing() + bytes@.take(done + n));
        done = done + n;
    }
    assert(bytes@.take(done as int) =~= bytes@);
    Ok(())
}

/// Reads until `buf` is full or the stream ends, and says how many bytes
/// were read.
pub fn read_full<S: Socket>(socket: &mut S, buf: &mut [u8]) -> (r: LolbResult<usize>)
    ensures
        final(buf)@.len() == old(buf)@.len(),
        final(socket).outgoing() == old(socket).outgoing(),
        r matches Ok(n) ==> {
            &&& n <= old(buf)@.len()
            &&& n <= old(socket).incoming().len()
            &&& final(buf)@ == old(socket).incoming().take(n as int) + old(buf)@.skip(n as int)
            &&& final(socket).incoming() == old(socket).incoming().skip(n as int)
            &&& n < old(buf)@.len() ==> final(socket).incoming().len() == 0
        },
        final(socket).reliable() == old(socket).reliable(),
        r matches Err(e) ==> e is Io && !old(socket).reliable() && old(buf)@.len() > 0,
{
    let want = buf.len();
    let mut total: usize = 0;
    assert(buf@ =~= old(socket).incoming().take(0) + old(buf)@.skip(0));
    assert(socket.incoming() =~= old(socket).incoming().skip(0));
    while total < want
        invariant
            want == old(buf)@.len(),
            buf@.len() == want,
            total <= want,
            total <= old(socket).incoming().len(),
            socket.outgoing() == old(socket).outgoing(),
            socket.reliable() == old(socket).reliable(),
            buf@ == old(socket).incoming().take(total as int) + old(buf)@.skip(total as int),
            socket.incoming() == old(socket).incoming().skip(total as int),
        decreases want - total,
    {
        let room: usize = want - total;
        let mut scratch: Vec<u8> = vec![0u8; room];
        let n = match socket.read(scratch.as_mut_slice()) {
            Ok(n) => n,
            Err(e) => {
                return Err(LolbError::Io(e));
            },
        };
        if n == 0 {
            return Ok(total);
        }
        let ghost before = buf@;
        let mut i: usize = 0;
        while i < n
            invariant
                i <= n,
                n <= scratch@.len(),
                total + n <= want,
                buf@.len() == want,
                before.len() == want,
                buf@ == before.take(total as int) + scratch@.take(i as int) + before.skip(
                    total + i,
                ),
            decreases n - i,
        {
            buf[total + i] = scratch[i];
            i = i + 1;
            assert(buf@ =~= before.take(total as int) + scratch@.take(i as int) + before.skip(
                total + i,
            ));
        }
        assert(buf@ =~= old(socket).incoming().take(total + n) + old(buf)@.skip(total + n));
        assert(socket.incoming() =~= old(socket).incoming().skip(total + n));
        total = total + n;
    }
    Ok(total)
}

/// The version of HTTP that a connection speaks.
#[derive(Debug, Clone, Copy, PartialEq, Eq, Structural)]
pub enum HttpVersion {
    /// Not known yet: the first bytes have to be looked at.
    Unknown,
    /// HTTP/1.1
    Http11,
    /// HTTP/2
    Http2,
}

/// An accepted connection: the socket behind a peek buffer, the version
/// that TLS negotiated if it did, and whether TLS is in use.
pub struct Connection<S: Socket> {
    socket: Peekable<S>,
    http_version: HttpVersion,
    is_secure: bool,
}

impl<S: Socket> Connection<S> {
    /// The socket with its peek buffer.
    pub closed spec fn stream(&self) -> Peekable<S> {
        self.socket
    }

    /// The version that was given when the connection was made.
    pub closed spec fn version(&self) -> HttpVersion {
        self.http_version
    }

    /// Whether the connection was made as a secure one.
    pub closed spec fn secure(&self) -> bool {
        self.is_secure
    }

    pub fn new(socket: S, http_version: HttpVersion, is_secure: bool) -> (r: Self)
        ensures
            r.version() == http_version,
            r.secure() == is_secure,
            r.stream().incoming() == socket.incoming(),
            r.stream().outgoing() == socket.outgoing(),
            r.stream().reliable() == socket.reliable(),
            r.stream().buffered() == Seq::<u8>::empty(),
    {
        Connection { socket: Peekable::new(socket), http_version, is_secure }
    }

    /// A connection on a socket that has a peek buffer already: one that a
    /// body was read from, and that the next request is read from.
    pub fn resume(socket: Peekable<S>, http_version: HttpVersion, is_secure: bool) -> (r: Self)
        ensures
            r.version() == http_version,
            r.secure() == is_secure,
            r.stream() == socket,
    {
        Connection { socket, http_version, is_secure }
    }

    pub fn socket(&mut self) -> (r: &mut Peekable<S>)
        ensures
            *r == old(self).stream(),
            final(self).stream() == *final(r),
            final(self).version() == old(self).version(),
            final(self).secure() == old(self).secure(),
    {
        &mut self.socket
    }

    /// Gives up the connection for its socket, peek buffer included.
    pub fn into_socket(self) -> (r: Peekable<S>)
        ensures
            r == self.stream(),
    {
        self.socket
    }

    pub fn http_version(&self) -> (r: HttpVersion)
        ensures
            r == self.version(),
    {
        self.http_version
    }

    pub fn is_secure(&self) -> (r: bool)
        ensures
            r == self.secure(),
    {
        self.is_secure
    }
}

/// `std::io::Error::from` of `ErrorKind::BrokenPipe`: the error with which
/// the socket in memory fails.
#[verifier::external_body]
fn broken_pipe() -> (e: std::io::Error) {
    std::io::Error::from(std::io::ErrorKind::BrokenPipe)
}

/// A socket in memory: it hands out a given input and keeps what is written
/// to it, a given number of bytes at a call at most. It can be made to fail
/// after a given number of calls.
pub struct MemorySocket {
    input: Vec<u8>,
    pos: usize,
    step: usize,
    fuse: Option<usize>,
    output: Vec<u8>,
}

/// How many bytes a call of the socket in memory moves: as many as are
/// asked for, as are left, and as a call may move at most, whichever is
/// least.
pub open spec fn read_size(asked: nat, left: nat, step: nat) -> nat {
    let most = if left < asked {
        left
    } else {
        asked
    };
    if step != 0 && step < most {
        step
    } else {
        most
    }
}

impl MemorySocket {
    /// The most that a call moves; zero stands for no bound.
    pub closed spec fn step(&self) -> nat {
        self.step as nat
    }

    /// How many calls will succeed before all fail; `None` where none ever
    /// fails.
    pub closed spec fn fuse(&self) -> Option<nat> {
        match self.fuse {
            Some(k) => Some(k as nat),
            None => None,
        }
    }

    /// A socket that will hand out `input` and never fails. A call moves at
    /// most `step` bytes, or as many as are asked for where `step` is zero.
    pub fn new(input: Vec<u8>, step: usize) -> (r: MemorySocket)
        ensures
            r.incoming() == input@,
            r.outgoing() == Seq::<u8>::empty(),
            r.step() == step,
            r.fuse() is None,
            r.reliable(),
    {
        let r = MemorySocket { input, pos: 0, step, fuse: None, output: Vec::new() };
        assert(r.incoming() =~= input@);
        r
    }

    /// A socket like that of `new`, of which `calls` reads and writes
    /// succeed and all later ones fail.
    pub fn failing(input: Vec<u8>, step: usize, calls: usize) -> (r: MemorySocket)
        ensures
            r.incoming() == input@,
            r.outgoing() == Seq::<u8>::empty(),
            r.step() == step,
            r.fuse() == Some(calls as nat),
            !r.reliable(),
    {
        let r = MemorySocket { input, pos: 0, step, fuse: Some(calls), output: Vec::new() };
        assert(r.incoming() =~= input@);
        r
    }

    /// What was written to the socket so far.
    pub fn written(&self) -> (r: &Vec<u8>)
        ensures
            r@ == self.outgoing(),
    {
        &self.output
    }

    /// Hands out what was written to the socket so far, and forgets it.
    pub fn take_written(&mut self) -> (r: Vec<u8>)
        ensures
            r@ == old(self).outgoing(),
            final(self).outgoing() == Seq::<u8>::empty(),
            final(self).incoming() == old(self).incoming(),
            final(self).step() == old(self).step(),
            final(self).fuse() == old(self).fuse(),
            final(self).reliable() == old(self).reliable(),
    {
        let mut gone: Vec<u8> = Vec::new();
        std::mem::swap(&mut self.output, &mut gone);
        gone
    }

    /// How many bytes of the input have not been read.
    pub fn unread(&self) -> (r: usize)
        ensures
            r == self.incoming().len(),
    {
        if self.pos <= self.input.len() {
            self.input.len() - self.pos
        } else {
            0
        }
    }

    /// Counts a call: whether it is one that succeeds.
    fn spend(&mut self) -> (ok: bool)
        ensures
            ok == (old(self).fuse() != Some(0nat)),
            final(self).fuse() == match old(self).fuse() {
                None => None,
                Some(k) => if k == 0 {
                    Some(0nat)
                } else {
                    Some((k - 1) as nat)
                },
            },
            final(self).input == old(self).input,
            final(self).pos == old(self).pos,
            final(self).step == old(self).step,
            final(self).output == old(self).output,
    {
        match self.fuse {
            None => true,
            Some(k) => {
                if k == 0 {
                    false
                } else {
                    self.fuse = Some(k - 1);
                    true
                }
            },
        }
    }
}

/// The fuse of the socket in memory after one more call.
pub open spec fn burnt(fuse: Option<nat>) -> Option<nat> {
    match fuse {
        None => None,
        Some(k) => if k == 0 {
            Some(0nat)
        } else {
            Some((k - 1) as nat)
        },
    }
}

impl Socket for MemorySocket {
    closed spec fn incoming(&self) -> Seq<u8> {
        if self.pos <= self.input@.len() {
            self.input@.skip(self.pos as int)
        } else {
            Seq::empty()
        }
    }

    closed spec fn outgoing(&self) -> Seq<u8> {
        self.output@
    }

    closed spec fn reliable(&self) -> bool {
        self.fuse is None
    }

    /// Hands out the next bytes of the input, unless the call is one that
    /// fails.
    fn read(&mut self, buf: &mut [u8]) -> (r: Result<usize, std::io::Error>)
        ensures
            final(self).step() == old(self).step(),
            final(self).fuse() == burnt(old(self).fuse()),
            old(self).fuse() == Some(0nat) ==> r is Err,
            old(self).fuse() != Some(0nat) ==> (r matches Ok(n) && n == read_size(
                old(buf)@.len(),
                old(self).incoming().len(),
                old(self).step(),
            )),
    {
        if !self.spend() {
            return Err(broken_pipe());
        }
        if self.pos > self.input.len() {
            assert(buf@ =~= old(self).incoming().take(0) + old(buf)@.skip(0));
            return Ok(0);
        }
        let avail: usize = self.input.len() - self.pos;
        let mut most: usize = if avail < buf.len() {
            avail
        } else {
            buf.len()
        };
        if self.step != 0 && self.step < most {
            most = self.step;
        }
        let start: usize = self.pos;
        let mut n: usize = 0;
        while n < most
            invariant
                n <= most <= buf@.len(),
                most <= avail,
                avail == self.input@.len() - start,
                self.input@.len() <= usize::MAX,
                start == old(self).pos,
                self.pos == start + n,
                self.input == old(self).input,
                self.output == old(self).output,
                self.step == old(self).step,
                self.fuse() == burnt(old(self).fuse()),
                buf@.len() == old(buf)@.len(),
                buf@ == self.input@.subrange(start as int, start + n) + old(buf)@.skip(n as int),
            decreases most - n,
        {
            buf[n] = self.input[self.pos];
            self.pos = self.pos + 1;
            n = n + 1;
            assert(buf@ =~= self.input@.subrange(start as int, start + n) + old(buf)@.skip(
                n as int,
            ));
        }
        assert(buf@ =~= old(self).incoming().take(n as int) + old(buf)@.skip(n as int));
        assert(self.incoming() =~= old(self).incoming().skip(n as int));
        Ok(n)
    }

    /// Takes the next bytes of `buf`, unless the call is one that fails.
    fn write(&mut self, buf: &[u8]) -> (r: Result<usize, std::io::Error>)
        ensures
            final(self).step() == old(self).step(),
            final(self).fuse() == burnt(old(self).fuse()),
            old(self).fuse() == Some(0nat) ==> r is Err,
            old(self).fuse() != Some(0nat) ==> (r matches Ok(n) && n == read_size(
                buf@.len(),
                buf@.len(),
                old(self).step(),
            )),
    {
        if !self.spend() {
            return Err(broken_pipe());
        }
        let most: usize = if self.step != 0 && self.step < buf.len() {
            self.step
        } else {
            buf.len()
        };
        let mut i: usize = 0;
        assert(self.output@ =~= old(self).output@ + buf@.take(0));
        while i < most
            invariant
                i <= most <= buf@.len(),
                self.input == old(self).input,
                self.pos == old(self).pos,
                self.step == old(self).step,
                self.fuse() == burnt(old(self).fuse()),
                self.output@ == old(self).output@ + buf@.take(i as int),
            decreases most - i,
        {
            self.output.push(buf[i]);
            i = i + 1;
            assert(self.output@ =~= old(self).output@ + buf@.take(i as int));
        }
        Ok(i)
    }
}

} // verus!
