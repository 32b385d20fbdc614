//! A socket that can be looked into without taking bytes from it.

use vstd::prelude::*;
use bytes::BytesMut;
use crate::conn::{front_filled, Socket};

verus! {

/// `bytes::BytesMut`, the growable byte buffer that holds what was peeked.
#[verifier::external_type_specification]
#[verifier::external_body]
pub struct ExBytesMut(BytesMut);

/// The bytes that a `BytesMut` holds, in order.
pub uninterp spec fn buffer_bytes(buffer: BytesMut) -> Seq<u8>;

/// `BytesMut::new`: a buffer that holds nothing.
#[verifier::external_body]
fn buffer_new() -> (buffer: BytesMut)
    ensures
        buffer_bytes(buffer) == Seq::<u8>::empty(),
{
    BytesMut::new()
}

/// `BytesMut::len`: how many bytes the buffer holds.
#[verifier::external_body]
fn buffer_len(buffer: &BytesMut) -> (len: usize)
    ensures
        len == buffer_bytes(*buffer).len(),
{
    buffer.len()
}

/// `BytesMut::extend_from_slice`: appends the bytes of `more`.
#[verifier::external_body]
fn buffer_extend(buffer: &mut BytesMut, more: &[u8])
    ensures
        buffer_bytes(*final(buffer)) == buffer_bytes(*old(buffer)) + more@,
{
    buffer.extend_from_slice(more)
}

/// `BytesMut::split_to`: takes the first `at` bytes out of the buffer and
/// returns them; the buffer keeps the rest. `at` must not exceed the length.
#[verifier::external_body]
fn buffer_split_to(buffer: &mut BytesMut, at: usize) -> (front: BytesMut)
    requires
        at <= buffer_bytes(*old(buffer)).len(),
    ensures
        buffer_bytes(front) == buffer_bytes(*old(buffer)).take(at as int),
        buffer_bytes(*final(buffer)) == buffer_bytes(*old(buffer)).skip(at as int),
{
    buffer.split_to(at)
}

/// `AsRef<[u8]>` of `BytesMut`: the bytes that the buffer holds, as a slice.
#[verifier::external_body]
fn buffer_slice(buffer: &BytesMut) -> (slice: &[u8])
    ensures
        slice@ == buffer_bytes(*buffer),
{
    buffer.as_ref()
}

/// A socket with a buffer in front of it. What `peek` shows stays in the
/// stream: later reads hand it out first, then go on with the socket.
pub struct Peekable<S: Socket> {
    pub(crate) wrapped: S,
    buffered: BytesMut,
}

/// Whether the predicate gives this answer for these bytes.
pub open spec fn answered<F: Fn(&[u8]) -> bool>(is_enough: F, bytes: Seq<u8>, answer: bool) -> bool {
    exists|slice: &[u8]| slice@ == bytes && #[trigger] is_enough.ensures((slice,), answer)
}

/// Whether `cuts` are the lengths that a buffer had after each of the reads
/// that took it from length `from` to length `to`: they grow, the first is
/// above `from`, the last is `to`. Without a read the length stays.
pub open spec fn reads_between(cuts: Seq<int>, from: int, to: int) -> bool {
    if cuts.len() == 0 {
        from == to
    } else {
        &&& from < cuts[0]
        &&& cuts.last() == to
        &&& forall|i: int, j: int| 0 <= i < j < cuts.len() ==> cuts[i] < cuts[j]
    }
}

/// Copies `from` over the front of `to`.
fn copy_front(to: &mut [u8], from: &[u8], count: usize)
    requires
        count <= from@.len(),
        count <= old(to)@.len(),
    ensures
        final(to)@ == from@.take(count as int) + old(to)@.skip(count as int),
{
    let mut i: usize = 0;
    assert(to@ =~= from@.take(0) + old(to)@.skip(0));
    while i < count
        invariant
            i <= count,
            count <= from@.len(),
            count <= to@.len(),
            to@.len() == old(to)@.len(),
            to@ == from@.take(i as int) + old(to)@.skip(i as int),
        decreases count - i,
    {
        to[i] = from[i];
        i = i + 1;
        assert(to@ =~= from@.take(i as int) + old(to)@.skip(i as int));
    }
}

impl<S: Socket> Peekable<S> {
    /// The bytes that were read from the socket and not handed out yet.
    pub closed spec fn buffered(&self) -> Seq<u8> {
        buffer_bytes(self.buffered)
    }

    /// The socket behind the buffer.
    pub closed spec fn inner(&self) -> S {
        self.wrapped
    }

    pub fn new(wrapped: S) -> (r: Self)
        ensures
            r.buffered() == Seq::<u8>::empty(),
            r.inner() == wrapped,
            r.incoming() == wrapped.incoming(),
            r.outgoing() == wrapped.outgoing(),
            r.reliable() == wrapped.reliable(),
    {
        let r = Peekable { wrapped, buffered: buffer_new() };
        assert(r.incoming() =~= wrapped.incoming());
        r
    }

    /// Looks at the front of the stream without taking from it.
    ///
    /// Where the buffer holds fewer than `buf.len()` bytes, reads from the
    /// socket into the buffer until it holds that many, or the stream ends,
    /// or `is_enough` answers true for the buffered bytes. It is asked after
    /// each read that leaves the buffer short, and no read follows the
    /// answer true. Then copies the front of the buffer to `buf` and says how
    /// many bytes that were. The stream as later reads see it is left as it
    /// was.
    pub fn peek<F: Fn(&[u8]) -> bool>(&mut self, buf: &mut [u8], is_enough: F) -> (r: Result<
        usize,
        std::io::Error,
    >)
        requires
            forall|bytes: &[u8]| is_enough.requires((bytes,)),
        ensures
            final(buf)@.len() == old(buf)@.len(),
            final(self).incoming() == old(self).incoming(),
            final(self).outgoing() == old(self).outgoing(),
            final(self).reliable() == old(self).reliable(),
            old(self).buffered().is_prefix_of(final(self).buffered()),
            old(self).buffered().len() >= old(buf)@.len() ==> {
                &&& r matches Ok(n)
                &&& n == old(buf)@.len()
                &&& final(self).buffered() == old(self).buffered()
                &&& final(self).inner() == old(self).inner()
            },
            r is Err ==> {
                &&& !old(self).reliable()
                &&& old(self).buffered().len() < old(buf)@.len()
                &&& final(buf)@ == old(buf)@
                &&& final(self).buffered().len() < old(buf)@.len()
            },
            r matches Ok(n) ==> {
                &&& front_filled(old(buf)@, final(buf)@, old(self).incoming(), n as int)
                &&& n <= final(self).buffered().len() <= old(self).incoming().len()
                &&& n < old(buf)@.len() ==> n == final(self).buffered().len()
                &&& final(self).buffered() == old(self).incoming().take(
                    final(self).buffered().len() as int,
                )
                &&& n < old(buf)@.len() ==> {
                    ||| n == old(self).incoming().len()
                    ||| answered(is_enough, final(self).buffered(), true)
                }
                &&& exists|cuts: Seq<int>| #[trigger]
                    reads_between(
                        cuts,
                        old(self).buffered().len() as int,
                        final(self).buffered().len() as int,
                    ) && forall|i: int|
                        0 <= i < cuts.len() - 1 ==> cuts[i] < old(buf)@.len() && answered(
                            is_enough,
                            final(self).buffered().take(#[trigger] cuts[i]),
                            false,
                        )
            },
    {
        let want = buf.len();
        let mut total: usize = buffer_len(&self.buffered);
        assert(self.buffered().take(total as int) =~= self.buffered());
        assert(old(self).buffered() + self.inner().incoming() =~= old(self).incoming());
        if total >= want {
            let all = buffer_slice(&self.buffered);
            copy_front(buf, all, want);
            proof {
                assert(all@.take(want as int) =~= old(self).incoming().take(want as int));
                assert(self.buffered() =~= old(self).incoming().take(self.buffered().len() as int));
                assert(reads_between(Seq::<int>::empty(), total as int, total as int));
            }
            return Ok(want);
        }
        let ghost mut stopped = false;
        let ghost mut cuts: Seq<int> = Seq::empty();
        while total < want
            invariant_except_break
                !stopped,
                cuts.len() > 0 && total < want ==> answered(is_enough, self.buffered(), false),
            invariant
                want == buf@.len(),
                buf@ == old(buf)@,
                total == self.buffered().len(),
                old(self).buffered().len() < want,
                self.outgoing() == old(self).outgoing(),
                self.incoming() == old(self).incoming(),
                self.reliable() == old(self).reliable(),
                old(self).buffered().is_prefix_of(self.buffered()),
                forall|bytes: &[u8]| is_enough.requires((bytes,)),
                reads_between(cuts, old(self).buffered().len() as int, total as int),
                forall|i: int|
                    0 <= i < cuts.len() - 1 ==> cuts[i] < want && answered(
                        is_enough,
                        self.buffered().take(#[trigger] cuts[i]),
                        false,
                    ),
            ensures
                !stopped ==> total >= want,
                stopped ==> total < want && {
                    ||| total == old(self).incoming().len()
                    ||| answered(is_enough, self.buffered(), true)
                },
            decreases want - total,
        {
            let room: usize = want - total;
            let mut scratch: Vec<u8> = vec![0u8; room];
            let ghost before = *self;
            let n = self.wrapped.read(scratch.as_mut_slice())?;
            if n == 0 {
                proof {
                    stopped = true;
                    assert(self.incoming() =~= self.buffered());
                }
                break ;
            }
            let fresh = vstd::slice::slice_subrange(scratch.as_slice(), 0, n);
            buffer_extend(&mut self.buffered, fresh);
            proof {
                assert(fresh@ =~= before.inner().incoming().take(n as int));
                assert(self.incoming() =~= before.incoming());
                let was = before.buffered();
                assert(self.buffered().take(total as int) =~= was);
                assert forall|i: int| 0 <= i < cuts.len() implies cuts[i] < want && answered(
                    is_enough,
                    self.buffered().take(#[trigger] cuts[i]),
                    false,
                ) by {
                    if i < cuts.len() - 1 {
                        assert(self.buffered().take(cuts[i]) =~= was.take(cuts[i]));
                    } else {
                        assert(cuts[i] == total);
                    }
                }
                cuts = cuts.push(total + n);
            }
            total = total + n;
            if total < want {
                let all = buffer_slice(&self.buffered);
                let enough = is_enough(all);
                assert(answered(is_enough, self.buffered(), enough));
                if enough {
                    proof {
                        stopped = true;
                    }
                    break ;
                }
            }
        }
        let count = if total < want {
            total
        } else {
            want
        };
        let all = buffer_slice(&self.buffered);
        copy_front(buf, all, count);
        proof {
            assert(all@.take(count as int) =~= old(self).incoming().take(count as int));
            assert(self.buffered() =~= old(self).incoming().take(self.buffered().len() as int));
        }
        Ok(count)
    }

    /// Takes the buffer and the socket apart: what is buffered, which is
    /// what the stream begins with, and the socket, which goes on behind it.
    pub fn into_parts(self) -> (r: (Vec<u8>, S))
        ensures
            r.0@ == self.buffered(),
            r.1 == self.inner(),
            r.0@ + r.1.incoming() == self.incoming(),
    {
        let held = vstd::slice::slice_to_vec(buffer_slice(&self.buffered));
        (held, self.wrapped)
    }

    /// Gives up the buffer for the socket. What is buffered is lost, so this
    /// is for a socket whose buffer is empty.
    pub fn into_inner(self) -> (r: S)
        ensures
            r == self.inner(),
    {
        self.wrapped
    }
}

/// Looking before reading changes nothing of what is read.
///
/// A look leaves the stream as it was and fills the front of its buffer
/// from it; a read fills the front of its buffer from the stream that it
/// finds. So a read of `m` bytes after a look is given what a read of `m`
/// bytes is given from the stream that nobody looked into, and its first
/// bytes are those that the look showed, as far as both went.
pub proof fn law_peek_then_read(
    stream: Seq<u8>,
    looked: Seq<u8>,
    room: Seq<u8>,
    shown: Seq<u8>,
    n: int,
    got: Seq<u8>,
    alone: Seq<u8>,
    m: int,
)
    requires
        looked == stream,
        front_filled(room, shown, stream, n),
        front_filled(room, got, looked, m),
        front_filled(room, alone, stream, m),
    ensures
        got == alone,
        m <= n ==> got.take(m) == shown.take(m),
        n <= m ==> got.take(n) == shown.take(n),
        got.take(m) == stream.take(m),
{
    assert(got.take(m) =~= stream.take(m));
    assert(shown.take(n) =~= stream.take(n));
    if m <= n {
        assert(shown.take(m) =~= stream.take(m));
    } else {
        assert(got.take(n) =~= stream.take(n));
    }
}

impl<S: Socket> Socket for Peekable<S> {
    /// What is buffered, then what the socket will hand out.
    closed spec fn incoming(&self) -> Seq<u8> {
        buffer_bytes(self.buffered) + self.wrapped.incoming()
    }

    closed spec fn outgoing(&self) -> Seq<u8> {
        self.wrapped.outgoing()
    }

    closed spec fn reliable(&self) -> bool {
        self.wrapped.reliable()
    }

    /// Hands out buffered bytes while there are any, then reads from the
    /// socket. While bytes are buffered the read cannot fail: it hands out
    /// as many of them as `buf` takes, and leaves the socket alone.
    fn read(&mut self, buf: &mut [u8]) -> (r: Result<usize, std::io::Error>)
        ensures
            old(self).buffered().len() > 0 ==> {
                &&& r matches Ok(n)
                &&& n == if old(self).buffered().len() < old(buf)@.len() {
                    old(self).buffered().len()
                } else {
                    old(buf)@.len()
                }
                &&& final(self).buffered() == old(self).buffered().skip(n as int)
                &&& final(self).inner() == old(self).inner()
            },
            old(self).buffered().len() == 0 ==> final(self).buffered() == old(self).buffered(),
    {
        let held = buffer_len(&self.buffered);
        if held > 0 {
            let max = if held < buf.len() {
                held
            } else {
                buf.len()
            };
            let removed = buffer_split_to(&mut self.buffered, max);
            copy_front(buf, buffer_slice(&removed), max);
            proof {
                assert(buffer_bytes(removed).take(max as int) =~= old(self).incoming().take(
                    max as int,
                ));
                assert(self.incoming() =~= old(self).incoming().skip(max as int));
            }
            return Ok(max);
        }
        let r = self.wrapped.read(buf);
        proof {
            assert(old(self).incoming() =~= old(self).wrapped.incoming());
            assert(self.incoming() =~= self.wrapped.incoming());
        }
        r
    }

    /// Writes to the socket; the buffer is left alone.
    fn write(&mut self, buf: &[u8]) -> (r: Result<usize, std::io::Error>)
        ensures
            final(self).buffered() == old(self).buffered(),
    {
        self.wrapped.write(buf)
    }
}

} // verus!
