//! Bodies on HTTP/1.1 connections: reading a request body, writing a
//! response body.

use vstd::prelude::*;
use crate::chunked::{chunk_frame, chunk_step, last_frame, ChunkStep, ChunkedDecoder, ChunkedEncoder};
use crate::conn::Socket;
use crate::error::{LolbError, LolbResult, ParseError};
use crate::http11::BodyShape;
use crate::limit::{LimitRead, LimitWrite};
use crate::peek::Peekable;

verus! {

/// The most that is read of a plain body at once.
pub const BUF_SIZE: usize = 16_384;

/// Reads the next piece of a body of known length: up to 16 KiB. `None`
/// when the length has been read in full, or when the stream has ended.
pub fn read_chunk<S: Socket>(s: &mut LimitRead<S>) -> (r: Option<LolbResult<Vec<u8>>>)
    ensures
        final(s).source().outgoing() == old(s).source().outgoing(),
        final(s).source().reliable() == old(s).source().reliable(),
        old(s).remaining() == 0 ==> r is None && *final(s) == *old(s),
        match r {
            Some(Ok(bytes)) => {
                &&& 1 <= bytes@.len() <= BUF_SIZE
                &&& bytes@.len() <= old(s).remaining()
                &&& bytes@ == old(s).source().incoming().take(bytes@.len() as int)
                &&& final(s).source().incoming() == old(s).source().incoming().skip(
                    bytes@.len() as int,
                )
                &&& final(s).remaining() == old(s).remaining() - bytes@.len()
            },
            None => {
                &&& old(s).remaining() == 0 || old(s).source().incoming().len() == 0
                &&& final(s).remaining() == old(s).remaining()
                &&& final(s).source().incoming() == old(s).source().incoming()
            },
            Some(Err(e)) => {
                &&& e is Io
                &&& !old(s).source().reliable()
                &&& final(s).remaining() == old(s).remaining()
                &&& final(s).source().incoming() == old(s).source().incoming()
            },
        },
{
    let mut chunk: Vec<u8> = vec![0u8; BUF_SIZE];
    match s.read(chunk.as_mut_slice()) {
        Ok(read) => {
            if read == 0 {
                assert(s.source().incoming() =~= old(s).source().incoming());
                None
            } else {
                chunk.truncate(read);
                assert(chunk@ =~= old(s).source().incoming().take(read as int));
                Some(Ok(chunk))
            }
        },
        Err(e) => Some(Err(LolbError::Io(e))),
    }
}

/// Reads the body of a request that came over HTTP/1.1. A body that comes
/// over HTTP/2 is read from its stream by whoever holds the stream.
pub enum RecvBody<S: Socket> {
    /// A body of known length.
    Http11Plain(LimitRead<Peekable<S>>),
    /// A chunked body.
    Http11Chunked(ChunkedDecoder<Peekable<S>>),
}

impl<S: Socket> RecvBody<S> {
    /// The socket that the body comes from.
    pub open spec fn socket(&self) -> Peekable<S> {
        match self {
            RecvBody::Http11Plain(r) => r.source(),
            RecvBody::Http11Chunked(r) => r.socket(),
        }
    }

    /// The reader for a body of the given shape on the given socket; `None`
    /// for the shape of an HTTP/2 body, which no socket is read for.
    pub fn new(shape: BodyShape, socket: Peekable<S>) -> (r: Result<Self, Peekable<S>>)
        ensures
            match shape {
                BodyShape::Http2 => r == Err::<Self, Peekable<S>>(socket),
                BodyShape::Plain(n) => r matches Ok(RecvBody::Http11Plain(reader))
                    && reader.source() == socket && reader.remaining() == n,
                BodyShape::Chunked => r matches Ok(RecvBody::Http11Chunked(reader))
                    && reader.socket() == socket && reader.amount_left() == 0,
            },
    {
        match shape {
            BodyShape::Http2 => Err(socket),
            BodyShape::Plain(n) => Ok(RecvBody::Http11Plain(LimitRead::new(socket, n))),
            BodyShape::Chunked => Ok(RecvBody::Http11Chunked(ChunkedDecoder::new(socket))),
        }
    }

    /// The next piece of the body; `None` when the body has ended.
    pub fn data(&mut self) -> (r: Option<LolbResult<Vec<u8>>>)
        ensures
            final(self).socket().outgoing() == old(self).socket().outgoing(),
            final(self).socket().reliable() == old(self).socket().reliable(),
            match *old(self) {
                RecvBody::Http11Plain(before) => {
                    &&& *final(self) matches RecvBody::Http11Plain(after)
                    &&& before.remaining() == 0 ==> r is None && after == before
                    &&& match r {
                        Some(Ok(bytes)) => {
                            &&& 1 <= bytes@.len() <= before.remaining()
                            &&& bytes@ == before.source().incoming().take(bytes@.len() as int)
                            &&& after.source().incoming() == before.source().incoming().skip(
                                bytes@.len() as int,
                            )
                            &&& after.remaining() == before.remaining() - bytes@.len()
                        },
                        None => before.remaining() == 0 || before.source().incoming().len() == 0,
                        Some(Err(e)) => e is Io && !before.source().reliable(),
                    }
                },
                RecvBody::Http11Chunked(before) => {
                    &&& *final(self) matches RecvBody::Http11Chunked(after)
                    &&& (r matches Some(Err(LolbError::Io(_))) && !before.socket().reliable()) || match chunk_step(
                        before.socket().incoming(),
                        before.amount_left(),
                    ) {
                        ChunkStep::Short => r matches Some(
                            Err(LolbError::Http11Parse(ParseError::ShortRead)),
                        ),
                        ChunkStep::Bad => r matches Some(
                            Err(LolbError::Http11Parse(ParseError::ChunkSize)),
                        ),
                        ChunkStep::End(rest) => {
                            &&& r is None
                            &&& after.socket().incoming() == rest
                            &&& after.amount_left() == 0
                        },
                        ChunkStep::Data(piece, rest, left) => {
                            &&& r matches Some(Ok(bytes))
                            &&& bytes@ == piece
                            &&& after.socket().incoming() == rest
                            &&& after.amount_left() == left
                        },
                    }
                },
            },
    {
        match self {
            RecvBody::Http11Plain(r) => read_chunk(r),
            RecvBody::Http11Chunked(r) => r.data(),
        }
    }

    /// Gives flow-control credit back to the sender of the body. HTTP/1.1
    /// has none to give: nothing happens.
    pub fn release_capacity(&mut self, amount: usize) -> (r: LolbResult<()>)
        ensures
            r is Ok,
            *final(self) == *old(self),
    {
        Ok(())
    }

    /// Gives up the reader for its socket, so that the next request can be
    /// read from it.
    pub fn into_socket(self) -> (r: Peekable<S>)
        ensures
            r == self.socket(),
    {
        match self {
            RecvBody::Http11Plain(r) => r.into_inner(),
            RecvBody::Http11Chunked(r) => r.into_inner(),
        }
    }
}

/// Writes the body of a response that goes out over HTTP/1.1.
pub enum Http11Body<S: Socket> {
    /// The response has no body: what is sent as one is dropped.
    NoBody(S),
    /// The body has the length that `Content-Length` announced.
    Limited(LimitWrite<S>),
    /// The body goes out in chunks.
    Chunked(ChunkedEncoder<S>),
}

impl<S: Socket> Http11Body<S> {
    /// The socket that the body goes to.
    pub open spec fn socket(&self) -> S {
        match self {
            Http11Body::NoBody(s) => *s,
            Http11Body::Limited(w) => w.source(),
            Http11Body::Chunked(w) => w.0,
        }
    }

    /// What a piece of the body is on the wire.
    pub open spec fn framed(&self, chunk: Seq<u8>) -> Seq<u8> {
        match self {
            Http11Body::NoBody(_) => Seq::empty(),
            Http11Body::Limited(_) => chunk,
            Http11Body::Chunked(_) => chunk_frame(chunk),
        }
    }

    /// Whether a piece of this length is more than the body may still hold.
    pub open spec fn overflows(&self, len: nat) -> bool {
        match self {
            Http11Body::Limited(w) => len > w.remaining(),
            _ => false,
        }
    }

    /// Writes a piece of the body. A piece that takes a body of announced
    /// length past that length is refused, and nothing of it is written.
    pub fn send_chunk(&mut self, chunk: &[u8]) -> (r: LolbResult<()>)
        ensures
            final(self).socket().incoming() == old(self).socket().incoming(),
            final(self).socket().reliable() == old(self).socket().reliable(),
            r is Err ==> old(self).overflows(chunk@.len()) || !old(self).socket().reliable(),
            old(self).overflows(chunk@.len()) ==> {
                &&& r matches Err(LolbError::LimitExceeded { .. })
                &&& *final(self) == *old(self)
            },
            *old(self) is NoBody ==> r is Ok && *final(self) == *old(self),
            r is Ok ==> final(self).socket().outgoing() == old(self).socket().outgoing() + old(self).framed(chunk@),
            r is Err ==> exists|k: int|
                0 <= k <= old(self).framed(chunk@).len() && final(self).socket().outgoing() == old(self).socket().outgoing() + #[trigger] old(self).framed(chunk@).take(k),
            match (*old(self), *final(self)) {
                (Http11Body::NoBody(_), Http11Body::NoBody(_)) => true,
                (Http11Body::Limited(before), Http11Body::Limited(after)) => after.limit()
                    == before.limit() && (r is Ok ==> after.written() == before.written()
                    + chunk@.len()),
                (Http11Body::Chunked(_), Http11Body::Chunked(_)) => true,
                _ => false,
            },
    {
        match self {
            Http11Body::NoBody(s) => {
                assert(s.outgoing() =~= s.outgoing() + Seq::<u8>::empty());
                Ok(())
            },
            Http11Body::Limited(w) => {
                let ghost start = w.source().outgoing();
                let mut done: usize = 0;
                let mut outcome: LolbResult<()> = Ok(());
                assert(start =~= start + chunk@.take(0));
                while done < chunk.len()
                    invariant_except_break
                        outcome is Ok,
                        done == 0 ==> *w == old(self)->Limited_0,
                    invariant
                        done <= chunk@.len(),
                        *old(self) is Limited,
                        w.source().reliable() == old(self)->Limited_0.source().reliable(),
                        outcome is Err ==> old(self).overflows(chunk@.len()) || !old(self)->Limited_0.source().reliable(),
                        old(self).overflows(chunk@.len()) ==> done == 0,
                        w.limit() == old(self)->Limited_0.limit(),
                        w.source().incoming() == old(self)->Limited_0.source().incoming(),
                        w.source().outgoing() == start + chunk@.take(done as int),
                        w.written() == old(self)->Limited_0.written() + done,
                        start == old(self)->Limited_0.source().outgoing(),
                        !old(self).overflows(chunk@.len()) ==> chunk@.len() - done <= w.remaining(),
                        old(self).overflows(chunk@.len()) && outcome is Err ==> outcome matches Err(
                            LolbError::LimitExceeded { .. },
                        ),
                    ensures
                        outcome is Ok ==> done == chunk@.len(),
                        old(self).overflows(chunk@.len()) ==> outcome is Err && *w == old(self)->Limited_0,
                    decreases chunk@.len() - done,
                {
                    let rest = vstd::slice::slice_subrange(chunk, done, chunk.len());
                    assert(done == 0 ==> rest@ =~= chunk@);
                    match w.write(rest) {
                        Ok(n) => {
                            if n == 0 {
                                outcome = Err(LolbError::Message("failed to write whole buffer"));
                                break ;
                            }
                            assert(w.source().outgoing() =~= start + chunk@.take(done + n));
                            done = done + n;
                        },
                        Err(e) => {
                            outcome = Err(e);
                            break ;
                        },
                    }
                }
                proof {
                    if outcome is Ok {
                        assert(chunk@.take(done as int) =~= chunk@);
                    } else {
                        assert(w.source().outgoing() == start + old(self).framed(chunk@).take(
                            done as int,
                        ));
                    }
                }
                outcome
            },
            Http11Body::Chunked(w) => {
                let r = w.send_chunk(chunk);
                proof {
                    if r is Err {
                        let k = choose|k: int|
                            0 <= k <= chunk_frame(chunk@).len() && w.0.outgoing() == old(self)->Chunked_0.0.outgoing() + #[trigger] chunk_frame(chunk@).take(k);
                        assert(w.0.outgoing() == old(self).socket().outgoing() + old(self).framed(
                            chunk@,
                        ).take(k));
                    }
                }
                r
            },
        }
    }

    /// Ends the body: a chunked body gets its last chunk, the others
    /// nothing.
    pub fn send_finish(&mut self) -> (r: LolbResult<()>)
        ensures
            final(self).socket().incoming() == old(self).socket().incoming(),
            final(self).socket().reliable() == old(self).socket().reliable(),
            r is Err ==> !old(self).socket().reliable(),
            match *old(self) {
                Http11Body::Chunked(_) => {
                    &&& *final(self) is Chunked
                    &&& r is Ok ==> final(self).socket().outgoing() == old(self).socket().outgoing() + last_frame()
                },
                _ => r is Ok && *final(self) == *old(self),
            },
    {
        match self {
            Http11Body::NoBody(_) => Ok(()),
            Http11Body::Limited(_) => Ok(()),
            Http11Body::Chunked(w) => w.send_finish(),
        }
    }

    /// The socket that the body goes to.
    pub fn get_ref(&self) -> (r: &S)
        ensures
            *r == self.socket(),
    {
        match self {
            Http11Body::NoBody(s) => s,
            Http11Body::Limited(w) => w.get_ref(),
            Http11Body::Chunked(w) => &w.0,
        }
    }

    /// The socket that the body goes to, to work on it. The writer stays
    /// what it is, and a body of announced length keeps its count.
    pub fn get_mut(&mut self) -> (r: &mut S)
        ensures
            *r == old(self).socket(),
            final(self).socket() == *final(r),
            match (*old(self), *final(self)) {
                (Http11Body::NoBody(_), Http11Body::NoBody(_)) => true,
                (Http11Body::Limited(before), Http11Body::Limited(after)) => after.limit()
                    == before.limit() && after.written() == before.written(),
                (Http11Body::Chunked(_), Http11Body::Chunked(_)) => true,
                _ => false,
            },
    {
        match self {
            Http11Body::NoBody(s) => s,
            Http11Body::Limited(w) => w.get_mut(),
            Http11Body::Chunked(w) => &mut w.0,
        }
    }

    /// Gives up the writer for its socket.
    pub fn into_socket(self) -> (r: S)
        ensures
            r == self.socket(),
    {
        match self {
            Http11Body::NoBody(s) => s,
            Http11Body::Limited(w) => w.into_inner(),
            Http11Body::Chunked(w) => w.0,
        }
    }
}

} // verus!
