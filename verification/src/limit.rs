//! Readers and writers that stop at a byte count.

use vstd::prelude::*;
use crate::conn::Socket;
use crate::error::{LolbError, LolbResult};

verus! {

/// Reads from a source, but no more than a limit of bytes in all.
pub struct LimitRead<S: Socket> {
    source: S,
    left: usize,
}

impl<S: Socket> LimitRead<S> {
    /// The source.
    pub closed spec fn source(&self) -> S {
        self.source
    }

    /// How many bytes may still be read.
    pub closed spec fn remaining(&self) -> nat {
        self.left as nat
    }

    pub fn new(source: S, limit: usize) -> (r: Self)
        ensures
            r.source() == source,
            r.remaining() == limit,
    {
        LimitRead { source, left: limit }
    }

    /// Reads into the front of `buf`, but no more than may still be read.
    /// Once the limit is reached nothing is read, and the source is left
    /// alone.
    pub fn read(&mut self, buf: &mut [u8]) -> (r: Result<usize, std::io::Error>)
        ensures
            final(buf)@.len() == old(buf)@.len(),
            final(self).source().outgoing() == old(self).source().outgoing(),
            final(self).source().reliable() == old(self).source().reliable(),
            old(self).remaining() == 0 || old(buf)@.len() == 0 ==> {
                &&& r matches Ok(n)
                &&& n == 0
                &&& *final(self) == *old(self)
                &&& final(buf)@ == old(buf)@
            },
            r is Err ==> {
                &&& !old(self).source().reliable()
                &&& old(self).remaining() > 0
                &&& old(buf)@.len() > 0
                &&& final(buf)@ == old(buf)@
            },
            r matches Ok(n) ==> {
                &&& n <= old(buf)@.len()
                &&& n <= old(self).remaining()
                &&& n <= old(self).source().incoming().len()
                &&& final(self).remaining() == old(self).remaining() - n
                &&& final(buf)@ == old(self).source().incoming().take(n as int) + old(buf)@.skip(
                    n as int,
                )
                &&& final(self).source().incoming() == old(self).source().incoming().skip(n as int)
                &&& n == 0 ==> old(buf)@.len() == 0 || old(self).remaining() == 0 || old(self).source().incoming().len() == 0
            },
            r is Err ==> final(self).remaining() == old(self).remaining() && final(self).source().incoming() == old(self).source().incoming(),
    {
        let left: usize = self.left;
        let max: usize = if left < buf.len() {
            left
        } else {
            buf.len()
        };
        if max == 0 {
            assert(buf@ =~= old(self).source().incoming().take(0) + old(buf)@.skip(0));
            assert(self.source().incoming() =~= old(self).source().incoming().skip(0));
            return Ok(0);
        }
        let mut scratch: Vec<u8> = vec![0u8; max];
        let n = self.source.read(scratch.as_mut_slice())?;
        let mut i: usize = 0;
        assert(buf@ =~= scratch@.take(0) + old(buf)@.skip(0));
        while i < n
            invariant
                i <= n <= max,
                max <= buf@.len(),
                scratch@.len() == max,
                buf@.len() == old(buf)@.len(),
                buf@ == scratch@.take(i as int) + old(buf)@.skip(i as int),
            decreases n - i,
        {
            buf[i] = scratch[i];
            i = i + 1;
            assert(buf@ =~= scratch@.take(i as int) + old(buf)@.skip(i as int));
        }
        assert(scratch@.take(n as int) =~= old(self).source().incoming().take(n as int));
        self.left = self.left - n;
        Ok(n)
    }

    /// Gives up the reader for its source.
    pub fn into_inner(self) -> (r: S)
        ensures
            r == self.source(),
    {
        self.source
    }
}

/// Writes to a sink, and refuses to write more than a limit of bytes in all.
pub struct LimitWrite<S: Socket> {
    source: S,
    written: usize,
    limit: usize,
}

impl<S: Socket> LimitWrite<S> {
    /// The sink.
    pub closed spec fn source(&self) -> S {
        self.source
    }

    /// How many bytes were written.
    pub closed spec fn written(&self) -> nat {
        self.written as nat
    }

    /// How many bytes may be written in all.
    pub closed spec fn limit(&self) -> nat {
        self.limit as nat
    }

    /// How many bytes may still be written.
    pub open spec fn remaining(&self) -> nat {
        if self.written() <= self.limit() {
            (self.limit() - self.written()) as nat
        } else {
            0
        }
    }

    pub fn new(source: S, limit: usize) -> (r: Self)
        ensures
            r.source() == source,
            r.written() == 0,
            r.limit() == limit,
    {
        LimitWrite { source, written: 0, limit }
    }

    /// Writes bytes from the front of `buf`, unless all of `buf` would
    /// take the count past the limit: then nothing is written and the call
    /// fails.
    pub fn write(&mut self, buf: &[u8]) -> (r: LolbResult<usize>)
        ensures
            final(self).limit() == old(self).limit(),
            final(self).source().incoming() == old(self).source().incoming(),
            final(self).source().reliable() == old(self).source().reliable(),
            buf@.len() > old(self).remaining() ==> {
                &&& r matches Err(LolbError::LimitExceeded { total, limit })
                &&& *final(self) == *old(self)
            },
            buf@.len() <= old(self).remaining() ==> match r {
                Ok(n) => {
                    &&& n <= buf@.len()
                    &&& old(self).source().reliable() && buf@.len() > 0 ==> n > 0
                    &&& final(self).written() == old(self).written() + n
                    &&& final(self).source().outgoing() == old(self).source().outgoing()
                        + buf@.take(n as int)
                },
                Err(e) => {
                    &&& e is Io
                    &&& !old(self).source().reliable()
                    &&& final(self).written() == old(self).written()
                    &&& final(self).source().outgoing() == old(self).source().outgoing()
                },
            },
    {
        let left = self.limit.saturating_sub(self.written);
        if buf.len() > left {
            let total = self.written.saturating_add(buf.len());
            return Err(LolbError::LimitExceeded { total, limit: self.limit });
        }
        match self.source.write(buf) {
            Ok(wr) => {
                self.written = self.written + wr;
                Ok(wr)
            },
            Err(e) => Err(LolbError::Io(e)),
        }
    }

    /// The sink.
    pub fn get_ref(&self) -> (r: &S)
        ensures
            *r == self.source(),
    {
        &self.source
    }

    /// The sink, to work on it. What was counted stays counted.
    pub fn get_mut(&mut self) -> (r: &mut S)
        ensures
            *r == old(self).source(),
            final(self).source() == *final(r),
            final(self).written() == old(self).written(),
            final(self).limit() == old(self).limit(),
    {
        &mut self.source
    }

    /// Gives up the writer for its sink.
    pub fn into_inner(self) -> (r: S)
        ensures
            r == self.source(),
    {
        self.source
    }
}

} // verus!
