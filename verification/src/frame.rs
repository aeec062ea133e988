//! Null-delimited frame codec for the control channel.
//!
//! The wire carries records separated by a single `0x00` byte. A record
//! together with its terminator may occupy at most [`crate::MAX_FRAME`]
//! bytes; longer records and empty records are protocol errors that close
//! the connection. The decoder buffers input incrementally and can be
//! downgraded to a raw byte stream without losing bytes it has already
//! buffered past the last frame boundary.

use vstd::prelude::*;

verus! {

/// Fatal framing errors; either one closes the underlying connection.
#[derive(Debug, PartialEq, Eq, Structural)]
pub enum FrameError {
    /// A record plus its terminator would exceed `MAX_FRAME` bytes.
    Oversize,
    /// A zero-length record (two consecutive null bytes on the wire).
    Empty,
}

/// Index of the first `0x00` byte of `s`, or `-1` if none occurs.
pub open spec fn first_zero(s: Seq<u8>) -> int
    decreases s.len(),
{
    if s.len() == 0 {
        -1
    } else if s[0] == 0u8 {
        0
    } else {
        let r = first_zero(s.skip(1));
        if r < 0 {
            -1
        } else {
            r + 1
        }
    }
}

/// `first_zero` finds a zero when one exists, and nothing before it.
pub proof fn lemma_first_zero(s: Seq<u8>)
    ensures
        first_zero(s) >= 0 ==> {
            &&& first_zero(s) < s.len()
            &&& s[first_zero(s)] == 0u8
            &&& forall|j: int| 0 <= j < first_zero(s) ==> s[j] != 0u8
        },
        first_zero(s) < 0 ==> forall|j: int| 0 <= j < s.len() ==> s[j] != 0u8,
    decreases s.len(),
{
    if s.len() > 0 && s[0] != 0u8 {
        lemma_first_zero(s.skip(1));
        assert forall|j: int| 0 <= j < s.len() && first_zero(s) < 0 implies s[j] != 0u8 by {
            if j > 0 {
                assert(s.skip(1)[j - 1] == s[j]);
            }
        }
        if first_zero(s) >= 0 {
            assert(s.skip(1)[first_zero(s) - 1] == s[first_zero(s)]);
            assert forall|j: int| 0 <= j < first_zero(s) implies s[j] != 0u8 by {
                if j > 0 {
                    assert(s.skip(1)[j - 1] == s[j]);
                }
            }
        }
    }
}

/// Wraps a payload into one wire frame: the payload followed by `0x00`.
///
/// Succeeds exactly when payload and terminator fit in `MAX_FRAME` bytes,
/// so every frame this function emits satisfies `len(payload) + 1 <= 512`.
pub fn encode_frame(payload: &Vec<u8>) -> (r: Result<Vec<u8>, FrameError>)
    ensures
        r is Ok <==> payload@.len() + 1 <= crate::MAX_FRAME,
        r is Ok ==> r->Ok_0@ == payload@.push(0u8),
        r is Ok ==> r->Ok_0@.len() <= crate::MAX_FRAME,
        r is Err ==> r->Err_0 == FrameError::Oversize,
{
    if payload.len() >= crate::MAX_FRAME {
        return Err(FrameError::Oversize);
    }
    let mut out: Vec<u8> = Vec::new();
    let mut i: usize = 0;
    while i < payload.len()
        invariant
            i <= payload.len(),
            out@ == payload@.subrange(0, i as int),
        decreases payload.len() - i,
    {
        out.push(payload[i]);
        i = i + 1;
    }
    assert(out@ == payload@);
    out.push(0u8);
    Ok(out)
}

/// Incremental decoder over a stream of frames.
///
/// Conservation invariant: every byte ever pushed is accounted for — it was
/// either emitted inside a decoded record, consumed as that record's
/// terminator, or still sits in the buffer awaiting more input.
pub struct FrameDecoder {
    buf: Vec<u8>,
    /// All bytes ever pushed into the decoder.
    pushed: Ghost<Seq<u8>>,
    /// The frames decoded so far, each with its terminator, in order.
    consumed: Ghost<Seq<u8>>,
}

impl FrameDecoder {
    /// Bytes buffered past the last consumed frame boundary.
    pub closed spec fn buffered(&self) -> Seq<u8> {
        self.buf@
    }

    /// All bytes ever pushed into the decoder.
    pub closed spec fn stream(&self) -> Seq<u8> {
        self.pushed@
    }

    /// Concatenation of all decoded records, each followed by its terminator.
    pub closed spec fn decoded(&self) -> Seq<u8> {
        self.consumed@
    }

    /// Conservation: pushed bytes = decoded records + buffered remainder.
    pub closed spec fn wf(&self) -> bool {
        self.pushed@ == self.consumed@ + self.buf@
    }

    pub fn new() -> (r: FrameDecoder)
        ensures
            r.wf(),
            r.buffered() == Seq::<u8>::empty(),
            r.stream() == Seq::<u8>::empty(),
            r.decoded() == Seq::<u8>::empty(),
    {
        FrameDecoder { buf: Vec::new(), pushed: Ghost(Seq::empty()), consumed: Ghost(Seq::empty()) }
    }

    /// Feed bytes read from the underlying stream into the decoder.
    pub fn push_bytes(&mut self, chunk: &[u8])
        requires
            old(self).wf(),
        ensures
            final(self).wf(),
            final(self).buffered() == old(self).buffered() + chunk@,
            final(self).stream() == old(self).stream() + chunk@,
            final(self).decoded() == old(self).decoded(),
    {
        let ghost chunk_seq = chunk@;
        let mut i: usize = 0;
        while i < chunk.len()
            invariant
                i <= chunk.len(),
                chunk@ == chunk_seq,
                self.buf@ == old(self).buf@ + chunk_seq.subrange(0, i as int),
                self.pushed == old(self).pushed,
                self.consumed == old(self).consumed,
            decreases chunk.len() - i,
        {
            self.buf.push(chunk[i]);
            assert(self.buf@ =~= old(self).buf@ + chunk_seq.subrange(0, i + 1));
            i = i + 1;
        }
        assert(chunk_seq.subrange(0, chunk_seq.len() as int) =~= chunk_seq);
        proof {
            self.pushed@ = self.pushed@ + chunk_seq;
        }
        assert(self.pushed@ =~= self.consumed@ + self.buf@);
    }

    /// Try to take the next complete record out of the buffer.
    ///
    /// With `n` the position of the first null byte in the buffer:
    /// a record of 1 to `MAX_FRAME - 1` payload bytes (`0 < n < MAX_FRAME`)
    /// is removed and returned; `n == 0` is an empty record and fatal;
    /// a null at `n >= MAX_FRAME`, or no null in a buffer already holding
    /// `MAX_FRAME` bytes, is an oversized record and fatal; otherwise more
    /// input is needed and the buffer is left as it is.
    pub fn next_frame(&mut self) -> (r: Result<Option<Vec<u8>>, FrameError>)
        requires
            old(self).wf(),
        ensures
            final(self).wf(),
            final(self).stream() == old(self).stream(),
            ({
                let n = first_zero(old(self).buffered());
                &&& (r matches Ok(Some(f)) <==> 0 < n < crate::MAX_FRAME)
                &&& (r matches Ok(Some(f)) ==> {
                    &&& f@ == old(self).buffered().subrange(0, n)
                    &&& f@.len() + 1 <= crate::MAX_FRAME
                    &&& final(self).buffered() == old(self).buffered().skip(n + 1)
                    &&& final(self).decoded() == old(self).decoded() + f@.push(0u8)
                })
                &&& (n == 0 ==> r == Result::<Option<Vec<u8>>, FrameError>::Err(FrameError::Empty))
                &&& (n >= crate::MAX_FRAME || (n < 0 && old(self).buffered().len() >= crate::MAX_FRAME)
                    ==> r == Result::<Option<Vec<u8>>, FrameError>::Err(FrameError::Oversize))
                &&& (n < 0 && old(self).buffered().len() < crate::MAX_FRAME
                    ==> r == Result::<Option<Vec<u8>>, FrameError>::Ok(None))
                &&& ((r is Err || (r matches Ok(None))) ==> *final(self) == *old(self))
            }),
    {
        proof {
            lemma_first_zero(self.buf@);
        }
        let ghost n = first_zero(self.buf@);
        // scan for the first null byte
        let mut i: usize = 0;
        while i < self.buf.len() && self.buf[i] != 0u8
            invariant
                i <= self.buf.len(),
                forall|j: int| 0 <= j < i ==> self.buf@[j] != 0u8,
                self == old(self),
            decreases self.buf.len() - i,
        {
            i = i + 1;
        }
        let found: bool = i < self.buf.len();
        proof {
            if found {
                assert(n == i as int);
            } else {
                assert(n < 0);
            }
        }
        if !found {
            if self.buf.len() >= crate::MAX_FRAME {
                return Err(FrameError::Oversize);
            }
            return Ok(None);
        }
        if i == 0 {
            return Err(FrameError::Empty);
        }
        if i >= crate::MAX_FRAME {
            return Err(FrameError::Oversize);
        }
        // copy out the record, then drop it and its terminator from the buffer
        let mut rec: Vec<u8> = Vec::new();
        let mut j: usize = 0;
        while j < i
            invariant
                j <= i,
                i < self.buf.len(),
                rec@ == self.buf@.subrange(0, j as int),
                self == old(self),
            decreases i - j,
        {
            rec.push(self.buf[j]);
            j = j + 1;
        }
        let mut rest: Vec<u8> = Vec::new();
        let mut k: usize = i + 1;
        while k < self.buf.len()
            invariant
                i + 1 <= k <= self.buf.len(),
                rest@ == self.buf@.subrange(i + 1, k as int),
                self == old(self),
            decreases self.buf.len() - k,
        {
            rest.push(self.buf[k]);
            k = k + 1;
        }
        assert(rest@ =~= self.buf@.skip(i + 1));
        assert(rec@ == old(self).buffered().subrange(0, n));
        let ghost obuf = old(self).buf@;
        self.buf = rest;
        proof {
            self.consumed@ = self.consumed@ + rec@.push(0u8);
            assert(obuf =~= rec@.push(0u8) + obuf.skip(n + 1));
            assert(self.pushed@ =~= self.consumed@ + self.buf@);
        }
        Ok(Some(rec))
    }

    /// End of stream: whatever is still buffered is the final record,
    /// arriving without its terminator. An empty buffer is a clean end;
    /// a remnant too large for one record is fatal, as mid-stream.
    pub fn eof_frame(&mut self) -> (r: Result<Option<Vec<u8>>, FrameError>)
        requires
            old(self).wf(),
        ensures
            final(self).wf(),
            final(self).stream() == old(self).stream(),
            old(self).buffered().len() == 0 ==> r == Result::<Option<Vec<u8>>, FrameError>::Ok(
                None,
            ) && *final(self) == *old(self),
            0 < old(self).buffered().len() < crate::MAX_FRAME ==> (r matches Ok(f) && (f matches
                Some(v) && v@ == old(self).buffered())) && final(self).buffered()
                == Seq::<u8>::empty() && final(self).decoded() == old(self).decoded() + old(
                self,
            ).buffered(),
            old(self).buffered().len() >= crate::MAX_FRAME ==> r == Result::<
                Option<Vec<u8>>,
                FrameError,
            >::Err(FrameError::Oversize) && *final(self) == *old(self),
    {
        if self.buf.len() == 0 {
            return Ok(None);
        }
        if self.buf.len() >= crate::MAX_FRAME {
            return Err(FrameError::Oversize);
        }
        let mut rec: Vec<u8> = Vec::new();
        core::mem::swap(&mut rec, &mut self.buf);
        proof {
            self.consumed@ = self.consumed@ + rec@;
            assert(self.pushed@ =~= self.consumed@ + self.buf@);
        }
        Ok(Some(rec))
    }

    /// Downgrade to a raw byte stream: hand back every byte the decoder had
    /// buffered past the last consumed frame boundary. The caller must write
    /// these bytes to the peer before splicing, or the head of the data
    /// stream is lost.
    pub fn into_leftover(self) -> (r: Vec<u8>)
        ensures
            r@ == self.buffered(),
            self.wf() ==> self.stream() == self.decoded() + r@,
    {
        self.buf
    }
}

} // verus!
