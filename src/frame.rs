//! Assembling frames from the received byte stream.
//!
//! Bytes are gathered until the `0x00` delimiter; the gathered frame is then
//! decoded. A frame longer than any packet's encoding is dropped while it
//! arrives and reported at its delimiter, so the reader always resumes at
//! the next frame.
use vstd::prelude::*;
use crate::circ_buff::CircBuff;
use crate::cobs::DecodeError;
use crate::packet::{cobs_decode, Packet, MAX_ENCODED_SIZE};

verus! {

/// Most body bytes a frame can have before its delimiter.
pub const MAX_FRAME_BODY: usize = MAX_ENCODED_SIZE - 1;

/// Whether `r` is the outcome `s` with the content as a packet.
pub open spec fn outcome_matches(
    r: Option<Result<Packet, DecodeError>>,
    s: Option<Result<Seq<u8>, DecodeError>>,
) -> bool {
    match (r, s) {
        (None, None) => true,
        (Some(Ok(p)), Some(Ok(d))) => p.wf() && p@ == d,
        (Some(Err(e)), Some(Err(f))) => e == f,
        _ => false,
    }
}

/// The reader's state after byte `b`: the gathered bytes, whether bytes of
/// this frame were dropped, and what the byte completed, if anything.
pub open spec fn feed_step(pending: Seq<u8>, overrun: bool, b: u8) -> (
    Seq<u8>,
    bool,
    Option<Result<Seq<u8>, DecodeError>>,
) {
    if b == 0 {
        (
            Seq::empty(),
            false,
            Some(
                if overrun {
                    Err(DecodeError::PayloadOverflow)
                } else {
                    cobs_decode(pending.push(0))
                },
            ),
        )
    } else if pending.len() >= MAX_FRAME_BODY {
        (Seq::empty(), true, None)
    } else {
        (pending.push(b), overrun, None)
    }
}

/// The reader's state after the bytes `bs`, none of which is a delimiter.
pub open spec fn feed_run(pending: Seq<u8>, overrun: bool, bs: Seq<u8>) -> (Seq<u8>, bool)
    decreases bs.len(),
{
    if bs.len() == 0 {
        (pending, overrun)
    } else {
        let st = feed_run(pending, overrun, bs.drop_last());
        let next = feed_step(st.0, st.1, bs.last());
        (next.0, next.1)
    }
}

/// Index of the first delimiter in `q`, or its length when there is none.
pub open spec fn first_zero(q: Seq<u8>) -> nat
    decreases q.len(),
{
    if q.len() == 0 {
        0
    } else if q[0] == 0 {
        0
    } else {
        1 + first_zero(q.skip(1))
    }
}

/// Gathers the bytes of one frame at a time.
pub struct FrameReader {
    buf: [u8; MAX_FRAME_BODY],
    len: usize,
    overrun: bool,
}

impl FrameReader {
    /// The bytes gathered for the current frame.
    pub closed spec fn pending(&self) -> Seq<u8> {
        self.buf@.take(self.len as int)
    }

    /// Whether bytes of the current frame were dropped.
    pub closed spec fn overrun(&self) -> bool {
        self.overrun
    }

    pub closed spec fn wf(&self) -> bool {
        self.len <= MAX_FRAME_BODY
    }

    pub fn new() -> (r: Self)
        ensures
            r.wf(),
            r.pending() == Seq::<u8>::empty(),
            !r.overrun(),
    {
        let r = FrameReader { buf: [0; MAX_FRAME_BODY], len: 0, overrun: false };
        assert(r.pending() =~= Seq::<u8>::empty());
        r
    }

    /// Takes one received byte; at a delimiter returns the decoded frame.
    pub fn feed(&mut self, b: u8) -> (r: Option<Result<Packet, DecodeError>>)
        requires
            old(self).wf(),
        ensures
            final(self).wf(),
            final(self).pending() == feed_step(old(self).pending(), old(self).overrun(), b).0,
            final(self).overrun() == feed_step(old(self).pending(), old(self).overrun(), b).1,
            outcome_matches(r, feed_step(old(self).pending(), old(self).overrun(), b).2),
    {
        let ghost p = self.pending();
        if b == 0 {
            let result = if self.overrun {
                Err(DecodeError::PayloadOverflow)
            } else {
                let mut frame: Vec<u8> = Vec::new();
                let mut k: usize = 0;
                while k < self.len
                    invariant
                        self.wf(),
                        p == self.pending(),
                        k <= self.len,
                        frame@ == p.take(k as int),
                    decreases self.len - k,
                {
                    frame.push(self.buf[k]);
                    k = k + 1;
                    assert(frame@ =~= p.take(k as int));
                }
                frame.push(0);
                assert(frame@ =~= p.push(0));
                Packet::from_cobs(frame.as_slice())
            };
            self.len = 0;
            self.overrun = false;
            assert(self.pending() =~= Seq::<u8>::empty());
            Some(result)
        } else if self.len >= MAX_FRAME_BODY {
            self.len = 0;
            self.overrun = true;
            assert(self.pending() =~= Seq::<u8>::empty());
            None
        } else {
            self.buf[self.len] = b;
            self.len = self.len + 1;
            assert(self.pending() =~= p.push(b));
            None
        }
    }

    /// Drains `rx` up to and including the first delimiter, and returns the
    /// frame that it completes; with no delimiter in `rx`, gathers all of it
    /// and returns `None`.
    pub fn poll<const N: usize>(&mut self, rx: &mut CircBuff<u8, N>) -> (r: Option<
        Result<Packet, DecodeError>,
    >)
        requires
            old(self).wf(),
            old(rx).wf(),
        ensures
            final(self).wf(),
            final(rx).wf(),
            ({
                let q = old(rx)@;
                let j = first_zero(q) as int;
                let st = feed_run(old(self).pending(), old(self).overrun(), q.take(j));
                if j == q.len() {
                    &&& r is None
                    &&& final(rx)@ == Seq::<u8>::empty()
                    &&& final(self).pending() == st.0
                    &&& final(self).overrun() == st.1
                } else {
                    &&& final(rx)@ == q.skip(j + 1)
                    &&& final(self).pending() == Seq::<u8>::empty()
                    &&& !final(self).overrun()
                    &&& outcome_matches(r, feed_step(st.0, st.1, 0).2)
                }
            }),
    {
        let ghost q = rx@;
        let ghost p0 = self.pending();
        let ghost o0 = self.overrun();
        proof {
            lemma_first_zero(q);
            crate::circ_buff::lemma_capacity(rx);
        }
        let ghost j = first_zero(q) as int;
        let mut i: usize = 0;
        assert(q.skip(0) =~= q);
        assert(q.take(0) =~= Seq::<u8>::empty());
        while rx.size() > 0
            invariant
                self.wf(),
                rx.wf(),
                0 <= j <= q.len(),
                q == old(rx)@,
                p0 == old(self).pending(),
                o0 == old(self).overrun(),
                j == first_zero(q),
                q.len() < N,
                forall|k: int| 0 <= k < j ==> q[k] != 0,
                j < q.len() ==> q[j] == 0,
                i <= j,
                rx@ == q.skip(i as int),
                (self.pending(), self.overrun()) == feed_run(p0, o0, q.take(i as int)),
            decreases rx@.len(),
        {
            let popped = rx.pop();
            let b = match popped {
                Some(x) => x,
                None => 0,
            };
            assert(b == q[i as int]);
            let ghost s0 = self.pending();
            let ghost v0 = self.overrun();
            let r = self.feed(b);
            assert(q.skip(i as int).drop_first() =~= q.skip(i + 1));
            if b == 0 {
                assert(i == j);
                assert(feed_run(p0, o0, q.take(j)) == (s0, v0));
                assert(outcome_matches(r, feed_step(s0, v0, 0).2));
                return r;
            }
            assert(q.take(i + 1).drop_last() =~= q.take(i as int));
            i = i + 1;
        }
        assert(i == j);
        assert(rx@ =~= Seq::<u8>::empty());
        None
    }
}

/// The delimiter index is the first zero of `q`, if `q` has one.
pub proof fn lemma_first_zero(q: Seq<u8>)
    ensures
        first_zero(q) <= q.len(),
        forall|k: int| 0 <= k < first_zero(q) ==> q[k] != 0,
        first_zero(q) < q.len() ==> q[first_zero(q) as int] == 0,
    decreases q.len(),
{
    if q.len() > 0 && q[0] != 0 {
        lemma_first_zero(q.skip(1));
        assert forall|k: int| 0 <= k < first_zero(q) implies q[k] != 0 by {
            if k > 0 {
                assert(q[k] == q.skip(1)[k - 1]);
            }
        }
    }
}

} // verus!
