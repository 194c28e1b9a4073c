//! The device's receive side: COBS frames arriving over the RTT down channel.
//!
//! Received bytes are stored behind the bytes still pending in a fixed buffer. When the
//! pending bytes and the read hold a zero byte, everything up to the first zero is decoded
//! in place, the decoded frame is handed out, and the bytes after that zero move to the
//! front of the buffer, to be looked at by the next call. When the buffer fills up without
//! a zero byte, its contents are dropped and so is every byte up to the next zero: that
//! frame is too long to receive.

use vstd::prelude::*;
use crate::frame::{find_zero, first_zero, lemma_first_zero, lemma_first_zero_of_terminated, zero_free};
use crate::codec::{cobs_in_place_decoding, decode_prefix_in_place};

verus! {

/// What a read of the down channel led to.
pub enum RxEvent {
    /// The read brought no bytes and no frame was complete.
    Idle,
    /// The bytes were stored; no frame is complete yet.
    Partial,
    /// The bytes belong to a frame too long for the buffer and were dropped.
    Discarded,
    /// A frame was completed and decoded.
    Frame(Vec<u8>),
    /// A frame was completed but did not decode, or was too long; it was dropped.
    BadFrame,
}

/// The meaning of an [`RxEvent`].
pub ghost enum RxOutcome {
    Idle,
    Partial,
    Discarded,
    Frame(Seq<u8>),
    BadFrame,
}

impl View for RxEvent {
    type V = RxOutcome;

    open spec fn view(&self) -> RxOutcome {
        match self {
            RxEvent::Idle => RxOutcome::Idle,
            RxEvent::Partial => RxOutcome::Partial,
            RxEvent::Discarded => RxOutcome::Discarded,
            RxEvent::Frame(f) => RxOutcome::Frame(f@),
            RxEvent::BadFrame => RxOutcome::BadFrame,
        }
    }
}

/// What decoding a zero-terminated segment with `cobs::decode_in_place` gives.
pub open spec fn decode_outcome(segment: Seq<u8>) -> RxOutcome {
    match cobs_in_place_decoding(segment) {
        Some(d) => RxOutcome::Frame(d),
        None => RxOutcome::BadFrame,
    }
}

/// The outcome of reading `data` while `pending` bytes wait in the buffer, or while an
/// overlong frame is being dropped (`draining`), and the pending bytes and the draining
/// flag afterwards.
///
/// The pending bytes followed by the read are searched for their first zero: everything
/// up to and including it is decoded with `cobs::decode_in_place`, and everything after it
/// stays pending, to be searched by the next call (so one call completes at most one frame,
/// and a read that brings nothing still completes a frame that is waiting). While draining,
/// the read up to its first zero is dropped instead.
pub open spec fn rx_outcome(pending: Seq<u8>, draining: bool, data: Seq<u8>) -> (RxOutcome, Seq<u8>, bool) {
    if draining {
        let p = first_zero(data) as int;
        if data.len() == 0 {
            (RxOutcome::Idle, pending, true)
        } else if p >= data.len() {
            (RxOutcome::Discarded, pending, true)
        } else {
            (RxOutcome::BadFrame, data.skip(p + 1), false)
        }
    } else {
        let all = pending + data;
        let p = first_zero(all) as int;
        if p >= all.len() {
            (if data.len() == 0 { RxOutcome::Idle } else { RxOutcome::Partial }, all, false)
        } else {
            (decode_outcome(all.take(p + 1)), all.skip(p + 1), false)
        }
    }
}

/// The decoding of every zero-terminated segment of `stream`, in order, and the bytes after
/// the last zero.
pub open spec fn rx_segments(stream: Seq<u8>) -> (Seq<RxOutcome>, Seq<u8>)
    decreases stream.len(),
{
    let p = first_zero(stream) as int;
    if p >= stream.len() {
        (Seq::empty(), stream)
    } else {
        let rest = rx_segments(stream.skip(p + 1));
        (seq![decode_outcome(stream.take(p + 1))] + rest.0, rest.1)
    }
}

/// The outcomes that completed a frame, good or bad, in order.
pub open spec fn completed(outcomes: Seq<RxOutcome>) -> Seq<RxOutcome>
    decreases outcomes.len(),
{
    if outcomes.len() == 0 {
        Seq::empty()
    } else {
        let rest = completed(outcomes.drop_first());
        match outcomes[0] {
            RxOutcome::Frame(_) | RxOutcome::BadFrame => seq![outcomes[0]] + rest,
            _ => rest,
        }
    }
}

/// The outcomes of a sequence of reads, in order, and the pending bytes and the draining
/// flag after the last of them.
pub open spec fn rx_reads(pending: Seq<u8>, draining: bool, reads: Seq<Seq<u8>>) -> (Seq<RxOutcome>, Seq<u8>, bool)
    decreases reads.len(),
{
    if reads.len() == 0 {
        (Seq::empty(), pending, draining)
    } else {
        let first = rx_outcome(pending, draining, reads[0]);
        let rest = rx_reads(first.1, first.2, reads.drop_first());
        (seq![first.0] + rest.0, rest.1, rest.2)
    }
}

/// A zero-terminated frame whose body holds no zero byte and decodes to `msg` is cut out
/// of the stream as that one message, with nothing left over.
pub proof fn lemma_rx_segments_one(body: Seq<u8>, msg: Seq<u8>)
    requires
        zero_free(body),
        cobs_in_place_decoding(body + seq![0u8]) == Some(msg),
    ensures
        rx_segments(body + seq![0u8]) == (seq![RxOutcome::Frame(msg)], Seq::<u8>::empty()),
{
    let frame = body + seq![0u8];
    lemma_first_zero_of_terminated(body);
    assert(frame.take(body.len() as int + 1) == frame);
    assert(frame.skip(body.len() as int + 1) == Seq::<u8>::empty());
    assert(rx_segments(Seq::<u8>::empty()) == (Seq::<RxOutcome>::empty(), Seq::<u8>::empty()));
    assert(seq![RxOutcome::Frame(msg)] + Seq::<RxOutcome>::empty() == seq![RxOutcome::Frame(msg)]);
}

/// The first `len` bytes of `buf`, copied.
fn copy_prefix(buf: &Vec<u8>, len: usize) -> (out: Vec<u8>)
    requires
        len <= buf@.len(),
    ensures
        out@ == buf@.take(len as int),
{
    let mut out: Vec<u8> = Vec::new();
    let mut k: usize = 0;
    while k < len
        invariant
            k <= len <= buf@.len(),
            out@ == buf@.take(k as int),
        decreases len - k,
    {
        out.push(buf[k]);
        k = k + 1;
        proof {
            assert(out@ == buf@.take(k as int));
        }
    }
    out
}

/// Moves `buf[start..end]` to the front of `buf`.
fn move_to_front(buf: &mut Vec<u8>, start: usize, end: usize)
    requires
        1 <= start <= end <= old(buf)@.len(),
    ensures
        final(buf)@.len() == old(buf)@.len(),
        final(buf)@.take(end - start) == old(buf)@.subrange(start as int, end as int),
{
    let ghost moved = old(buf)@.subrange(start as int, end as int);
    let ct = end - start;
    let mut j: usize = 0;
    assert(moved.skip(0) == moved);
    while j < ct
        invariant
            j <= ct == end - start,
            1 <= start <= end <= buf@.len() == old(buf)@.len(),
            moved == old(buf)@.subrange(start as int, end as int),
            buf@.subrange(start + j, end as int) == moved.skip(j as int),
            buf@.take(j as int) == moved.take(j as int),
        decreases ct - j,
    {
        let ghost prev = buf@;
        let v = buf[start + j];
        assert(v == moved[j as int]) by {
            assert(prev.subrange(start + j, end as int)[0] == prev[start + j]);
        }
        buf.set(j, v);
        proof {
            assert(buf@.take(j + 1) == prev.take(j as int).push(v));
            assert(moved.take(j + 1) == moved.take(j as int).push(moved[j as int]));
            assert(buf@.subrange(start + j + 1, end as int) == prev.subrange(start + j, end as int).drop_first());
            assert(moved.skip(j + 1) == moved.skip(j as int).drop_first());
        }
        j = j + 1;
    }
    assert(moved.take(ct as int) == moved);
}

/// The receive buffer and how much of it holds pending bytes.
pub struct RttRx {
    buf: Vec<u8>,
    used: usize,
    draining: bool,
}

impl RttRx {
    #[verifier::type_invariant]
    spec fn well_formed(&self) -> bool {
        &&& self.used <= self.buf@.len()
        &&& self.draining ==> self.used == 0
    }

    /// The received bytes that no frame has taken yet.
    pub closed spec fn pending(&self) -> Seq<u8> {
        self.buf@.take(self.used as int)
    }

    /// Whether the bytes up to the next zero are being dropped.
    pub closed spec fn draining(&self) -> bool {
        self.draining
    }

    /// The size of the buffer.
    pub closed spec fn capacity(&self) -> nat {
        self.buf@.len()
    }

    /// A receiver over `buf`, with nothing pending.
    pub fn new(buf: Vec<u8>) -> (rx: RttRx)
        ensures
            rx.pending() == Seq::<u8>::empty(),
            !rx.draining(),
            rx.capacity() == buf@.len(),
    {
        RttRx { buf, used: 0, draining: false }
    }

    /// How many bytes the next read may bring.
    pub fn window_len(&self) -> (n: usize)
        ensures
            n == self.capacity() - self.pending().len(),
    {
        proof {
            use_type_invariant(self);
        }
        self.buf.len() - self.used
    }

    /// How many received bytes are pending.
    pub fn pending_len(&self) -> (n: usize)
        ensures
            n == self.pending().len(),
    {
        proof {
            use_type_invariant(self);
        }
        self.used
    }

    /// When the buffer is full and holds no complete frame, drops its contents and starts
    /// dropping every byte up to the next zero; returns whether it did.
    pub fn drain_if_full(&mut self) -> (drained: bool)
        ensures
            drained == (old(self).pending().len() == old(self).capacity() && zero_free(old(self).pending())),
            drained ==> final(self).pending() == Seq::<u8>::empty() && final(self).draining(),
            !drained ==> final(self).pending() == old(self).pending()
                && final(self).draining() == old(self).draining(),
            final(self).capacity() == old(self).capacity(),
    {
        proof {
            use_type_invariant(&*self);
        }
        if self.used == self.buf.len() && find_zero(self.buf.as_slice(), 0) == self.used {
            proof {
                assert(self.buf@.skip(0) == self.buf@);
                assert(self.buf@.take(self.used as int) == self.buf@);
                lemma_first_zero(self.buf@);
            }
            self.used = 0;
            self.draining = true;
            true
        } else {
            proof {
                if self.used == self.buf@.len() {
                    assert(self.buf@.skip(0) == self.buf@);
                    assert(self.buf@.take(self.used as int) == self.buf@);
                    lemma_first_zero(self.buf@);
                }
            }
            false
        }
    }

    /// Takes the bytes that one read of the down channel brought.
    pub fn on_read(&mut self, data: &[u8]) -> (event: RxEvent)
        requires
            data@.len() <= old(self).capacity() - old(self).pending().len(),
        ensures
            (event@, final(self).pending(), final(self).draining())
                == rx_outcome(old(self).pending(), old(self).draining(), data@),
            final(self).capacity() == old(self).capacity(),
    {
        proof {
            use_type_invariant(&*self);
        }
        let used = self.used;
        let n = data.len();
        let ghost pending0 = self.buf@.take(used as int);
        let cap = self.buf.len();
        let draining = self.draining;
        self.draining = false;
        self.used = 0;
        let mut buf = Vec::new();
        std::mem::swap(&mut buf, &mut self.buf);
        // Store the read behind the pending bytes.
        let mut i: usize = 0;
        while i < n
            invariant
                i <= n == data@.len(),
                used + n <= buf@.len() == cap,
                buf@.take(used as int) == pending0,
                buf@.subrange(used as int, used + i) == data@.take(i as int),
            decreases n - i,
        {
            buf.set(used + i, data[i]);
            i = i + 1;
            proof {
                assert(buf@.subrange(used as int, used + i) == data@.take(i as int));
                assert(buf@.take(used as int) == pending0);
            }
        }
        assert(buf@.take(used + n) == pending0 + data@) by {
            assert(buf@.take(used + n) == buf@.take(used as int) + buf@.subrange(used as int, used + n));
            assert(data@.take(n as int) == data@);
        }
        let total = used + n;
        if draining {
            let p = find_zero(data, 0);
            assert(data@.skip(0) == data@);
            if n == 0 || p == n {
                self.buf = buf;
                self.draining = true;
                return if n == 0 { RxEvent::Idle } else { RxEvent::Discarded };
            }
            assert(buf@.subrange(p + 1, total as int) == data@.skip(p + 1)) by {
                assert(buf@.subrange(0, total as int) == data@);
            }
            move_to_front(&mut buf, p + 1, total);
            self.buf = buf;
            self.used = total - (p + 1);
            return RxEvent::BadFrame;
        }
        let (filled, _) = buf.as_slice().split_at(total);
        let p = find_zero(filled, 0);
        assert(filled@.skip(0) == filled@);
        if p == total {
            self.buf = buf;
            self.used = total;
            return if n == 0 { RxEvent::Idle } else { RxEvent::Partial };
        }
        assert(buf@.take(p + 1) == (pending0 + data@).take(p + 1)) by {
            assert(buf@.take(p + 1) == buf@.take(total as int).take(p + 1));
        }
        let ghost before_decode = buf@;
        let decoded = decode_prefix_in_place(&mut buf, p + 1);
        let event = match decoded {
            Some(b) => RxEvent::Frame(copy_prefix(&buf, b)),
            None => RxEvent::BadFrame,
        };
        assert(buf@.subrange(p + 1, total as int) == (pending0 + data@).skip(p + 1)) by {
            assert(buf@.skip(p + 1) == before_decode.skip(p + 1));
            assert(buf@.subrange(p + 1, total as int) == before_decode.skip(p + 1).take(total - (p + 1)));
            assert(before_decode.subrange(p + 1, total as int) == before_decode.take(total as int).skip(p + 1));
        }
        move_to_front(&mut buf, p + 1, total);
        self.buf = buf;
        self.used = total - (p + 1);
        event
    }
}

} // verus!
