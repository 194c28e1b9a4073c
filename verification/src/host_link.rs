//! The host side of the link: the decisions of the probe worker loop.
//!
//! The worker reads the device's up channel, cuts the byte stream into COBS frames at
//! zero bytes and decodes them, and writes queued outgoing messages, COBS-encoded and
//! zero-terminated, to the device's down channel, keeping what a short write left over.

use vstd::prelude::*;
use crate::frame::{find_zero, first_zero, lemma_first_zero_of_terminated, zero_free};
use crate::codec::{cobs_vec_decoding, cobs_vec_encoding, decode_to_vec, encode_to_vec};
use crate::device_rx::{lemma_rx_segments_one, rx_segments, RxOutcome};

verus! {

/// The frames decoded from `chunk` when `staging` holds the bytes received since the last
/// terminator, and what stays staged afterwards.
///
/// Each zero byte ends a frame: the staged bytes and the chunk up to and including that
/// zero are decoded with `cobs::decode_vec`; a frame that does not decode is dropped.
/// Bytes after the last zero stay staged.
pub open spec fn host_deframe(staging: Seq<u8>, chunk: Seq<u8>) -> (Seq<Seq<u8>>, Seq<u8>)
    decreases chunk.len(),
{
    let p = first_zero(chunk) as int;
    if p >= chunk.len() {
        (Seq::empty(), staging + chunk)
    } else {
        let rest = host_deframe(Seq::empty(), chunk.skip(p + 1));
        match cobs_vec_decoding(staging + chunk.take(p + 1)) {
            Some(d) => (seq![d] + rest.0, rest.1),
            None => (rest.0, rest.1),
        }
    }
}

/// A zero-terminated frame whose body holds no zero byte, received with nothing staged,
/// yields exactly what `cobs::decode_vec` makes of it and leaves nothing staged.
pub proof fn lemma_deframe_one(body: Seq<u8>, msg: Seq<u8>)
    requires
        zero_free(body),
        cobs_vec_decoding(body + seq![0u8]) == Some(msg),
    ensures
        host_deframe(Seq::empty(), body + seq![0u8]) == (seq![msg], Seq::<u8>::empty()),
{
    let frame = body + seq![0u8];
    lemma_first_zero_of_terminated(body);
    assert(frame.take(body.len() as int + 1) == frame);
    assert(Seq::<u8>::empty() + frame == frame);
    assert(frame.skip(body.len() as int + 1) == Seq::<u8>::empty());
    assert(host_deframe(Seq::empty(), Seq::<u8>::empty()) == (Seq::<Seq<u8>>::empty(), Seq::<u8>::empty()));
    assert(seq![msg] + Seq::<Seq<u8>>::empty() == seq![msg]);
}

/// The frames decoded from a sequence of reads, in order, and what stays staged after the
/// last of them.
pub open spec fn host_reads(staging: Seq<u8>, reads: Seq<Seq<u8>>) -> (Seq<Seq<u8>>, Seq<u8>)
    decreases reads.len(),
{
    if reads.len() == 0 {
        (Seq::empty(), staging)
    } else {
        let first = host_deframe(staging, reads[0]);
        let rest = host_reads(first.1, reads.drop_first());
        (first.0 + rest.0, rest.1)
    }
}

/// The views of a list of byte vectors.
pub open spec fn byte_vecs_view(v: Seq<Vec<u8>>) -> Seq<Seq<u8>> {
    v.map_values(|f: Vec<u8>| f@)
}

/// Appends `src[from..to]` to `dst`.
fn append_range(dst: &mut Vec<u8>, src: &[u8], from: usize, to: usize)
    requires
        from <= to <= src@.len(),
    ensures
        final(dst)@ == old(dst)@ + src@.subrange(from as int, to as int),
{
    let mut i = from;
    while i < to
        invariant
            from <= i <= to <= src@.len(),
            dst@ == old(dst)@ + src@.subrange(from as int, i as int),
        decreases to - i,
    {
        dst.push(src[i]);
        i = i + 1;
        proof {
            assert(dst@ == old(dst)@ + src@.subrange(from as int, i as int));
        }
    }
}

/// The state the worker keeps between its rounds.
pub struct HostLink {
    /// Bytes received from the device since the last frame terminator.
    staging: Vec<u8>,
    /// An encoded outgoing frame, or what is left of it after short writes.
    pending_out: Option<Vec<u8>>,
}

impl HostLink {
    /// The bytes received since the last frame terminator.
    pub closed spec fn staged(&self) -> Seq<u8> {
        self.staging@
    }

    /// The bytes of an outgoing frame that are still to be written, if any.
    pub closed spec fn pending(&self) -> Option<Seq<u8>> {
        match self.pending_out {
            Some(v) => Some(v@),
            None => None,
        }
    }

    /// A link with nothing staged and nothing to send.
    pub fn new() -> (link: HostLink)
        ensures
            link.staged() == Seq::<u8>::empty(),
            link.pending() is None,
    {
        HostLink { staging: Vec::new(), pending_out: None }
    }

    /// Takes the bytes just read from the device's up channel; returns the frames that
    /// they complete, decoded, in order.
    pub fn on_uplink_bytes(&mut self, chunk: &[u8]) -> (frames: Vec<Vec<u8>>)
        ensures
            byte_vecs_view(frames@) == host_deframe(old(self).staged(), chunk@).0,
            final(self).staged() == host_deframe(old(self).staged(), chunk@).1,
            final(self).pending() == old(self).pending(),
    {
        let mut frames: Vec<Vec<u8>> = Vec::new();
        let n = chunk.len();
        let mut start: usize = 0;
        let ghost whole = host_deframe(self.staging@, chunk@);
        assert(chunk@.skip(0) == chunk@);
        while start < n
            invariant
                n == chunk@.len(),
                start <= n,
                self.pending() == old(self).pending(),
                whole == host_deframe(old(self).staged(), chunk@),
                whole.0 == byte_vecs_view(frames@) + host_deframe(self.staging@, chunk@.skip(start as int)).0,
                whole.1 == host_deframe(self.staging@, chunk@.skip(start as int)).1,
            decreases n - start,
        {
            let pos = find_zero(chunk, start);
            let ghost window = chunk@.skip(start as int);
            let ghost before = host_deframe(self.staging@, window);
            let ghost staged_before = self.staging@;
            if pos < n {
                append_range(&mut self.staging, chunk, start, pos + 1);
                assert(self.staging@ == staged_before + window.take(pos - start + 1));
                assert(window.skip(pos - start + 1) == chunk@.skip(pos + 1));
                let decoded = decode_to_vec(self.staging.as_slice());
                let ghost old_frames = frames@;
                match decoded {
                    Some(f) => {
                        frames.push(f);
                        assert(byte_vecs_view(frames@) == byte_vecs_view(old_frames) + seq![f@]);
                    },
                    None => {},
                }
                self.staging.clear();
                start = pos + 1;
            } else {
                append_range(&mut self.staging, chunk, start, n);
                assert(window.subrange(0, n - start) == window);
                start = n;
                assert(chunk@.skip(n as int) == Seq::<u8>::empty());
            }
        }
        assert(chunk@.skip(n as int) == Seq::<u8>::empty());
        frames
    }

    /// Whether the worker may queue the next outgoing message.
    pub fn wants_outgoing(&self) -> (ready: bool)
        ensures
            ready == (self.pending() is None),
    {
        self.pending_out.is_none()
    }

    /// Queues `msg` for the device: COBS-encoded with `cobs::encode_vec` and terminated
    /// by a zero byte.
    ///
    /// The frame reaches the device intact: the device cuts it out of the byte stream as
    /// the one message `msg`, with nothing left over.
    pub fn queue_outgoing(&mut self, msg: &[u8])
        requires
            old(self).pending() is None,
        ensures
            final(self).pending() == Some(cobs_vec_encoding(msg@) + seq![0u8]),
            final(self).staged() == old(self).staged(),
            rx_segments(cobs_vec_encoding(msg@) + seq![0u8])
                == (seq![RxOutcome::Frame(msg@)], Seq::<u8>::empty()),
    {
        let mut out = encode_to_vec(msg);
        let ghost encoded = out@;
        out.push(0);
        proof {
            lemma_rx_segments_one(encoded, msg@);
        }
        self.pending_out = Some(out);
    }

    /// Hands out the outgoing frame, or its rest, for the worker to write.
    pub fn take_pending(&mut self) -> (tx: Option<Vec<u8>>)
        ensures
            match tx {
                Some(v) => old(self).pending() == Some(v@),
                None => old(self).pending() is None,
            },
            final(self).pending() is None,
            final(self).staged() == old(self).staged(),
    {
        self.pending_out.take()
    }

    /// Takes back `tx` after `written` of its bytes went out; returns whether that was
    /// progress.
    ///
    /// What was written followed by what stays pending is `tx`: nothing is lost or sent
    /// twice.
    pub fn after_write(&mut self, tx: Vec<u8>, written: usize) -> (progress: bool)
        requires
            old(self).pending() is None,
            written <= tx@.len(),
        ensures
            progress == (written == tx@.len() || written != 0),
            written == tx@.len() ==> final(self).pending() is None,
            written != tx@.len() ==> final(self).pending() == Some(tx@.skip(written as int)),
            final(self).pending() matches Some(rest) ==> tx@.take(written as int) + rest == tx@,
            final(self).staged() == old(self).staged(),
    {
        let mut tx = tx;
        if written == tx.len() {
            true
        } else if written != 0 {
            let later = tx.split_off(written);
            self.pending_out = Some(later);
            true
        } else {
            assert(tx@.skip(0) == tx@);
            self.pending_out = Some(tx);
            false
        }
    }
}

/// Whether a worker round changed nothing: no bytes came in and no write made progress.
/// The worker then pauses before its next round.
pub fn round_was_idle(received: usize, tx_progress: bool) -> (idle: bool)
    ensures
        idle == (received == 0 && !tx_progress),
{
    received == 0 && !tx_progress
}

} // verus!
