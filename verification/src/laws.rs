//! Properties that relate several operations of the library.

use vstd::prelude::*;
use crate::frame::{first_zero, lemma_first_zero_concat};
use crate::device_rx::{completed, decode_outcome, rx_outcome, rx_reads, rx_segments, RxOutcome};
use crate::host_link::{host_deframe, host_reads};
use crate::handlers::{led_level, led_state_of, tick_run};
use crate::icd::{HelloWorld, LedState};
use crate::frame::{lemma_first_zero, zero_free};
use crate::header::{header_bytes, HeaderKey, HeaderSeq, WireHeader};

verus! {

/// The host cuts frames out of the byte stream the same way however the stream is split
/// into reads: reading `a` and then `b` yields the frames of reading `a + b` at once, in
/// the same order, and leaves the same bytes staged.
pub proof fn law_deframe_any_split(staging: Seq<u8>, a: Seq<u8>, b: Seq<u8>)
    ensures
        ({
            let first = host_deframe(staging, a);
            let second = host_deframe(first.1, b);
            host_deframe(staging, a + b) == (first.0 + second.0, second.1)
        }),
    decreases a.len(),
{
    let pa = first_zero(a) as int;
    lemma_first_zero_concat(a, b);
    let first = host_deframe(staging, a);
    let second = host_deframe(first.1, b);
    if pa >= a.len() {
        let pb = first_zero(b) as int;
        assert(first == (Seq::<Seq<u8>>::empty(), staging + a));
        assert(first.0 + second.0 == second.0);
        if pb >= b.len() {
            assert(staging + (a + b) == (staging + a) + b);
        } else {
            let p = a.len() + pb;
            assert((a + b).take(p + 1) == a + b.take(pb + 1));
            assert(staging + (a + b).take(p + 1) == (staging + a) + b.take(pb + 1));
            assert((a + b).skip(p + 1) == b.skip(pb + 1));
        }
    } else {
        let rest_a = a.skip(pa + 1);
        law_deframe_any_split(Seq::empty(), rest_a, b);
        assert((a + b).take(pa + 1) == a.take(pa + 1));
        assert((a + b).skip(pa + 1) == rest_a + b);
        let r = host_deframe(Seq::empty(), rest_a);
        let s2 = host_deframe(r.1, b);
        match crate::codec::cobs_vec_decoding(staging + a.take(pa + 1)) {
            Some(d) => {
                assert(seq![d] + (r.0 + s2.0) == (seq![d] + r.0) + s2.0);
            },
            None => {},
        }
    }
}

/// The host's frames depend only on the bytes received, not on how they were cut into
/// reads: any sequence of reads yields the frames, and leaves staged the bytes, of one read
/// of all of them.
pub proof fn law_deframe_reads(staging: Seq<u8>, reads: Seq<Seq<u8>>)
    ensures
        host_reads(staging, reads) == host_deframe(staging, reads.flatten()),
    decreases reads.len(),
{
    if reads.len() == 0 {
        assert(staging + Seq::<u8>::empty() == staging);
        assert(host_deframe(staging, Seq::<u8>::empty()) == (Seq::<Seq<u8>>::empty(), staging));
    } else {
        let first = host_deframe(staging, reads[0]);
        let rest = reads.drop_first();
        assert(reads.flatten() == reads[0] + rest.flatten());
        law_deframe_reads(first.1, rest);
        law_deframe_any_split(staging, reads[0], rest.flatten());
    }
}

/// Frames that each read back alone as one message read back, sent one after another,
/// as those messages in order, with nothing left staged.
pub proof fn law_deframe_frame_sequence(frames: Seq<Seq<u8>>, msgs: Seq<Seq<u8>>)
    requires
        frames.len() == msgs.len(),
        forall|i: int| 0 <= i < frames.len() ==> #[trigger] host_deframe(Seq::empty(), frames[i])
            == (seq![msgs[i]], Seq::<u8>::empty()),
    ensures
        host_deframe(Seq::empty(), frames.flatten()) == (msgs, Seq::<u8>::empty()),
    decreases frames.len(),
{
    if frames.len() == 0 {
        assert(host_deframe(Seq::empty(), Seq::<u8>::empty()) == (Seq::<Seq<u8>>::empty(), Seq::<u8>::empty()));
        assert(msgs == Seq::<Seq<u8>>::empty());
    } else {
        let rest = frames.drop_first();
        assert forall|i: int| 0 <= i < rest.len() implies #[trigger] host_deframe(Seq::empty(), rest[i])
            == (seq![msgs.drop_first()[i]], Seq::<u8>::empty()) by {
            assert(rest[i] == frames[i + 1]);
        }
        law_deframe_frame_sequence(rest, msgs.drop_first());
        assert(host_deframe(Seq::empty(), frames[0]) == (seq![msgs[0]], Seq::<u8>::empty()));
        law_deframe_any_split(Seq::empty(), frames[0], rest.flatten());
        assert(seq![msgs[0]] + msgs.drop_first() == msgs);
    }
}

/// The device cuts the same frames out of `a + b` as out of `a`, and then out of the bytes
/// that `a` left after its last zero followed by `b`.
pub proof fn law_rx_segments_split(a: Seq<u8>, b: Seq<u8>)
    ensures
        ({
            let sa = rx_segments(a);
            let sb = rx_segments(sa.1 + b);
            rx_segments(a + b) == (sa.0 + sb.0, sb.1)
        }),
    decreases a.len(),
{
    let pa = first_zero(a) as int;
    lemma_first_zero_concat(a, b);
    if pa >= a.len() {
        assert(Seq::<RxOutcome>::empty() + rx_segments(a + b).0 == rx_segments(a + b).0);
    } else {
        let rest = a.skip(pa + 1);
        law_rx_segments_split(rest, b);
        assert((a + b).take(pa + 1) == a.take(pa + 1));
        assert((a + b).skip(pa + 1) == rest + b);
        let d = decode_outcome(a.take(pa + 1));
        let sr = rx_segments(rest);
        let sb = rx_segments(sr.1 + b);
        assert(seq![d] + (sr.0 + sb.0) == (seq![d] + sr.0) + sb.0);
    }
}

/// The outcomes that complete a frame, of two runs one after the other, are those of the
/// first followed by those of the second.
proof fn lemma_completed_concat(a: Seq<RxOutcome>, b: Seq<RxOutcome>)
    ensures
        completed(a + b) == completed(a) + completed(b),
    decreases a.len(),
{
    if a.len() == 0 {
        assert(a + b == b);
        assert(Seq::<RxOutcome>::empty() + completed(b) == completed(b));
    } else {
        assert((a + b).drop_first() == a.drop_first() + b);
        assert((a + b)[0] == a[0]);
        lemma_completed_concat(a.drop_first(), b);
        let ca = completed(a.drop_first());
        assert(seq![a[0]] + (ca + completed(b)) == (seq![a[0]] + ca) + completed(b));
    }
}

/// Reads one after another behave as the first run of reads followed by the second.
proof fn lemma_rx_reads_concat(pending: Seq<u8>, draining: bool, r1: Seq<Seq<u8>>, r2: Seq<Seq<u8>>)
    ensures
        ({
            let a = rx_reads(pending, draining, r1);
            let b = rx_reads(a.1, a.2, r2);
            rx_reads(pending, draining, r1 + r2) == (a.0 + b.0, b.1, b.2)
        }),
    decreases r1.len(),
{
    if r1.len() == 0 {
        assert(r1 + r2 == r2);
        assert(Seq::<RxOutcome>::empty() + rx_reads(pending, draining, r2).0
            == rx_reads(pending, draining, r2).0);
    } else {
        assert((r1 + r2)[0] == r1[0]);
        assert((r1 + r2).drop_first() == r1.drop_first() + r2);
        let first = rx_outcome(pending, draining, r1[0]);
        lemma_rx_reads_concat(first.1, first.2, r1.drop_first(), r2);
        let a = rx_reads(first.1, first.2, r1.drop_first());
        let b = rx_reads(a.1, a.2, r2);
        assert(seq![first.0] + (a.0 + b.0) == (seq![first.0] + a.0) + b.0);
    }
}

/// One read takes frames out of the byte stream in order: the frame it completes, if any,
/// followed by the frames complete among the bytes it leaves pending, are the frames of the
/// pending bytes and the read together, and the same bytes follow the last zero.
pub proof fn law_rx_read(pending: Seq<u8>, data: Seq<u8>)
    ensures
        ({
            let r = rx_outcome(pending, false, data);
            let whole = rx_segments(pending + data);
            &&& !r.2
            &&& completed(seq![r.0]) + rx_segments(r.1).0 == whole.0
            &&& rx_segments(r.1).1 == whole.1
        }),
{
    let all = pending + data;
    let p = first_zero(all) as int;
    let r = rx_outcome(pending, false, data);
    assert(seq![r.0].drop_first() == Seq::<RxOutcome>::empty());
    assert(seq![r.0][0] == r.0);
    assert(completed(Seq::<RxOutcome>::empty()) == Seq::<RxOutcome>::empty());
    if p >= all.len() {
        assert(r.0 is Idle || r.0 is Partial);
        assert(completed(seq![r.0]) == Seq::<RxOutcome>::empty());
        assert(Seq::<RxOutcome>::empty() + rx_segments(all).0 == rx_segments(all).0);
    } else {
        assert(r.0 == decode_outcome(all.take(p + 1)));
        assert(r.0 is Frame || r.0 is BadFrame);
        assert(completed(seq![r.0]) == seq![r.0] + Seq::<RxOutcome>::empty());
        assert(seq![r.0] + Seq::<RxOutcome>::empty() == seq![r.0]);
    }
}

/// No frame is lost, repeated or reordered on the device, however the byte stream is cut
/// into reads: the frames completed by a run of reads, followed by the frames complete among
/// the bytes left pending, are the frames of the pending bytes and all the reads together,
/// and the same bytes follow the last zero.
pub proof fn law_rx_reads(pending: Seq<u8>, reads: Seq<Seq<u8>>)
    ensures
        ({
            let r = rx_reads(pending, false, reads);
            let whole = rx_segments(pending + reads.flatten());
            &&& !r.2
            &&& completed(r.0) + rx_segments(r.1).0 == whole.0
            &&& rx_segments(r.1).1 == whole.1
        }),
    decreases reads.len(),
{
    if reads.len() == 0 {
        assert(pending + Seq::<u8>::empty() == pending);
        assert(Seq::<RxOutcome>::empty() + rx_segments(pending).0 == rx_segments(pending).0);
    } else {
        let first = rx_outcome(pending, false, reads[0]);
        let rest = reads.drop_first();
        let pr = pending + reads[0];
        law_rx_read(pending, reads[0]);
        law_rx_reads(first.1, rest);
        let rr = rx_reads(first.1, false, rest);
        lemma_completed_concat(seq![first.0], rr.0);
        assert(reads.flatten() == reads[0] + rest.flatten());
        assert(pending + reads.flatten() == pr + rest.flatten());
        law_rx_segments_split(pr, rest.flatten());
        law_rx_segments_split(first.1, rest.flatten());
        let c0 = completed(seq![first.0]);
        let s1 = rx_segments(first.1).0;
        let t = rx_segments(rx_segments(pr).1 + rest.flatten()).0;
        assert((c0 + s1) + t == c0 + (s1 + t));
        assert(c0 + (completed(rr.0) + rx_segments(rr.1).0) == (c0 + completed(rr.0)) + rx_segments(rr.1).0);
    }
}

/// `n` reads that each bring nothing.
pub open spec fn empty_reads(n: nat) -> Seq<Seq<u8>> {
    Seq::new(n, |i: int| Seq::<u8>::empty())
}

/// A frame already complete among the pending bytes is returned without waiting for more
/// bytes: reads that bring nothing return the complete frames pending, one per read, in
/// order; with at least as many such reads as there are such frames, all of them come out
/// and only the bytes after the last zero stay pending.
pub proof fn law_rx_empty_reads(pending: Seq<u8>, n: nat)
    requires
        n >= rx_segments(pending).0.len(),
    ensures
        ({
            let r = rx_reads(pending, false, empty_reads(n));
            &&& completed(r.0) == rx_segments(pending).0
            &&& r.1 == rx_segments(pending).1
            &&& !r.2
        }),
    decreases n,
{
    let p = first_zero(pending) as int;
    assert(pending + Seq::<u8>::empty() == pending);
    if n == 0 {
        assert(empty_reads(0) == Seq::<Seq<u8>>::empty());
        if p < pending.len() {
            assert(rx_segments(pending).0.len() >= 1);
        }
    } else {
        let reads = empty_reads(n);
        assert(reads[0] == Seq::<u8>::empty());
        assert(reads.drop_first() == empty_reads((n - 1) as nat));
        let first = rx_outcome(pending, false, Seq::<u8>::empty());
        if p >= pending.len() {
            law_rx_empty_reads(pending, (n - 1) as nat);
            let rr = rx_reads(pending, false, empty_reads((n - 1) as nat));
            assert((seq![first.0] + rr.0).drop_first() == rr.0);
        } else {
            let rest = pending.skip(p + 1);
            law_rx_empty_reads(rest, (n - 1) as nat);
            let rr = rx_reads(rest, false, empty_reads((n - 1) as nat));
            assert((seq![first.0] + rr.0).drop_first() == rr.0);
            assert((seq![first.0] + rr.0)[0] == first.0);
        }
    }
}

/// The device cuts frames that each hold one message, sent one after another, into those
/// messages in order, with nothing left over.
pub proof fn lemma_rx_segments_sequence(frames: Seq<Seq<u8>>, msgs: Seq<Seq<u8>>)
    requires
        frames.len() == msgs.len(),
        forall|i: int| 0 <= i < frames.len() ==> #[trigger] rx_segments(frames[i])
            == (seq![RxOutcome::Frame(msgs[i])], Seq::<u8>::empty()),
    ensures
        rx_segments(frames.flatten()) == (frame_outcomes(msgs), Seq::<u8>::empty()),
    decreases frames.len(),
{
    if frames.len() == 0 {
        assert(frame_outcomes(msgs) == Seq::<RxOutcome>::empty());
        assert(rx_segments(Seq::<u8>::empty()) == (Seq::<RxOutcome>::empty(), Seq::<u8>::empty()));
    } else {
        let rest = frames.drop_first();
        let mrest = msgs.drop_first();
        assert forall|i: int| 0 <= i < rest.len() implies #[trigger] rx_segments(rest[i])
            == (seq![RxOutcome::Frame(mrest[i])], Seq::<u8>::empty()) by {
            assert(rest[i] == frames[i + 1]);
        }
        lemma_rx_segments_sequence(rest, mrest);
        assert(rx_segments(frames[0]) == (seq![RxOutcome::Frame(msgs[0])], Seq::<u8>::empty()));
        law_rx_segments_split(frames[0], rest.flatten());
        assert(Seq::<u8>::empty() + rest.flatten() == rest.flatten());
        assert(frame_outcomes(msgs) == seq![RxOutcome::Frame(msgs[0])] + frame_outcomes(mrest));
    }
}

/// The outcomes that hand out `msgs`, in order.
pub open spec fn frame_outcomes(msgs: Seq<Seq<u8>>) -> Seq<RxOutcome> {
    msgs.map_values(|m: Seq<u8>| RxOutcome::Frame(m))
}

/// Frames that each reach the device alone as one message reach it intact when sent one
/// after another, however the byte stream is cut into reads: the reads, followed by at least
/// as many reads that bring nothing as there are frames, complete exactly the messages, in
/// order, none lost or repeated, and leave nothing pending.
pub proof fn law_rx_frame_sequence(frames: Seq<Seq<u8>>, msgs: Seq<Seq<u8>>, reads: Seq<Seq<u8>>, extra: nat)
    requires
        frames.len() == msgs.len(),
        forall|i: int| 0 <= i < frames.len() ==> #[trigger] rx_segments(frames[i])
            == (seq![RxOutcome::Frame(msgs[i])], Seq::<u8>::empty()),
        reads.flatten() == frames.flatten(),
        extra >= frames.len(),
    ensures
        ({
            let r = rx_reads(Seq::empty(), false, reads + empty_reads(extra));
            &&& completed(r.0) == frame_outcomes(msgs)
            &&& r.1 == Seq::<u8>::empty()
            &&& !r.2
        }),
{
    lemma_rx_segments_sequence(frames, msgs);
    law_rx_reads(Seq::empty(), reads);
    assert(Seq::<u8>::empty() + reads.flatten() == reads.flatten());
    let a = rx_reads(Seq::empty(), false, reads);
    let all = frame_outcomes(msgs);
    assert(all.len() == msgs.len());
    assert(completed(a.0) + rx_segments(a.1).0 == all);
    assert(rx_segments(a.1).0.len() <= all.len());
    law_rx_empty_reads(a.1, extra);
    lemma_rx_reads_concat(Seq::empty(), false, reads, empty_reads(extra));
    let b = rx_reads(a.1, a.2, empty_reads(extra));
    lemma_completed_concat(a.0, b.0);
}

/// Reading the LED gives back what was last set: the pin level that `set_led` drives for
/// a state is read by `get_led` as that state, and the other way round.
pub proof fn law_led_roundtrip(state: LedState, high: bool)
    ensures
        led_state_of(led_level(state)) == state,
        led_level(led_state_of(high)) == high,
{
}

/// The "sign of life" task publishes one greeting per tick, numbered on from its counter:
/// in a run that does not pass the counter's limit, the n-th greeting carries sequence
/// number `ctr + n` and the n-th uptime reading. Sequence numbers strictly increase along
/// the run, and the greetings' uptimes never decrease when the readings do not.
pub proof fn law_tick_run(ctr: u32, uptimes: Seq<u64>)
    requires
        ctr + uptimes.len() <= u32::MAX + 1,
    ensures
        ({
            let run = tick_run(ctr, uptimes).0;
            &&& run.len() == uptimes.len()
            &&& forall|n: int| 0 <= n < run.len()
                ==> #[trigger] run[n] == ((ctr + n) as u32, HelloWorld { uptime: uptimes[n] })
            &&& forall|k: int, l: int| 0 <= k < l < run.len() ==> #[trigger] run[k].0 < #[trigger] run[l].0
            &&& (forall|k: int, l: int| 0 <= k < l < uptimes.len() ==> #[trigger] uptimes[k] <= #[trigger] uptimes[l])
                ==> forall|k: int, l: int| 0 <= k < l < run.len()
                    ==> #[trigger] run[k].1.uptime <= #[trigger] run[l].1.uptime
        }),
    decreases uptimes.len(),
{
    let run = tick_run(ctr, uptimes).0;
    if uptimes.len() > 0 {
        let next: u32 = if ctr < u32::MAX { (ctr + 1) as u32 } else { 0 };
        let rest = uptimes.drop_first();
        law_tick_run(next, rest);
        let rr = tick_run(next, rest).0;
        assert forall|n: int| 0 <= n < run.len()
            implies #[trigger] run[n] == ((ctr + n) as u32, HelloWorld { uptime: uptimes[n] }) by {
            if n > 0 {
                assert(run[n] == rr[n - 1]);
                assert(rest[n - 1] == uptimes[n]);
                assert(ctr < u32::MAX);
            }
        }
    }
    assert forall|k: int, l: int| 0 <= k < l < run.len() implies #[trigger] run[k].0 < #[trigger] run[l].0 by {
        assert(run[k] == ((ctr + k) as u32, HelloWorld { uptime: uptimes[k] }));
        assert(run[l] == ((ctr + l) as u32, HelloWorld { uptime: uptimes[l] }));
    }
    if forall|k: int, l: int| 0 <= k < l < uptimes.len() ==> #[trigger] uptimes[k] <= #[trigger] uptimes[l] {
        assert forall|k: int, l: int| 0 <= k < l < run.len()
            implies #[trigger] run[k].1.uptime <= #[trigger] run[l].1.uptime by {
            assert(run[k] == ((ctr + k) as u32, HelloWorld { uptime: uptimes[k] }));
            assert(run[l] == ((ctr + l) as u32, HelloWorld { uptime: uptimes[l] }));
            assert(uptimes[k] <= uptimes[l]);
        }
    }
}

/// A read while an overlong frame is being dropped drops it: a read that brings bytes
/// without a zero completes nothing, keeps the pending bytes and goes on dropping; a read
/// that brings a zero ends the dropped frame there as one bad frame, stops dropping, and
/// keeps only the bytes after that zero.
pub proof fn law_rx_draining_read(pending: Seq<u8>, data: Seq<u8>)
    ensures
        data.len() > 0 && zero_free(data)
            ==> rx_outcome(pending, true, data) == (RxOutcome::Discarded, pending, true),
        forall|p: int| 0 <= p < data.len() && data[p] == 0 && zero_free(#[trigger] data.take(p))
            ==> rx_outcome(pending, true, data) == (RxOutcome::BadFrame, data.skip(p + 1), false),
{
    lemma_first_zero(data);
    assert(data.take(data.len() as int) == data);
    assert forall|p: int| 0 <= p < data.len() && data[p] == 0 && zero_free(#[trigger] data.take(p))
        implies p == first_zero(data) by {
        assert(crate::frame::is_first_zero(data, p));
    }
    if data.len() > 0 && zero_free(data) {
        assert(crate::frame::is_first_zero(data, data.len() as int));
    }
}

/// Dropping an overlong frame lasts until its zero, however its bytes are cut into reads:
/// reads that hold no zero complete nothing and leave the receiver dropping; once the reads
/// hold a zero, what they complete, followed by the frames complete among the bytes left
/// pending, is one bad frame for the dropped one and then exactly the frames of the bytes
/// after that first zero, and the same bytes follow the last zero.
pub proof fn law_rx_drain_reads(pending: Seq<u8>, reads: Seq<Seq<u8>>)
    ensures
        ({
            let all = reads.flatten();
            let r = rx_reads(pending, true, reads);
            &&& zero_free(all) ==> completed(r.0) == Seq::<RxOutcome>::empty() && r.1 == pending && r.2
            &&& !zero_free(all) ==> {
                let after = all.skip(first_zero(all) as int + 1);
                &&& !r.2
                &&& completed(r.0) + rx_segments(r.1).0 == seq![RxOutcome::BadFrame] + rx_segments(after).0
                &&& rx_segments(r.1).1 == rx_segments(after).1
            }
        }),
    decreases reads.len(),
{
    let all = reads.flatten();
    lemma_first_zero(all);
    if reads.len() == 0 {
        assert(completed(Seq::<RxOutcome>::empty()) == Seq::<RxOutcome>::empty());
        assert(zero_free(all));
    } else {
        let d = reads[0];
        let rest = reads.drop_first();
        let rf = rest.flatten();
        assert(all == d + rf);
        law_rx_draining_read(pending, d);
        lemma_first_zero(d);
        lemma_first_zero(rf);
        lemma_first_zero_concat(d, rf);
        let first = rx_outcome(pending, true, d);
        let pd = first_zero(d) as int;
        if pd >= d.len() {
            // no zero in this read: still dropping, nothing completed
            assert(d.take(d.len() as int) == d);
            assert(zero_free(d));
            assert(first.1 == pending && first.2);
            assert(first.0 is Idle || first.0 is Discarded);
            law_rx_drain_reads(pending, rest);
            let rr = rx_reads(pending, true, rest);
            assert((seq![first.0] + rr.0).drop_first() == rr.0);
            assert((seq![first.0] + rr.0)[0] == first.0);
            assert(completed(seq![first.0] + rr.0) == completed(rr.0));
            if zero_free(all) {
                assert forall|i: int| 0 <= i < rf.len() implies rf[i] != 0 by {
                    assert(all[d.len() + i] == rf[i]);
                }
            } else {
                if zero_free(rf) {
                    assert forall|i: int| 0 <= i < all.len() implies all[i] != 0 by {
                        if i >= d.len() {
                            assert(all[i] == rf[i - d.len()]);
                        }
                    }
                }
                let q = first_zero(rf) as int;
                assert(rf.take(q) == rf.take(q));
                assert(q < rf.len()) by {
                    if q >= rf.len() {
                        assert(rf.take(q) == rf);
                    }
                }
                assert(all.skip(first_zero(all) as int + 1) == rf.skip(q + 1));
            }
        } else {
            // the dropped frame ends in this read
            assert(d[pd] == 0);
            assert(first == (RxOutcome::BadFrame, d.skip(pd + 1), false));
            assert(!zero_free(all)) by {
                assert(all[pd] == d[pd]);
            }
            law_rx_reads(d.skip(pd + 1), rest);
            let rr = rx_reads(d.skip(pd + 1), false, rest);
            assert((seq![first.0] + rr.0).drop_first() == rr.0);
            assert((seq![first.0] + rr.0)[0] == first.0);
            assert(completed(seq![first.0] + rr.0) == seq![RxOutcome::BadFrame] + completed(rr.0));
            assert(all.skip(pd + 1) == d.skip(pd + 1) + rf);
            let after = all.skip(pd + 1);
            assert(seq![RxOutcome::BadFrame] + (completed(rr.0) + rx_segments(rr.1).0)
                == (seq![RxOutcome::BadFrame] + completed(rr.0)) + rx_segments(rr.1).0);
        }
    }
}

/// The header reads back as the values it was written from: the discriminant's top two
/// bits give the key's size (1, 2, 4, 8 bytes as 0 to 3), the next two the sequence
/// number's size (1, 2, 4 bytes as 0 to 2), its low four bits are clear; the key's bytes
/// follow in order, and the sequence number's bytes after them, read little-endian, give
/// the sequence number.
pub proof fn law_header_reads_back(hdr: WireHeader)
    ensures
        ({
            let b = header_bytes(hdr);
            let kl: int = match hdr.key {
                HeaderKey::Key1(_) => 1,
                HeaderKey::Key2(_) => 2,
                HeaderKey::Key4(_) => 4,
                HeaderKey::Key8(_) => 8,
            };
            let sl: int = match hdr.seq_no {
                HeaderSeq::Seq1(_) => 1,
                HeaderSeq::Seq2(_) => 2,
                HeaderSeq::Seq4(_) => 4,
            };
            &&& b.len() == 1 + kl + sl
            &&& b[0] / 64 == (match hdr.key {
                HeaderKey::Key1(_) => 0int,
                HeaderKey::Key2(_) => 1,
                HeaderKey::Key4(_) => 2,
                HeaderKey::Key8(_) => 3,
            })
            &&& b[0] / 16 % 4 == (match hdr.seq_no {
                HeaderSeq::Seq1(_) => 0int,
                HeaderSeq::Seq2(_) => 1,
                HeaderSeq::Seq4(_) => 2,
            })
            &&& b[0] % 16 == 0
            &&& match hdr.key {
                HeaderKey::Key1(k) => b[1] == k,
                HeaderKey::Key2(k) => b.subrange(1, 3) == k@,
                HeaderKey::Key4(k) => b.subrange(1, 5) == k@,
                HeaderKey::Key8(k) => b.subrange(1, 9) == k@,
            }
            &&& match hdr.seq_no {
                HeaderSeq::Seq1(s) => b[1 + kl] == s,
                HeaderSeq::Seq2(s) => b[1 + kl] + 256 * b[2 + kl] == s,
                HeaderSeq::Seq4(s) => b[1 + kl] + 256 * b[2 + kl] + 65536 * b[3 + kl]
                    + 16777216 * b[4 + kl] == s,
            }
        }),
{
    let b = header_bytes(hdr);
    match hdr.seq_no {
        HeaderSeq::Seq1(s) => {},
        HeaderSeq::Seq2(s) => {
            assert(((s % 256) as u8) + 256 * ((s / 256) as u8) == s) by (bit_vector);
        },
        HeaderSeq::Seq4(s) => {
            assert(((s % 256) as u8) + 256 * ((s / 256 % 256) as u8) + 65536 * ((s / 65536 % 256) as u8)
                + 16777216 * ((s / 16777216) as u8) == s) by (bit_vector);
        },
    }
}

} // verus!
