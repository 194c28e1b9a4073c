//! Request handlers and the device identity.

use vstd::prelude::*;
use crate::icd::{radar_points, point_slice, HelloWorld, LedState, RadarPointSeq, RadarResponse};

verus! {

/// The big-endian value of a byte sequence.
pub open spec fn be_value(bytes: Seq<u8>) -> nat
    decreases bytes.len(),
{
    if bytes.len() == 0 {
        0
    } else {
        be_value(bytes.drop_last()) * 256 + bytes.last() as nat
    }
}

/// `256` to the power `n`.
pub open spec fn pow256(n: nat) -> nat
    decreases n,
{
    if n == 0 {
        1
    } else {
        256 * pow256((n - 1) as nat)
    }
}

proof fn lemma_pow256_monotonic(a: nat, b: nat)
    requires
        a <= b,
    ensures
        pow256(a) <= pow256(b),
    decreases b,
{
    if a < b {
        lemma_pow256_monotonic(a, (b - 1) as nat);
    }
}

proof fn lemma_be_value_bound(bytes: Seq<u8>)
    ensures
        be_value(bytes) < pow256(bytes.len()),
    decreases bytes.len(),
{
    if bytes.len() > 0 {
        lemma_be_value_bound(bytes.drop_last());
        let p = pow256((bytes.len() - 1) as nat);
        assert(be_value(bytes.drop_last()) * 256 + bytes.last() < p * 256) by (nonlinear_arith)
            requires
                be_value(bytes.drop_last()) < p,
                bytes.last() < 256,
        ;
    }
}

/// Reads eight bytes as a big-endian `u64`.
pub fn u64_from_be_bytes(bytes: [u8; 8]) -> (value: u64)
    ensures
        value == be_value(bytes@),
{
    let mut acc: u64 = 0;
    let mut i: usize = 0;
    while i < 8
        invariant
            i <= 8,
            acc == be_value(bytes@.take(i as int)),
        decreases 8 - i,
    {
        proof {
            lemma_be_value_bound(bytes@.take(i as int));
            lemma_pow256_monotonic(i as nat, 7);
            reveal_with_fuel(pow256, 8);
            assert(bytes@.take(i + 1).drop_last() == bytes@.take(i as int));
        }
        acc = acc * 256 + bytes[i] as u64;
        i = i + 1;
    }
    assert(bytes@.take(8) == bytes@);
    acc
}


/// The device's unique ID: that of its external flash chip, read as a big-endian number
/// from the eight bytes the chip reports; `None` when the chip could not be read.
pub fn get_unique_id(flash_id: Option<[u8; 8]>) -> (id: Option<u64>)
    ensures
        match flash_id {
            Some(bytes) => id == Some(be_value(bytes@) as u64),
            None => id is None,
        },
{
    match flash_id {
        Some(bytes) => Some(u64_from_be_bytes(bytes)),
        None => None,
    }
}

/// What the request handlers work with: the device identity and the level driven on the
/// LED pin.
pub struct Context {
    pub unique_id: u64,
    /// Whether the LED pin is driven high.
    pub led_high: bool,
}

/// The pin level that shows `state`: high for on.
pub open spec fn led_level(state: LedState) -> bool {
    state == LedState::On
}

/// The state that a pin level shows: a pin set low is off.
pub open spec fn led_state_of(high: bool) -> LedState {
    if high { LedState::On } else { LedState::Off }
}

/// Answers the unique-id request.
pub fn unique_id(context: &Context) -> (id: u64)
    ensures
        id == context.unique_id,
{
    context.unique_id
}

/// Answers the set-LED request: drives the pin low for off, high for on.
pub fn set_led(context: &mut Context, arg: LedState)
    ensures
        final(context).led_high == led_level(arg),
        final(context).unique_id == old(context).unique_id,
{
    match arg {
        LedState::Off => context.led_high = false,
        LedState::On => context.led_high = true,
    }
}

/// Answers the get-LED request: off when the pin is set low, on otherwise.
pub fn get_led(context: &Context) -> (state: LedState)
    ensures
        state == led_state_of(context.led_high),
{
    match !context.led_high {
        true => LedState::Off,
        false => LedState::On,
    }
}

/// Answers a radar request: with at least two points, the first point's coordinates are
/// returned as `v_r` and the second point's as `sigma`; with fewer, both are zero.
/// No time is measured: `time_us` is zero.
pub fn radar_handler(points: &RadarPointSeq) -> (response: RadarResponse)
    ensures
        radar_points(*points).len() >= 2 ==> {
            let p = radar_points(*points);
            &&& response.v_r@ == seq![p[0].x, p[0].y, p[0].z]
            &&& response.sigma@ == seq![p[1].x, p[1].y, p[1].z]
        },
        radar_points(*points).len() < 2 ==> {
            &&& response.v_r@ == seq![0u64, 0, 0]
            &&& response.sigma@ == seq![0u64, 0, 0]
        },
        response.time_us == 0,
{
    let pts = point_slice(points);
    if pts.len() >= 2 {
        let v_r = [pts[0].x, pts[0].y, pts[0].z];
        let sigma = [pts[1].x, pts[1].y, pts[1].z];
        let response = RadarResponse { v_r, sigma, time_us: 0 };
        assert(response.v_r@ == seq![pts@[0].x, pts@[0].y, pts@[0].z]);
        assert(response.sigma@ == seq![pts@[1].x, pts@[1].y, pts@[1].z]);
        response
    } else {
        let response = RadarResponse { v_r: [0, 0, 0], sigma: [0, 0, 0], time_us: 0 };
        assert(response.v_r@ == seq![0u64, 0, 0]);
        assert(response.sigma@ == seq![0u64, 0, 0]);
        response
    }
}

/// The state of the "sign of life" task: how many greetings it has published.
pub struct LoggingTask {
    pub ctr: u32,
}

impl LoggingTask {
    /// A task that has published nothing yet.
    pub fn new() -> (task: LoggingTask)
        ensures
            task.ctr == 0,
    {
        LoggingTask { ctr: 0 }
    }

    /// One tick of the task: the greeting to publish with its sequence number, given the
    /// ticks elapsed since the task started. The counter then moves on by one, wrapping
    /// round to zero after its limit.
    pub fn tick(&mut self, uptime_ticks: u64) -> (out: (u32, HelloWorld))
        ensures
            out.0 == old(self).ctr,
            out.1 == (HelloWorld { uptime: uptime_ticks }),
            old(self).ctr < u32::MAX ==> final(self).ctr == old(self).ctr + 1,
            old(self).ctr == u32::MAX ==> final(self).ctr == 0,
            (out, final(self).ctr) == tick_spec(old(self).ctr, uptime_ticks),
    {
        let seq_no = self.ctr;
        self.ctr = if self.ctr < u32::MAX { self.ctr + 1 } else { 0 };
        (seq_no, HelloWorld { uptime: uptime_ticks })
    }
}

/// What one tick of the task publishes, and its counter afterwards.
pub open spec fn tick_spec(ctr: u32, uptime_ticks: u64) -> ((u32, HelloWorld), u32) {
    ((ctr, HelloWorld { uptime: uptime_ticks }), if ctr < u32::MAX { (ctr + 1) as u32 } else { 0 })
}

/// What a run of ticks publishes, one greeting per uptime reading, in order, and the
/// counter afterwards.
pub open spec fn tick_run(ctr: u32, uptimes: Seq<u64>) -> (Seq<(u32, HelloWorld)>, u32)
    decreases uptimes.len(),
{
    if uptimes.len() == 0 {
        (Seq::empty(), ctr)
    } else {
        let first = tick_spec(ctr, uptimes[0]);
        let rest = tick_run(first.1, uptimes.drop_first());
        (seq![first.0] + rest.0, rest.1)
    }
}

} // verus!
