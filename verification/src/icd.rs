//! The interface types shared by the host and the device.

use vstd::prelude::*;

verus! {

/// The state of the board's LED.
#[derive(Debug, Clone, Copy, PartialEq, Eq, Structural)]
pub enum LedState {
    Off,
    On,
}

/// The "sign of life" message published by the device.
#[derive(Debug, Clone, Copy, PartialEq, Eq, Structural)]
pub struct HelloWorld {
    pub uptime: u64,
}

} // verus!

verus! {

/// One point of a radar point cloud.
///
/// Each field is an `f64` held as its IEEE 754 bit pattern (`f64::to_bits`): the library
/// only selects and copies these values, and a copy of the bits is a copy of the number.
#[derive(Debug, Clone, Copy, PartialEq, Eq, Structural)]
pub struct RadarPoint {
    pub x: u64,
    pub y: u64,
    pub z: u64,
    pub snr_db: u64,
    pub noise_db: u64,
    pub v_doppler_mps: u64,
}

/// A point cloud as it travels on the wire: at most 256 points.
pub type RadarPointSeq = heapless::Vec<RadarPoint, 256>;

/// The answer to a radar request; the `f64` values are held as bit patterns, as in
/// [`RadarPoint`].
#[derive(Debug, Clone, Copy, PartialEq, Eq)]
pub struct RadarResponse {
    pub v_r: [u64; 3],
    pub sigma: [u64; 3],
    pub time_us: u64,
}

/// The fixed-capacity vector of the `heapless` crate.
#[verifier::external_type_specification]
#[verifier::external_body]
#[verifier::reject_recursive_types(T)]
pub struct ExHeaplessVec<T, const N: usize>(heapless::Vec<T, N>);

/// The points that a point cloud holds, in order.
pub uninterp spec fn radar_points(points: heapless::Vec<RadarPoint, 256>) -> Seq<RadarPoint>;

/// Calls `heapless::Vec::as_slice`, which gives the stored points in order; a `heapless`
/// vector never holds more items than its capacity.
#[verifier::external_body]
pub(crate) fn point_slice(points: &RadarPointSeq) -> (slice: &[RadarPoint])
    ensures
        slice@ == radar_points(*points),
        slice@.len() <= 256,
{
    points.as_slice()
}

} // verus!
