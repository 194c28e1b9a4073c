//! Verified core of a postcard-rpc link carried over COBS-framed byte streams
//! (SEGGER RTT channels between a debug probe host and a microcontroller).

pub mod icd;
pub mod handlers;
pub mod frame;
pub mod header;
pub mod codec;
pub mod host_link;
pub mod device_rx;
pub mod device_tx;
pub mod laws;
