# rtt_rpc

The verified core of a postcard-rpc link between a host and a microcontroller over
SEGGER RTT channels. Messages travel as COBS frames terminated by a zero byte.

- `src/frame.rs`: zero bytes as frame delimiters (`first_zero`, `find_zero`).
- `src/codec.rs`: the calls into the `cobs` crate, with the contracts this library relies on.
- `src/header.rs`: the postcard-rpc message header and its wire bytes.
- `src/host_link.rs`: the host worker's decisions: cutting the probe's byte stream into
  frames, queueing outgoing frames, and short writes.
- `src/device_rx.rs`, `src/device_tx.rs`: the device's receive buffer and send buffers.
- `src/handlers.rs`, `src/icd.rs`: the request handlers and the shared message types
  (floating-point values are carried as their bit patterns).
- `src/laws.rs`: properties relating several operations.
- `app/`: the host program and the firmware glue (probe, RTT channels, GPIO, tasks).
