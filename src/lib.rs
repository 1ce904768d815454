//! Acquisition and buffering for an oscilloscope that watches variables of a
//! running embedded target through OpenOCD: the GDB remote protocol's
//! framing and receive buffer, OpenOCD's Telnet console and its replies, the
//! packet schemas and decoding of RTT scope channels, the samplers' shared
//! lifecycle, and per-signal time series with range queries.
use vstd::prelude::*;

pub mod buffer;
pub mod find;
pub mod gdbremote;
pub mod memsampler;
pub mod openocd;
pub mod rttsampler;
pub mod sampler;
pub mod utils;

verus! {

} // verus!
