//! Sender-side core of a small reliable-datagram transport: an outbound
//! packet queue with congestion/receive-window accounting, a smoothed
//! round-trip-time estimator, and the decision procedure for which packet
//! (queued data or a synthesized bare acknowledgement) must go out next.

use vstd::prelude::*;

pub mod clock;
pub mod out_queue;
pub mod packet;
pub mod util;

verus! {

/// Most bytes either side is ever willing to hold un-acknowledged.
pub const MAX_WINDOW_SIZE: usize = 64 * 1024;

} // verus!
