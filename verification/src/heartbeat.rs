//! The heartbeat: a periodic synthetic event proving liveness. The timer
//! itself lives outside this crate; each tick hands in the current time and
//! gets back the envelope to publish on the reserved broadcast channel.
//! From the broker's point of view the heartbeat driver is just another
//! publisher.

use vstd::prelude::*;
use crate::event::{Envelope, EnvelopeView, Payload, PayloadView};

verus! {

/// The name of the reserved broadcast channel heartbeats are published on.
pub open spec fn broadcast_channel_name() -> Seq<char> {
    "all"@
}

/// The reserved broadcast channel's name, for subscribing and publishing.
pub fn broadcast_channel() -> (s: &'static str)
    ensures
        s@ == broadcast_channel_name(),
{
    "all"
}

/// The envelope one heartbeat tick publishes: a heartbeat payload stamped
/// with the tick's time, addressed to the reserved broadcast channel.
pub open spec fn spec_heartbeat(now: u64) -> EnvelopeView {
    EnvelopeView {
        channel: broadcast_channel_name(),
        payload: PayloadView::Heartbeat { time: now },
    }
}

/// Builds the heartbeat envelope for one tick at time `now`.
pub fn heartbeat_envelope(now: u64) -> (e: Envelope)
    ensures
        e@ == spec_heartbeat(now),
{
    let channel: String = broadcast_channel().to_owned();
    Envelope { channel, payload: Payload::Heartbeat { time: now } }
}

/// Whether a configured heartbeat period is acceptable: a positive number
/// of seconds. Anything else is a fatal startup configuration error.
pub fn interval_valid(seconds: u64) -> (r: bool)
    ensures
        r == (seconds > 0),
{
    seconds > 0
}

} // verus!
