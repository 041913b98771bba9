//! The event data model: tagged payloads and the envelope that pairs a
//! payload with the channel it is published on. Pure data, no logic.

use vstd::prelude::*;

verus! {

/// The payload carried on a channel: a closed tagged union of event kinds.
/// `Heartbeat` is the synthetic liveness signal, stamped with the time it
/// was produced; `Data` carries application-defined content.
#[derive(Debug, PartialEq, Eq)]
pub enum Payload {
    Heartbeat { time: u64 },
    Data { text: String },
}

/// The mathematical model of a `Payload`.
pub enum PayloadView {
    Heartbeat { time: u64 },
    Data { text: Seq<char> },
}

impl View for Payload {
    type V = PayloadView;

    open spec fn view(&self) -> PayloadView {
        match self {
            Payload::Heartbeat { time } => PayloadView::Heartbeat { time: *time },
            Payload::Data { text } => PayloadView::Data { text: text@ },
        }
    }
}

impl Payload {
    /// An explicit copy. Every subscriber of an event receives a value equal
    /// to the one that was published: no subscriber may observe a payload
    /// that differs from what the publisher handed in.
    pub fn dup(&self) -> (r: Payload)
        ensures
            r@ == self@,
    {
        match self {
            Payload::Heartbeat { time } => Payload::Heartbeat { time: *time },
            Payload::Data { text } => Payload::Data { text: text.clone() },
        }
    }
}

/// A payload paired with the name of the channel it was published on.
/// Created by a publisher, consumed by the broker, and re-emitted unchanged
/// to each current subscriber of that channel.
#[derive(Debug, PartialEq, Eq)]
pub struct Envelope {
    pub channel: String,
    pub payload: Payload,
}

/// The mathematical model of an `Envelope`.
pub struct EnvelopeView {
    pub channel: Seq<char>,
    pub payload: PayloadView,
}

impl View for Envelope {
    type V = EnvelopeView;

    open spec fn view(&self) -> EnvelopeView {
        EnvelopeView { channel: self.channel@, payload: self.payload@ }
    }
}

impl Envelope {
    /// An explicit copy: the same channel name and the same payload.
    pub fn dup(&self) -> (r: Envelope)
        ensures
            r@ == self@,
    {
        Envelope { channel: self.channel.clone(), payload: self.payload.dup() }
    }
}

} // verus!
