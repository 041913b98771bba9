//! The per-connection actor: one instance per client stream. It owns that
//! client's outbound frame queue and its termination flag, translates each
//! client command into the matching broker operation, and forwards
//! broker-delivered events to the client in the order the broker produced
//! them. It holds no channel-registry state of its own.

use vstd::prelude::*;
use crate::bus::{
    BusError, Delivery, DeliveryView, EventBus, ChannelView, deliveries_for, deliveries_view,
    has_channel, spec_disconnect, spec_fanout, spec_publish, spec_replay, spec_subscribe,
    spec_unsubscribe, lemma_deliveries_for_empty, lemma_deliveries_for_push,
};
use crate::event::{Envelope, EnvelopeView};

verus! {

/// One structured message on a connection's outbound stream: a delivered
/// event, or the acknowledgement that one of the client's own commands was
/// refused.
#[derive(Debug, PartialEq, Eq)]
pub enum Frame {
    Delivery(Envelope),
    CommandError { channel: String, error: BusError },
}

/// The mathematical model of a `Frame`.
pub enum FrameView {
    Delivery(EnvelopeView),
    CommandError { channel: Seq<char>, error: BusError },
}

impl View for Frame {
    type V = FrameView;

    open spec fn view(&self) -> FrameView {
        match self {
            Frame::Delivery(env) => FrameView::Delivery(env@),
            Frame::CommandError { channel, error } => FrameView::CommandError {
                channel: channel@,
                error: *error,
            },
        }
    }
}

/// The model of a whole outbound queue.
pub open spec fn frames_view(fs: Seq<Frame>) -> Seq<FrameView> {
    fs.map_values(|f: Frame| f@)
}

/// Delivered envelopes as outbound frames, in order.
pub open spec fn delivery_frames(es: Seq<EnvelopeView>) -> Seq<FrameView> {
    es.map_values(|e: EnvelopeView| FrameView::Delivery(e))
}

/// One client command, decoded by the transport and handed over in arrival
/// order. Each is translated one-for-one into the broker operation of the
/// same name.
#[derive(Debug, PartialEq, Eq)]
pub enum Command {
    Subscribe { channel: String },
    Unsubscribe { channel: String },
    Publish { envelope: Envelope },
}

/// The mathematical model of a `Command`.
pub enum CommandView {
    Subscribe { channel: Seq<char> },
    Unsubscribe { channel: Seq<char> },
    Publish { envelope: EnvelopeView },
}

impl View for Command {
    type V = CommandView;

    open spec fn view(&self) -> CommandView {
        match self {
            Command::Subscribe { channel } => CommandView::Subscribe { channel: channel@ },
            Command::Unsubscribe { channel } => CommandView::Unsubscribe { channel: channel@ },
            Command::Publish { envelope } => CommandView::Publish { envelope: envelope@ },
        }
    }
}

/// The per-connection actor state: the connection's identity, the frames
/// queued for its client in emission order, and whether the connection has
/// terminated.
pub struct Connection {
    pub id: u64,
    pub outbound: Vec<Frame>,
    pub terminated: bool,
}

/// The mathematical model of a `Connection`.
pub struct ConnectionView {
    pub id: u64,
    pub outbound: Seq<FrameView>,
    pub terminated: bool,
}

impl View for Connection {
    type V = ConnectionView;

    open spec fn view(&self) -> ConnectionView {
        ConnectionView {
            id: self.id,
            outbound: frames_view(self.outbound@),
            terminated: self.terminated,
        }
    }
}

impl Connection {
    /// A freshly connected client: nothing queued, not terminated.
    pub fn new(id: u64) -> (c: Connection)
        ensures
            c@ == (ConnectionView { id, outbound: Seq::<FrameView>::empty(), terminated: false }),
    {
        let c = Connection { id, outbound: Vec::new(), terminated: false };
        proof {
            assert(frames_view(c.outbound@) =~= Seq::<FrameView>::empty());
        }
        c
    }

    /// A broker-delivered event: queued for the client behind everything
    /// already queued, so deliveries reach the client in broker order. A
    /// terminated connection accepts nothing.
    pub fn on_delivery(&mut self, env: Envelope)
        ensures
            final(self)@.id == old(self)@.id,
            final(self)@.terminated == old(self)@.terminated,
            !old(self)@.terminated ==> final(self)@.outbound == old(self)@.outbound.push(
                FrameView::Delivery(env@),
            ),
            old(self)@.terminated ==> final(self)@ == old(self)@,
    {
        let ghost prev = self.outbound@;
        if !self.terminated {
            self.outbound.push(Frame::Delivery(env));
            proof {
                assert(frames_view(self.outbound@) =~= frames_view(prev).push(
                    FrameView::Delivery(env@),
                ));
            }
        }
    }

    /// The acknowledgement that one of this client's commands was refused,
    /// queued like any other frame. Errors of one connection never reach
    /// another.
    pub fn on_error(&mut self, channel: &str, error: BusError)
        ensures
            final(self)@.id == old(self)@.id,
            final(self)@.terminated == old(self)@.terminated,
            !old(self)@.terminated ==> final(self)@.outbound == old(self)@.outbound.push(
                FrameView::CommandError { channel: channel@, error },
            ),
            old(self)@.terminated ==> final(self)@ == old(self)@,
    {
        let ghost prev = self.outbound@;
        if !self.terminated {
            let name: String = channel.to_owned();
            self.outbound.push(Frame::CommandError { channel: name, error });
            proof {
                assert(frames_view(self.outbound@) =~= frames_view(prev).push(
                    FrameView::CommandError { channel: channel@, error },
                ));
            }
        }
    }

    /// Stream closure, observed from either direction. The first call
    /// reports that a broker `Disconnect` must be issued; any further call
    /// is a no-op that reports nothing, so `Disconnect` is issued exactly
    /// once per connection. Queued but undelivered frames are released.
    pub fn on_close(&mut self) -> (issue: bool)
        ensures
            issue == !old(self)@.terminated,
            final(self)@.id == old(self)@.id,
            final(self)@.terminated,
            final(self)@.outbound == Seq::<FrameView>::empty(),
    {
        let was_open = !self.terminated;
        self.terminated = true;
        self.outbound.clear();
        proof {
            assert(frames_view(self.outbound@) =~= Seq::<FrameView>::empty());
        }
        was_open
    }

    /// Drains the outbound queue for the transport writer: everything
    /// queued, in emission order, leaving the queue empty.
    pub fn take_outbound(&mut self) -> (out: Vec<Frame>)
        ensures
            frames_view(out@) == old(self)@.outbound,
            final(self)@.outbound == Seq::<FrameView>::empty(),
            final(self)@.id == old(self)@.id,
            final(self)@.terminated == old(self)@.terminated,
    {
        let mut out: Vec<Frame> = Vec::new();
        core::mem::swap(&mut self.outbound, &mut out);
        proof {
            assert(frames_view(self.outbound@) =~= Seq::<FrameView>::empty());
        }
        out
    }
}

/// A connection after one delivery batch was routed: its share of the
/// batch, turned into frames, stands behind what was already queued; a
/// terminated connection is untouched.
pub open spec fn routed_conn(c: ConnectionView, ds: Seq<DeliveryView>) -> ConnectionView {
    if c.terminated {
        c
    } else {
        ConnectionView {
            id: c.id,
            outbound: c.outbound + delivery_frames(deliveries_for(ds, c.id)),
            terminated: c.terminated,
        }
    }
}

/// Hands one connection its share of a delivery batch, in batch order.
/// Every subscriber receives a value equal to the published one.
pub fn deliver_matching(conn: &mut Connection, ds: &Vec<Delivery>)
    ensures
        final(conn)@ == routed_conn(old(conn)@, deliveries_view(ds@)),
{
    let ghost dv = deliveries_view(ds@);
    if conn.terminated {
        return ;
    }
    let ghost base = conn@.outbound;
    let ghost cid = conn@.id;
    proof {
        lemma_deliveries_for_empty(cid);
        assert(dv.subrange(0, 0) =~= Seq::<DeliveryView>::empty());
        assert(delivery_frames(Seq::<EnvelopeView>::empty()) =~= Seq::<FrameView>::empty());
        assert(base + Seq::<FrameView>::empty() =~= base);
    }
    let mut k: usize = 0;
    while k < ds.len()
        invariant
            k <= ds@.len(),
            dv == deliveries_view(ds@),
            dv.len() == ds@.len(),
            conn@.id == cid,
            !conn@.terminated,
            conn@.outbound == base + delivery_frames(deliveries_for(dv.subrange(0, k as int), cid)),
        decreases ds@.len() - k,
    {
        proof {
            assert(dv.subrange(0, k + 1) =~= dv.subrange(0, k as int).push(dv[k as int]));
            lemma_deliveries_for_push(dv.subrange(0, k as int), cid, dv[k as int]);
            assert(dv[k as int] == ds@[k as int]@);
        }
        let ghost before = conn@.outbound;
        let d = &ds[k];
        if d.conn == conn.id {
            conn.on_delivery(d.envelope.dup());
            proof {
                let taken = deliveries_for(dv.subrange(0, k as int), cid);
                assert(delivery_frames(taken.push(dv[k as int].envelope)) =~= delivery_frames(
                    taken,
                ).push(FrameView::Delivery(dv[k as int].envelope)));
                assert(base + delivery_frames(taken).push(FrameView::Delivery(dv[k as int].envelope))
                    =~= (base + delivery_frames(taken)).push(
                    FrameView::Delivery(dv[k as int].envelope),
                ));
            }
        }
        k += 1;
    }
    proof {
        assert(dv.subrange(0, dv.len() as int) =~= dv);
    }
}

/// Routes one delivery batch: every live connection receives its share, in
/// batch order; terminated connections receive nothing. Delivery to one
/// connection never depends on any other.
pub fn route(conns: &mut Vec<Connection>, ds: &Vec<Delivery>)
    ensures
        final(conns)@.len() == old(conns)@.len(),
        forall|j: int|
            0 <= j < old(conns)@.len() ==> #[trigger] final(conns)@[j]@ == routed_conn(
                old(conns)@[j]@,
                deliveries_view(ds@),
            ),
{
    let ghost orig = conns@;
    let mut j: usize = 0;
    while j < conns.len()
        invariant
            conns@.len() == orig.len(),
            j <= orig.len(),
            forall|i: int|
                0 <= i < j ==> #[trigger] conns@[i]@ == routed_conn(
                    orig[i]@,
                    deliveries_view(ds@),
                ),
            forall|i: int| j <= i < orig.len() ==> #[trigger] conns@[i] == orig[i],
        decreases orig.len() - j,
    {
        let ghost snap = conns@;
        let c = &mut conns[j];
        deliver_matching(c, ds);
        proof {
            assert forall|i: int| 0 <= i < orig.len() && i != j implies #[trigger] conns@[i]
                == snap[i] by {}
        }
        j += 1;
    }
}

/// The issuing connection's outbound queue after a subscribe command: the
/// retained envelope when the broker replays one, an error acknowledgement
/// when the channel is unknown, and nothing otherwise.
pub open spec fn subscribe_frames(
    bus: Seq<ChannelView>,
    channel: Seq<char>,
    c: ConnectionView,
) -> Seq<FrameView> {
    if !has_channel(bus, channel) {
        c.outbound.push(FrameView::CommandError { channel, error: BusError::UnknownChannel })
    } else {
        match spec_replay(bus, channel, c.id) {
            Option::Some(env) => c.outbound.push(FrameView::Delivery(env)),
            Option::None => c.outbound,
        }
    }
}

/// The issuing connection's outbound queue after an unsubscribe command:
/// an error acknowledgement when the channel is unknown, nothing otherwise.
pub open spec fn unsubscribe_frames(
    bus: Seq<ChannelView>,
    channel: Seq<char>,
    c: ConnectionView,
) -> Seq<FrameView> {
    if !has_channel(bus, channel) {
        c.outbound.push(FrameView::CommandError { channel, error: BusError::UnknownChannel })
    } else {
        c.outbound
    }
}

/// A client subscribe command, translated one-for-one into the broker's
/// `Subscribe` and answered on the issuing connection's own stream.
pub fn handle_subscribe(bus: &mut EventBus, conn: &mut Connection, channel: &str)
    requires
        old(bus).wf(),
        !old(conn)@.terminated,
    ensures
        final(bus).wf(),
        final(bus)@ == spec_subscribe(old(bus)@, channel@, old(conn)@.id),
        final(conn)@.id == old(conn)@.id,
        final(conn)@.terminated == false,
        final(conn)@.outbound == subscribe_frames(old(bus)@, channel@, old(conn)@),
{
    match bus.subscribe(channel, conn.id) {
        Result::Ok(Option::Some(env)) => conn.on_delivery(env),
        Result::Ok(Option::None) => {},
        Result::Err(e) => conn.on_error(channel, e),
    }
}

/// A client unsubscribe command, translated one-for-one into the broker's
/// `Unsubscribe` and answered on the issuing connection's own stream.
pub fn handle_unsubscribe(bus: &mut EventBus, conn: &mut Connection, channel: &str)
    requires
        old(bus).wf(),
        !old(conn)@.terminated,
    ensures
        final(bus).wf(),
        final(bus)@ == spec_unsubscribe(old(bus)@, channel@, old(conn)@.id),
        final(conn)@.id == old(conn)@.id,
        final(conn)@.terminated == false,
        final(conn)@.outbound == unsubscribe_frames(old(bus)@, channel@, old(conn)@),
{
    match bus.unsubscribe(channel, conn.id) {
        Result::Ok(u) => {},
        Result::Err(e) => conn.on_error(channel, e),
    }
}

/// A publish command: the broker retains and fans out, every live
/// connection receives its share of the batch in order, and an unknown
/// channel is reported back to the publisher alone.
pub fn handle_publish(bus: &mut EventBus, conns: &mut Vec<Connection>, src: usize, env: &Envelope)
    requires
        old(bus).wf(),
        src < old(conns)@.len(),
        !old(conns)@[src as int]@.terminated,
    ensures
        final(bus).wf(),
        final(bus)@ == spec_publish(old(bus)@, env@),
        final(conns)@.len() == old(conns)@.len(),
        has_channel(old(bus)@, env@.channel) ==> forall|j: int|
            0 <= j < old(conns)@.len() ==> #[trigger] final(conns)@[j]@ == routed_conn(
                old(conns)@[j]@,
                spec_fanout(old(bus)@, env@),
            ),
        !has_channel(old(bus)@, env@.channel) ==> {
            &&& forall|j: int|
                0 <= j < old(conns)@.len() && j != src ==> #[trigger] final(conns)@[j] == old(
                    conns,
                )@[j]
            &&& final(conns)@[src as int]@.id == old(conns)@[src as int]@.id
            &&& final(conns)@[src as int]@.terminated == false
            &&& final(conns)@[src as int]@.outbound == old(conns)@[src as int]@.outbound.push(
                FrameView::CommandError { channel: env@.channel, error: BusError::UnknownChannel },
            )
        },
{
    match bus.publish(env) {
        Result::Ok(ds) => {
            route(conns, &ds);
        },
        Result::Err(e) => {
            let ghost snap = conns@;
            let c = &mut conns[src];
            c.on_error(env.channel.as_str(), e);
            proof {
                assert forall|j: int| 0 <= j < snap.len() && j != src implies #[trigger] conns@[j]
                    == snap[j] by {}
            }
        },
    }
}

/// One client command from the connection at `src`: a subscribe,
/// unsubscribe or publish request, translated one-for-one into the
/// matching broker operation. Calling this in arrival order applies each
/// connection's commands in the order that connection issued them.
/// Whether clients may publish at all is deployment policy, handed in as
/// `allow_publish`: when it is off, a publish command touches nothing and
/// is answered with an error frame on the issuing connection alone.
pub fn dispatch(
    bus: &mut EventBus,
    conns: &mut Vec<Connection>,
    src: usize,
    cmd: &Command,
    allow_publish: bool,
)
    requires
        old(bus).wf(),
        src < old(conns)@.len(),
        !old(conns)@[src as int]@.terminated,
    ensures
        final(bus).wf(),
        final(conns)@.len() == old(conns)@.len(),
        match cmd@ {
            CommandView::Subscribe { channel } => {
                &&& final(bus)@ == spec_subscribe(old(bus)@, channel, old(conns)@[src as int]@.id)
                &&& forall|j: int|
                    0 <= j < old(conns)@.len() && j != src ==> #[trigger] final(conns)@[j] == old(
                        conns,
                    )@[j]
                &&& final(conns)@[src as int]@.id == old(conns)@[src as int]@.id
                &&& final(conns)@[src as int]@.terminated == false
                &&& final(conns)@[src as int]@.outbound == subscribe_frames(
                    old(bus)@,
                    channel,
                    old(conns)@[src as int]@,
                )
            },
            CommandView::Unsubscribe { channel } => {
                &&& final(bus)@ == spec_unsubscribe(old(bus)@, channel, old(conns)@[src as int]@.id)
                &&& forall|j: int|
                    0 <= j < old(conns)@.len() && j != src ==> #[trigger] final(conns)@[j] == old(
                        conns,
                    )@[j]
                &&& final(conns)@[src as int]@.id == old(conns)@[src as int]@.id
                &&& final(conns)@[src as int]@.terminated == false
                &&& final(conns)@[src as int]@.outbound == unsubscribe_frames(
                    old(bus)@,
                    channel,
                    old(conns)@[src as int]@,
                )
            },
            CommandView::Publish { envelope } if !allow_publish => {
                &&& final(bus)@ == old(bus)@
                &&& forall|j: int|
                    0 <= j < old(conns)@.len() && j != src ==> #[trigger] final(conns)@[j] == old(
                        conns,
                    )@[j]
                &&& final(conns)@[src as int]@.id == old(conns)@[src as int]@.id
                &&& final(conns)@[src as int]@.terminated == false
                &&& final(conns)@[src as int]@.outbound == old(conns)@[src as int]@.outbound.push(
                    FrameView::CommandError {
                        channel: envelope.channel,
                        error: BusError::PublishNotPermitted,
                    },
                )
            },
            CommandView::Publish { envelope } => {
                &&& final(bus)@ == spec_publish(old(bus)@, envelope)
                &&& (has_channel(old(bus)@, envelope.channel) ==> forall|j: int|
                    0 <= j < old(conns)@.len() ==> #[trigger] final(conns)@[j]@ == routed_conn(
                        old(conns)@[j]@,
                        spec_fanout(old(bus)@, envelope),
                    ))
                &&& (!has_channel(old(bus)@, envelope.channel) ==> {
                    &&& forall|j: int|
                        0 <= j < old(conns)@.len() && j != src ==> #[trigger] final(conns)@[j]
                            == old(conns)@[j]
                    &&& final(conns)@[src as int]@.id == old(conns)@[src as int]@.id
                    &&& final(conns)@[src as int]@.terminated == false
                    &&& final(conns)@[src as int]@.outbound == old(
                        conns,
                    )@[src as int]@.outbound.push(
                        FrameView::CommandError {
                            channel: envelope.channel,
                            error: BusError::UnknownChannel,
                        },
                    )
                })
            },
        },
{
    match cmd {
        Command::Subscribe { channel } => {
            let ghost snap = conns@;
            let c = &mut conns[src];
            handle_subscribe(bus, c, channel.as_str());
            proof {
                assert forall|j: int| 0 <= j < snap.len() && j != src implies #[trigger] conns@[j]
                    == snap[j] by {}
            }
        },
        Command::Unsubscribe { channel } => {
            let ghost snap = conns@;
            let c = &mut conns[src];
            handle_unsubscribe(bus, c, channel.as_str());
            proof {
                assert forall|j: int| 0 <= j < snap.len() && j != src implies #[trigger] conns@[j]
                    == snap[j] by {}
            }
        },
        Command::Publish { envelope } => {
            if allow_publish {
                handle_publish(bus, conns, src, envelope);
            } else {
                let ghost snap = conns@;
                let c = &mut conns[src];
                c.on_error(envelope.channel.as_str(), BusError::PublishNotPermitted);
                proof {
                    assert forall|j: int| 0 <= j < snap.len() && j != src implies #[trigger] conns@[j]
                        == snap[j] by {}
                }
            }
        },
    }
}

/// Stream closure from either direction funnels here. The first call — and
/// only the first — issues the broker `Disconnect`, so every terminated
/// connection is scrubbed from the registry exactly once; queued but
/// undelivered frames are released either way.
pub fn disconnect_cleanup(bus: &mut EventBus, conn: &mut Connection) -> (issued: bool)
    requires
        old(bus).wf(),
    ensures
        final(bus).wf(),
        issued == !old(conn)@.terminated,
        final(conn)@.id == old(conn)@.id,
        final(conn)@.terminated,
        final(conn)@.outbound == Seq::<FrameView>::empty(),
        issued ==> final(bus)@ == spec_disconnect(old(bus)@, old(conn)@.id),
        !issued ==> final(bus)@ == old(bus)@,
{
    let issue = conn.on_close();
    if issue {
        bus.disconnect(conn.id);
    }
    issue
}

} // verus!
