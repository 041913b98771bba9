//! The guarantees that hold across broker operations, each proved once and
//! for all over the registry model: stateful replay, stateless non-replay,
//! fan-out completeness, per-connection order preservation, idempotent
//! subscription and clean disconnect.

use vstd::prelude::*;
use crate::bus::{
    ChannelView, DeliveryView, bus_wf, channel_index, channel_wf, deliveries_for, distinct_u64,
    fanout_of, has_channel, lemma_deliveries_for_empty, lemma_deliveries_for_push,
    lemma_index_unique, lemma_without, spec_disconnect, spec_fanout, spec_publish, spec_replay,
    spec_subscribe,
};
use crate::conn::{ConnectionView, FrameView, delivery_frames, routed_conn, subscribe_frames};
use crate::event::EnvelopeView;

verus! {

/// Publishing leaves length, names, disciplines and subscriber sets
/// untouched, so it preserves well-formedness.
pub proof fn lemma_publish_preserves(bus: Seq<ChannelView>, env: EnvelopeView)
    ensures
        spec_publish(bus, env).len() == bus.len(),
        forall|i: int|
            0 <= i < bus.len() ==> {
                &&& (#[trigger] spec_publish(bus, env)[i]).name == bus[i].name
                &&& spec_publish(bus, env)[i].stateful == bus[i].stateful
                &&& spec_publish(bus, env)[i].subscribers == bus[i].subscribers
            },
        bus_wf(bus) ==> bus_wf(spec_publish(bus, env)),
{
    let after = spec_publish(bus, env);
    assert forall|i: int| 0 <= i < bus.len() implies {
        &&& (#[trigger] after[i]).name == bus[i].name
        &&& after[i].stateful == bus[i].stateful
        &&& after[i].subscribers == bus[i].subscribers
    } by {}
    if bus_wf(bus) {
        assert forall|i: int| 0 <= i < after.len() implies channel_wf(#[trigger] after[i]) by {
            assert(after[i].subscribers == bus[i].subscribers);
        }
        assert forall|i: int, j: int| 0 <= i < j < after.len() implies after[i].name
            != after[j].name by {
            assert(after[i].name == bus[i].name && after[j].name == bus[j].name);
        }
    }
}

/// Subscribing changes at most one channel's subscriber set, by appending a
/// fresh identity, so it preserves well-formedness; everything else stays.
pub proof fn lemma_subscribe_preserves(bus: Seq<ChannelView>, name: Seq<char>, conn: u64)
    requires
        bus_wf(bus),
    ensures
        spec_subscribe(bus, name, conn).len() == bus.len(),
        forall|i: int|
            0 <= i < bus.len() ==> {
                &&& (#[trigger] spec_subscribe(bus, name, conn)[i]).name == bus[i].name
                &&& spec_subscribe(bus, name, conn)[i].stateful == bus[i].stateful
                &&& spec_subscribe(bus, name, conn)[i].retained == bus[i].retained
            },
        bus_wf(spec_subscribe(bus, name, conn)),
{
    let after = spec_subscribe(bus, name, conn);
    assert forall|i: int| 0 <= i < bus.len() implies {
        &&& (#[trigger] after[i]).name == bus[i].name
        &&& after[i].stateful == bus[i].stateful
        &&& after[i].retained == bus[i].retained
    } by {}
    assert forall|i: int, j: int| 0 <= i < j < after.len() implies after[i].name != after[j].name
    by {
        assert(after[i].name == bus[i].name && after[j].name == bus[j].name);
    }
    assert forall|i: int| 0 <= i < after.len() implies channel_wf(#[trigger] after[i]) by {
        if has_channel(bus, name) && i == channel_index(bus, name) && !bus[i].subscribers.contains(
            conn,
        ) {
            let s0 = bus[i].subscribers;
            assert(distinct_u64(s0));
            assert forall|a: int, b: int| 0 <= a < b < s0.push(conn).len() implies s0.push(conn)[a]
                != s0.push(conn)[b] by {
                if b < s0.len() {
                } else {
                    assert(s0.push(conn)[b] == conn);
                    assert(s0[a] == s0.push(conn)[a]);
                    assert(!s0.contains(conn));
                }
            }
        } else {
            assert(after[i].subscribers == bus[i].subscribers);
        }
    }
}

/// Dropping the last identity keeps a subscriber list duplicate-free, and
/// the dropped identity does not occur earlier.
proof fn lemma_distinct_drop_last(s: Seq<u64>)
    requires
        distinct_u64(s),
        s.len() > 0,
    ensures
        distinct_u64(s.drop_last()),
        !s.drop_last().contains(s.last()),
{
    assert forall|i: int, j: int| 0 <= i < j < s.drop_last().len() implies s.drop_last()[i]
        != s.drop_last()[j] by {
        assert(s[i] == s.drop_last()[i] && s[j] == s.drop_last()[j]);
    }
    if s.drop_last().contains(s.last()) {
        let i = choose|i: int| 0 <= i < s.drop_last().len() && s.drop_last()[i] == s.last();
        assert(s[i] == s[s.len() - 1]);
        assert(false);
    }
}

/// The share one identity gets of a fan-out over a duplicate-free
/// subscriber list: the published envelope exactly once if it is
/// subscribed, nothing otherwise.
proof fn lemma_fanout_filter(subs: Seq<u64>, env: EnvelopeView, conn: u64)
    requires
        distinct_u64(subs),
    ensures
        subs.contains(conn) ==> deliveries_for(fanout_of(subs, env), conn) == seq![env],
        !subs.contains(conn) ==> deliveries_for(fanout_of(subs, env), conn) == Seq::<
            EnvelopeView,
        >::empty(),
    decreases subs.len(),
{
    if subs.len() == 0 {
        lemma_deliveries_for_empty(conn);
        assert(fanout_of(subs, env) =~= Seq::<DeliveryView>::empty());
        assert(!subs.contains(conn));
    } else {
        let rest = subs.drop_last();
        let last = subs.last();
        lemma_distinct_drop_last(subs);
        lemma_fanout_filter(rest, env, conn);
        let d = DeliveryView { conn: last, envelope: env };
        assert(fanout_of(subs, env) =~= fanout_of(rest, env).push(d));
        lemma_deliveries_for_push(fanout_of(rest, env), conn, d);
        assert forall|y: u64| #[trigger] rest.contains(y) implies subs.contains(y) by {
            let i = choose|i: int| 0 <= i < rest.len() && rest[i] == y;
            assert(subs[i] == y);
        }
        assert(subs.contains(last)) by {
            assert(subs[subs.len() - 1] == last);
        }
        if last == conn {
            assert(!rest.contains(conn));
            assert(deliveries_for(fanout_of(subs, env), conn) == Seq::<EnvelopeView>::empty().push(
                env,
            ));
            assert(Seq::<EnvelopeView>::empty().push(env) =~= seq![env]);
        } else {
            if subs.contains(conn) {
                let i = choose|i: int| 0 <= i < subs.len() && subs[i] == conn;
                assert(i < subs.len() - 1);
                assert(rest[i] == conn);
                assert(rest.contains(conn));
            }
        }
    }
}

/// Fan-out completeness: when an envelope is published on a declared
/// channel of a well-formed registry, every connection subscribed at that
/// moment has exactly one copy of that envelope in the delivery batch, and
/// an unsubscribed connection has none.
pub proof fn fanout_exactly_once(bus: Seq<ChannelView>, env: EnvelopeView, conn: u64)
    requires
        bus_wf(bus),
        has_channel(bus, env.channel),
    ensures
        bus[channel_index(bus, env.channel)].subscribers.contains(conn) ==> deliveries_for(
            spec_fanout(bus, env),
            conn,
        ) == seq![env],
        !bus[channel_index(bus, env.channel)].subscribers.contains(conn) ==> deliveries_for(
            spec_fanout(bus, env),
            conn,
        ) == Seq::<EnvelopeView>::empty(),
{
    let i = channel_index(bus, env.channel);
    assert(0 <= i < bus.len() && bus[i].name == env.channel);
    assert(channel_wf(bus[i]));
    lemma_fanout_filter(bus[i].subscribers, env, conn);
}

/// Fan-out completeness at the connection level: routing the batch of one
/// publish appends exactly one copy of the published envelope to the
/// stream of every connection subscribed at that moment, and nothing to a
/// connection that is not subscribed.
pub proof fn fanout_reaches_every_subscriber(
    bus: Seq<ChannelView>,
    env: EnvelopeView,
    c: ConnectionView,
)
    requires
        bus_wf(bus),
        has_channel(bus, env.channel),
        !c.terminated,
    ensures
        bus[channel_index(bus, env.channel)].subscribers.contains(c.id) ==> routed_conn(
            c,
            spec_fanout(bus, env),
        ).outbound == c.outbound.push(FrameView::Delivery(env)),
        !bus[channel_index(bus, env.channel)].subscribers.contains(c.id) ==> routed_conn(
            c,
            spec_fanout(bus, env),
        ).outbound == c.outbound,
{
    fanout_exactly_once(bus, env, c.id);
    if bus[channel_index(bus, env.channel)].subscribers.contains(c.id) {
        assert(delivery_frames(seq![env]) =~= seq![FrameView::Delivery(env)]);
        assert(c.outbound + seq![FrameView::Delivery(env)] =~= c.outbound.push(
            FrameView::Delivery(env),
        ));
    } else {
        assert(delivery_frames(Seq::<EnvelopeView>::empty()) =~= Seq::<FrameView>::empty());
        assert(c.outbound + Seq::<FrameView>::empty() =~= c.outbound);
    }
}

/// Stateful replay: once a payload is published on a stateful channel, any
/// connection that subscribes afterwards — before a newer publish — is
/// handed exactly that payload at subscribe time, as the first new frame on
/// its stream, with no further action required.
pub proof fn stateful_replay(
    bus: Seq<ChannelView>,
    name: Seq<char>,
    p: crate::event::PayloadView,
    conn: u64,
    c: ConnectionView,
)
    requires
        bus_wf(bus),
        has_channel(bus, name),
        bus[channel_index(bus, name)].stateful,
        !bus[channel_index(bus, name)].subscribers.contains(conn),
        c.id == conn,
        !c.terminated,
    ensures
        spec_replay(spec_publish(bus, EnvelopeView { channel: name, payload: p }), name, conn)
            == Option::Some(EnvelopeView { channel: name, payload: p }),
        subscribe_frames(spec_publish(bus, EnvelopeView { channel: name, payload: p }), name, c)
            == c.outbound.push(FrameView::Delivery(EnvelopeView { channel: name, payload: p })),
{
    let env = EnvelopeView { channel: name, payload: p };
    let i = channel_index(bus, name);
    let after = spec_publish(bus, env);
    lemma_publish_preserves(bus, env);
    assert(after[i].name == name);
    lemma_index_unique(after, name, i);
    assert(after == bus.update(
        i,
        ChannelView {
            name: bus[i].name,
            stateful: bus[i].stateful,
            subscribers: bus[i].subscribers,
            retained: Option::Some(p),
        },
    ));
    assert(after[i].retained == Option::Some(p));
    assert(after[i].stateful);
    assert(!after[i].subscribers.contains(conn));
}

/// Stateless non-replay: a stateless channel retains nothing, so a
/// connection subscribing after a publish is handed nothing at subscribe
/// time — it waits for the next publish.
pub proof fn stateless_no_replay(
    bus: Seq<ChannelView>,
    name: Seq<char>,
    p: crate::event::PayloadView,
    conn: u64,
)
    requires
        bus_wf(bus),
        has_channel(bus, name),
        !bus[channel_index(bus, name)].stateful,
    ensures
        spec_replay(spec_publish(bus, EnvelopeView { channel: name, payload: p }), name, conn)
            == Option::<EnvelopeView>::None,
{
    let env = EnvelopeView { channel: name, payload: p };
    let i = channel_index(bus, name);
    let after = spec_publish(bus, env);
    lemma_publish_preserves(bus, env);
    assert(after == bus);
    assert(!after[channel_index(after, name)].stateful) by {
        lemma_index_unique(after, name, i);
    }
}

/// Order preservation per connection: one connection's share of two
/// delivery batches, routed one after the other, is its share of the first
/// followed by its share of the second. By induction over a whole run,
/// every connection's delivered sequence is the ordered projection of the
/// broker's processing order — no reordering.
pub proof fn order_preservation(ds1: Seq<DeliveryView>, ds2: Seq<DeliveryView>, conn: u64)
    ensures
        deliveries_for(ds1 + ds2, conn) == deliveries_for(ds1, conn) + deliveries_for(ds2, conn),
    decreases ds2.len(),
{
    if ds2.len() == 0 {
        lemma_deliveries_for_empty(conn);
        assert(ds1 + ds2 =~= ds1);
        assert(deliveries_for(ds1, conn) + deliveries_for(ds2, conn) =~= deliveries_for(
            ds1,
            conn,
        ));
    } else {
        let rest = ds2.drop_last();
        let d = ds2.last();
        order_preservation(ds1, rest, conn);
        lemma_deliveries_for_push(ds1 + rest, conn, d);
        lemma_deliveries_for_push(rest, conn, d);
        assert(ds1 + ds2 =~= (ds1 + rest).push(d));
        assert(ds2 =~= rest.push(d));
        if d.conn == conn {
            assert(deliveries_for(ds1, conn) + deliveries_for(rest, conn).push(d.envelope)
                =~= (deliveries_for(ds1, conn) + deliveries_for(rest, conn)).push(d.envelope));
        }
    }
}

/// Idempotent subscription: subscribing an already-subscribed connection
/// is a no-op — the registry is unchanged, nothing is replayed — and a
/// connection that subscribed twice still holds exactly one copy of each
/// later publish in its share of the fan-out.
pub proof fn idempotent_subscription(
    bus: Seq<ChannelView>,
    name: Seq<char>,
    conn: u64,
    env: EnvelopeView,
)
    requires
        bus_wf(bus),
        has_channel(bus, name),
        env.channel == name,
    ensures
        ({
            let once = spec_subscribe(bus, name, conn);
            &&& spec_subscribe(once, name, conn) == once
            &&& spec_replay(once, name, conn) == Option::<EnvelopeView>::None
            &&& deliveries_for(spec_fanout(once, env), conn) == seq![env]
        }),
{
    let i = channel_index(bus, name);
    let once = spec_subscribe(bus, name, conn);
    lemma_subscribe_preserves(bus, name, conn);
    assert(once[i].name == name);
    lemma_index_unique(once, name, i);
    if bus[i].subscribers.contains(conn) {
        assert(once == bus);
    } else {
        assert(once[i].subscribers == bus[i].subscribers.push(conn));
        assert(once[i].subscribers.contains(conn)) by {
            assert(once[i].subscribers[once[i].subscribers.len() - 1] == conn);
        }
    }
    assert(once[i].subscribers.contains(conn));
    assert(spec_subscribe(once, name, conn) == once);
    fanout_exactly_once(once, env, conn);
}

/// Clean disconnect: after a `Disconnect`, no channel's subscriber set
/// references the identity, and no later publish hands it anything — there
/// is nothing left to attempt delivery to.
pub proof fn clean_disconnect(bus: Seq<ChannelView>, conn: u64, env: EnvelopeView)
    requires
        bus_wf(bus),
    ensures
        bus_wf(spec_disconnect(bus, conn)),
        forall|i: int|
            0 <= i < spec_disconnect(bus, conn).len() ==> !(#[trigger] spec_disconnect(
                bus,
                conn,
            )[i]).subscribers.contains(conn),
        deliveries_for(spec_fanout(spec_disconnect(bus, conn), env), conn) == Seq::<
            EnvelopeView,
        >::empty(),
{
    let after = spec_disconnect(bus, conn);
    assert(after.len() == bus.len());
    assert forall|i: int| 0 <= i < after.len() implies !(#[trigger] after[i]).subscribers.contains(
        conn,
    ) by {
        lemma_without(bus[i].subscribers, conn);
    }
    assert(bus_wf(after)) by {
        assert forall|i: int, j: int| 0 <= i < j < after.len() implies after[i].name
            != after[j].name by {
            assert(after[i].name == bus[i].name && after[j].name == bus[j].name);
        }
        assert forall|i: int| 0 <= i < after.len() implies channel_wf(#[trigger] after[i]) by {
            lemma_without(bus[i].subscribers, conn);
        }
    }
    if has_channel(after, env.channel) {
        fanout_exactly_once(after, env, conn);
    } else {
        lemma_deliveries_for_empty(conn);
    }
}

} // verus!
