//! The broker: the single authority over the channel registry. It owns the
//! declared channel names, their discipline (stateless or stateful), the set
//! of currently subscribed connections per channel, and — for stateful
//! channels — the most recently published payload. All mutations go through
//! the operations here, one at a time, so every guarantee is stated against
//! a single, totally ordered sequence of registry transitions.

use vstd::prelude::*;
use crate::event::{Envelope, EnvelopeView, Payload, PayloadView};

verus! {

/// Why a runtime request was refused. Reported to the offending connection
/// as an error frame; never fatal to the broker.
#[derive(Clone, Copy, PartialEq, Eq, Structural, Debug)]
pub enum BusError {
    /// The request names a channel that was never declared.
    UnknownChannel,
    /// A client-originated publish, where deployment policy permits
    /// clients only to subscribe.
    PublishNotPermitted,
}

/// Why a startup declaration was refused. Fatal: the broker is not built.
#[derive(Clone, Copy, PartialEq, Eq, Structural, Debug)]
pub enum ConfigError {
    /// A declared channel name is the empty string.
    EmptyName,
    /// A channel name appears twice across the two declaration lists.
    DuplicateName,
}

/// One declared channel: its name, its discipline, the connections that are
/// currently subscribed, and — when the channel is stateful — the most
/// recently published payload (absent until the first publish).
#[derive(Debug)]
pub struct ChannelEntry {
    pub name: String,
    pub stateful: bool,
    pub subscribers: Vec<u64>,
    pub retained: Option<Payload>,
}

/// The mathematical model of a `ChannelEntry`.
pub struct ChannelView {
    pub name: Seq<char>,
    pub stateful: bool,
    pub subscribers: Seq<u64>,
    pub retained: Option<PayloadView>,
}

impl View for ChannelEntry {
    type V = ChannelView;

    open spec fn view(&self) -> ChannelView {
        ChannelView {
            name: self.name@,
            stateful: self.stateful,
            subscribers: self.subscribers@,
            retained: match self.retained {
                Option::Some(p) => Option::Some(p@),
                Option::None => Option::None,
            },
        }
    }
}

/// One pending delivery: the envelope that must reach the connection with
/// the given identity.
#[derive(Debug, PartialEq, Eq)]
pub struct Delivery {
    pub conn: u64,
    pub envelope: Envelope,
}

/// The mathematical model of a `Delivery`.
pub struct DeliveryView {
    pub conn: u64,
    pub envelope: EnvelopeView,
}

impl View for Delivery {
    type V = DeliveryView;

    open spec fn view(&self) -> DeliveryView {
        DeliveryView { conn: self.conn, envelope: self.envelope@ }
    }
}

/// The model of a whole delivery batch.
pub open spec fn deliveries_view(ds: Seq<Delivery>) -> Seq<DeliveryView> {
    ds.map_values(|d: Delivery| d@)
}

/// The model of an optional replayed envelope.
pub open spec fn replay_view(r: Option<Envelope>) -> Option<EnvelopeView> {
    match r {
        Option::Some(e) => Option::Some(e@),
        Option::None => Option::None,
    }
}

/// No identity occurs twice.
pub open spec fn distinct_u64(s: Seq<u64>) -> bool {
    forall|i: int, j: int| 0 <= i < j < s.len() ==> s[i] != s[j]
}

/// A channel is well formed when its subscriber set holds no duplicates.
pub open spec fn channel_wf(c: ChannelView) -> bool {
    distinct_u64(c.subscribers)
}

/// A registry is well formed when channel names are distinct and every
/// channel is well formed.
pub open spec fn bus_wf(bus: Seq<ChannelView>) -> bool {
    &&& forall|i: int, j: int| 0 <= i < j < bus.len() ==> bus[i].name != bus[j].name
    &&& forall|i: int| 0 <= i < bus.len() ==> channel_wf(#[trigger] bus[i])
}

/// Whether a channel with this name was declared.
pub open spec fn has_channel(bus: Seq<ChannelView>, name: Seq<char>) -> bool {
    exists|i: int| 0 <= i < bus.len() && bus[i].name == name
}

/// The index of the channel with this name (meaningful when `has_channel`
/// holds; unique when the registry is well formed).
pub open spec fn channel_index(bus: Seq<ChannelView>, name: Seq<char>) -> int {
    choose|i: int| 0 <= i < bus.len() && bus[i].name == name
}

/// In a well-formed registry the declared name at any index is found at
/// exactly that index.
pub proof fn lemma_index_unique(bus: Seq<ChannelView>, name: Seq<char>, i: int)
    requires
        bus_wf(bus),
        0 <= i < bus.len(),
        bus[i].name == name,
    ensures
        has_channel(bus, name),
        channel_index(bus, name) == i,
{
    assert(has_channel(bus, name)) by {
        assert(0 <= i < bus.len() && bus[i].name == name);
    }
    let j = channel_index(bus, name);
    assert(0 <= j < bus.len() && bus[j].name == name);
    if i < j {
        assert(bus[i].name != bus[j].name);
    } else if j < i {
        assert(bus[j].name != bus[i].name);
    }
}

/// The subscriber set with one identity removed.
pub open spec fn without(subs: Seq<u64>, conn: u64) -> Seq<u64> {
    subs.filter(|s: u64| s != conn)
}

/// Registry state after `Subscribe(name, conn)`: the identity is added to
/// the channel's subscriber set unless it is already there; an unknown name
/// leaves the registry unchanged.
pub open spec fn spec_subscribe(bus: Seq<ChannelView>, name: Seq<char>, conn: u64) -> Seq<
    ChannelView,
> {
    if !has_channel(bus, name) {
        bus
    } else {
        let i = channel_index(bus, name);
        let c = bus[i];
        if c.subscribers.contains(conn) {
            bus
        } else {
            bus.update(
                i,
                ChannelView {
                    name: c.name,
                    stateful: c.stateful,
                    subscribers: c.subscribers.push(conn),
                    retained: c.retained,
                },
            )
        }
    }
}

/// What `Subscribe(name, conn)` hands the subscriber at once: the retained
/// envelope, exactly when the channel is stateful, holds one, and the
/// identity is newly added (re-subscribing is a no-op and replays nothing).
pub open spec fn spec_replay(bus: Seq<ChannelView>, name: Seq<char>, conn: u64) -> Option<
    EnvelopeView,
> {
    if has_channel(bus, name) {
        let c = bus[channel_index(bus, name)];
        if c.stateful && !c.subscribers.contains(conn) && c.retained is Some {
            Option::Some(EnvelopeView { channel: name, payload: c.retained->0 })
        } else {
            Option::None
        }
    } else {
        Option::None
    }
}

/// Registry state after `Unsubscribe(name, conn)`: the identity leaves the
/// channel's subscriber set; retained state is untouched.
pub open spec fn spec_unsubscribe(bus: Seq<ChannelView>, name: Seq<char>, conn: u64) -> Seq<
    ChannelView,
> {
    if !has_channel(bus, name) {
        bus
    } else {
        let i = channel_index(bus, name);
        let c = bus[i];
        bus.update(
            i,
            ChannelView {
                name: c.name,
                stateful: c.stateful,
                subscribers: without(c.subscribers, conn),
                retained: c.retained,
            },
        )
    }
}

/// Registry state after `Publish(env)`: a stateful channel first replaces
/// its retained slot with the published payload; a stateless channel keeps
/// nothing. Subscriber sets never change on publish.
pub open spec fn spec_publish(bus: Seq<ChannelView>, env: EnvelopeView) -> Seq<ChannelView> {
    if !has_channel(bus, env.channel) {
        bus
    } else {
        let i = channel_index(bus, env.channel);
        let c = bus[i];
        if c.stateful {
            bus.update(
                i,
                ChannelView {
                    name: c.name,
                    stateful: c.stateful,
                    subscribers: c.subscribers,
                    retained: Option::Some(env.payload),
                },
            )
        } else {
            bus
        }
    }
}

/// The delivery batch of `Publish(env)`: one delivery of the published
/// envelope per current subscriber of the channel, in subscriber order.
pub open spec fn spec_fanout(bus: Seq<ChannelView>, env: EnvelopeView) -> Seq<DeliveryView> {
    if !has_channel(bus, env.channel) {
        Seq::empty()
    } else {
        fanout_of(bus[channel_index(bus, env.channel)].subscribers, env)
    }
}

/// One delivery of `env` per identity in `subs`, in order.
pub open spec fn fanout_of(subs: Seq<u64>, env: EnvelopeView) -> Seq<DeliveryView> {
    subs.map_values(|c: u64| DeliveryView { conn: c, envelope: env })
}

/// Registry state after `Disconnect(conn)`: the identity leaves every
/// channel's subscriber set; names, disciplines and retained state stay.
pub open spec fn spec_disconnect(bus: Seq<ChannelView>, conn: u64) -> Seq<ChannelView> {
    bus.map_values(
        |c: ChannelView|
            ChannelView {
                name: c.name,
                stateful: c.stateful,
                subscribers: without(c.subscribers, conn),
                retained: c.retained,
            },
    )
}

/// The views of a list of declared names.
pub open spec fn names_of(v: Seq<String>) -> Seq<Seq<char>> {
    v.map_values(|s: String| s@)
}

/// A channel as it stands right after declaration.
pub open spec fn fresh_channel(name: Seq<char>, stateful: bool) -> ChannelView {
    ChannelView { name, stateful, subscribers: Seq::empty(), retained: Option::None }
}

/// The registry produced by declaring the stateless names, then the
/// stateful names, each with no subscribers and nothing retained.
pub open spec fn spec_declare(stateless: Seq<Seq<char>>, stateful: Seq<Seq<char>>) -> Seq<
    ChannelView,
> {
    stateless.map_values(|n: Seq<char>| fresh_channel(n, false)) + stateful.map_values(
        |n: Seq<char>| fresh_channel(n, true),
    )
}

/// No declared name is empty.
pub open spec fn no_empty_name(names: Seq<Seq<char>>) -> bool {
    forall|i: int| 0 <= i < names.len() ==> names[i].len() > 0
}

/// No name is declared twice.
pub open spec fn names_distinct(names: Seq<Seq<char>>) -> bool {
    forall|i: int, j: int| 0 <= i < j < names.len() ==> names[i] != names[j]
}

/// The broker registry. Owned by exactly one task; every guarantee below is
/// stated against the serialized order in which its operations are applied.
#[derive(Debug)]
pub struct EventBus {
    pub channels: Vec<ChannelEntry>,
}

impl View for EventBus {
    type V = Seq<ChannelView>;

    open spec fn view(&self) -> Seq<ChannelView> {
        self.channels@.map_values(|c: ChannelEntry| c@)
    }
}

/// Whether a subscriber list holds an identity.
fn contains_u64(v: &Vec<u64>, x: u64) -> (r: bool)
    ensures
        r == v@.contains(x),
{
    let mut k: usize = 0;
    while k < v.len()
        invariant
            k <= v@.len(),
            forall|i: int| 0 <= i < k ==> v@[i] != x,
        decreases v@.len() - k,
    {
        if v[k] == x {
            assert(v@.contains(x)) by {
                assert(v@[k as int] == x);
            }
            return true;
        }
        k += 1;
    }
    false
}

/// Removes every occurrence of an identity from a subscriber list, keeping
/// the order of the rest.
fn remove_u64(v: &mut Vec<u64>, x: u64)
    ensures
        final(v)@ == without(old(v)@, x),
{
    let ghost orig = v@;
    let mut out: Vec<u64> = Vec::new();
    proof {
        lemma_without_empty(x);
        assert(orig.subrange(0, 0) =~= Seq::<u64>::empty());
    }
    let mut k: usize = 0;
    while k < v.len()
        invariant
            v@ == orig,
            k <= orig.len(),
            out@ == without(orig.subrange(0, k as int), x),
        decreases orig.len() - k,
    {
        proof {
            assert(orig.subrange(0, k + 1) =~= orig.subrange(0, k as int).push(orig[k as int]));
            lemma_without_push(orig.subrange(0, k as int), x, orig[k as int]);
        }
        let item = v[k];
        if item != x {
            out.push(item);
        }
        k += 1;
    }
    proof {
        assert(orig.subrange(0, orig.len() as int) =~= orig);
    }
    *v = out;
}

/// Removing an identity commutes with appending one element.
pub proof fn lemma_without_push(s: Seq<u64>, x: u64, y: u64)
    ensures
        y != x ==> without(s.push(y), x) == without(s, x).push(y),
        y == x ==> without(s.push(y), x) == without(s, x),
{
    reveal_with_fuel(Seq::filter, 2);
    assert(s.push(y).drop_last() =~= s);
    assert(s.push(y).last() == y);
}

/// Removing an identity from the empty list leaves the empty list.
pub proof fn lemma_without_empty(x: u64)
    ensures
        without(Seq::empty(), x) == Seq::<u64>::empty(),
{
    reveal_with_fuel(Seq::filter, 1);
}

/// What `without` keeps: exactly the other identities, in order, without
/// duplicates if there were none, and nothing once the identity is gone.
pub proof fn lemma_without(s: Seq<u64>, x: u64)
    ensures
        forall|y: u64| #[trigger] without(s, x).contains(y) <==> s.contains(y) && y != x,
        distinct_u64(s) ==> distinct_u64(without(s, x)),
        !s.contains(x) ==> without(s, x) == s,
        without(s, x).len() <= s.len(),
    decreases s.len(),
{
    reveal_with_fuel(Seq::filter, 2);
    if s.len() == 0 {
        assert(without(s, x) =~= s);
        assert forall|y: u64| #[trigger] without(s, x).contains(y) implies s.contains(y) && y != x
        by {}
        assert forall|y: u64| s.contains(y) && y != x implies without(s, x).contains(y) by {}
    } else {
        let rest = s.drop_last();
        let last = s.last();
        lemma_without(rest, x);
        assert(rest.push(last) =~= s);
        lemma_without_push(rest, x, last);
        assert forall|y: u64| #[trigger] s.contains(y) implies rest.contains(y) || y == last by {
            let i = choose|i: int| 0 <= i < s.len() && s[i] == y;
            if i < s.len() - 1 {
                assert(rest[i] == y);
            }
        }
        assert forall|y: u64| rest.contains(y) implies s.contains(y) by {
            let i = choose|i: int| 0 <= i < rest.len() && rest[i] == y;
            assert(s[i] == y);
        }
        assert(s.contains(last)) by {
            assert(s[s.len() - 1] == last);
        }
        if last != x {
            assert(without(s, x) == without(rest, x).push(last));
            assert forall|y: u64| #[trigger] without(s, x).contains(y) implies s.contains(y) && y
                != x by {
                let i = choose|i: int| 0 <= i < without(s, x).len() && without(s, x)[i] == y;
                if i < without(s, x).len() - 1 {
                    assert(without(rest, x)[i] == y);
                    assert(without(rest, x).contains(y));
                } else {
                    assert(y == last);
                }
            }
            assert forall|y: u64| s.contains(y) && y != x implies #[trigger] without(
                s,
                x,
            ).contains(y) by {
                if y == last {
                    assert(without(s, x)[without(s, x).len() - 1] == y);
                } else {
                    assert(rest.contains(y));
                    assert(without(rest, x).contains(y));
                    let i = choose|i: int|
                        0 <= i < without(rest, x).len() && without(rest, x)[i] == y;
                    assert(without(s, x)[i] == y);
                }
            }
            if distinct_u64(s) {
                assert(distinct_u64(rest)) by {
                    assert forall|i: int, j: int| 0 <= i < j < rest.len() implies rest[i] != rest[j]
                    by {
                        assert(s[i] == rest[i] && s[j] == rest[j]);
                    }
                }
                assert(!rest.contains(last)) by {
                    if rest.contains(last) {
                        let i = choose|i: int| 0 <= i < rest.len() && rest[i] == last;
                        assert(s[i] == s[s.len() - 1]);
                    }
                }
                assert(!without(rest, x).contains(last));
                assert(distinct_u64(without(s, x))) by {
                    let w = without(rest, x).push(last);
                    assert forall|i: int, j: int| 0 <= i < j < w.len() implies w[i] != w[j] by {
                        if j < w.len() - 1 {
                            assert(distinct_u64(without(rest, x)));
                        } else {
                            assert(without(rest, x)[i] == w[i]);
                            assert(without(rest, x).contains(w[i]));
                        }
                    }
                }
            }
            if !s.contains(x) {
                assert(!rest.contains(x));
                assert(without(rest, x) == rest);
                assert(without(s, x) =~= s);
            }
        } else {
            assert(without(s, x) == without(rest, x));
            assert forall|y: u64| #[trigger] without(s, x).contains(y) implies s.contains(y) && y
                != x by {}
            assert forall|y: u64| s.contains(y) && y != x implies #[trigger] without(
                s,
                x,
            ).contains(y) by {
                assert(rest.contains(y) || y == last);
            }
        }
    }
}

impl EventBus {
    /// The registry invariant.
    pub open spec fn wf(&self) -> bool {
        bus_wf(self@)
    }

    /// Builds the registry from the two startup declaration lists. The
    /// result holds exactly the declared channels, in declaration order
    /// (stateless first), each with no subscribers and nothing retained.
    /// Declaration fails — and the broker is never built — exactly when a
    /// name is empty or a name is declared twice across both lists.
    pub fn with_channels(stateless: Vec<String>, stateful: Vec<String>) -> (r: Result<
        EventBus,
        ConfigError,
    >)
        ensures
            ({
                let names = names_of(stateless@) + names_of(stateful@);
                match r {
                    Result::Ok(bus) => {
                        &&& bus.wf()
                        &&& bus@ == spec_declare(names_of(stateless@), names_of(stateful@))
                        &&& no_empty_name(names)
                        &&& names_distinct(names)
                    },
                    Result::Err(ConfigError::EmptyName) => !no_empty_name(names),
                    Result::Err(ConfigError::DuplicateName) => no_empty_name(names)
                        && !names_distinct(names),
                }
            }),
    {
        let ghost names = names_of(stateless@) + names_of(stateful@);
        let mut entries: Vec<ChannelEntry> = Vec::new();
        let mut k: usize = 0;
        while k < stateless.len()
            invariant
                k <= stateless@.len(),
                entries@.len() == k,
                forall|i: int|
                    0 <= i < k ==> #[trigger] entries@[i]@ == fresh_channel(stateless@[i]@, false),
            decreases stateless@.len() - k,
        {
            entries.push(
                ChannelEntry {
                    name: stateless[k].clone(),
                    stateful: false,
                    subscribers: Vec::new(),
                    retained: Option::None,
                },
            );
            k += 1;
        }
        let mut k2: usize = 0;
        while k2 < stateful.len()
            invariant
                k2 <= stateful@.len(),
                entries@.len() == stateless@.len() + k2,
                forall|i: int|
                    0 <= i < stateless@.len() ==> #[trigger] entries@[i]@ == fresh_channel(
                        stateless@[i]@,
                        false,
                    ),
                forall|i: int|
                    stateless@.len() <= i < stateless@.len() + k2 ==> #[trigger] entries@[i]@
                        == fresh_channel(stateful@[i - stateless@.len()]@, true),
            decreases stateful@.len() - k2,
        {
            entries.push(
                ChannelEntry {
                    name: stateful[k2].clone(),
                    stateful: true,
                    subscribers: Vec::new(),
                    retained: Option::None,
                },
            );
            k2 += 1;
        }
        proof {
            assert(names.len() == entries@.len());
            assert forall|i: int| 0 <= i < names.len() implies entries@[i]@.name == #[trigger] names[i] by {
                if i < stateless@.len() {
                    assert(names[i] == names_of(stateless@)[i]);
                    assert(names_of(stateless@)[i] == stateless@[i]@);
                    assert(entries@[i]@ == fresh_channel(stateless@[i]@, false));
                } else {
                    let j = i - stateless@.len();
                    assert(names[i] == names_of(stateful@)[j]);
                    assert(names_of(stateful@)[j] == stateful@[j]@);
                    assert(entries@[i]@ == fresh_channel(stateful@[j]@, true));
                }
            }
        }
        let mut a: usize = 0;
        while a < entries.len()
            invariant
                a <= entries@.len(),
                names == names_of(stateless@) + names_of(stateful@),
                names.len() == entries@.len(),
                forall|i: int| 0 <= i < names.len() ==> entries@[i]@.name == #[trigger] names[i],
                forall|i: int| 0 <= i < a ==> #[trigger] names[i].len() > 0,
            decreases entries@.len() - a,
        {
            let empty_name = entries[a].name.as_str().is_empty();
            proof {
                assert(entries@[a as int]@.name == names[a as int]);
            }
            if empty_name {
                assert(!no_empty_name(names)) by {
                    assert(names[a as int].len() == 0);
                }
                return Result::Err(ConfigError::EmptyName);
            }
            a += 1;
        }
        let mut b: usize = 0;
        while b < entries.len()
            invariant
                b <= entries@.len(),
                names == names_of(stateless@) + names_of(stateful@),
                names.len() == entries@.len(),
                forall|i: int| 0 <= i < names.len() ==> entries@[i]@.name == #[trigger] names[i],
                no_empty_name(names),
                forall|i: int, j: int|
                    0 <= i < b && i < j < names.len() ==> #[trigger] names[i] != #[trigger] names[j],
            decreases entries@.len() - b,
        {
            let mut c: usize = b + 1;
            while c < entries.len()
                invariant
                    b < c <= entries@.len(),
                    names == names_of(stateless@) + names_of(stateful@),
                    names.len() == entries@.len(),
                    no_empty_name(names),
                    forall|i: int|
                        0 <= i < names.len() ==> entries@[i]@.name == #[trigger] names[i],
                    forall|j: int| (b as int) < j < c ==> names[b as int] != #[trigger] names[j],
                decreases entries@.len() - c,
            {
                let same = entries[b].name == entries[c].name;
                proof {
                    assert(entries@[b as int]@.name == names[b as int]);
                    assert(entries@[c as int]@.name == names[c as int]);
                }
                if same {
                    assert(names[b as int] == names[c as int]);
                    assert(!names_distinct(names));
                    return Result::Err(ConfigError::DuplicateName);
                }
                c += 1;
            }
            b += 1;
        }
        let bus = EventBus { channels: entries };
        proof {
            assert(names_distinct(names));
            let decl = spec_declare(names_of(stateless@), names_of(stateful@));
            assert(decl.len() == bus@.len());
            assert forall|i: int| 0 <= i < bus@.len() implies bus@[i] == #[trigger] decl[i] by {
                if i < stateless@.len() {
                    assert(decl[i] == names_of(stateless@).map_values(
                        |n: Seq<char>| fresh_channel(n, false),
                    )[i]);
                    assert(decl[i] == fresh_channel(stateless@[i]@, false));
                    assert(bus@[i] == entries@[i]@);
                    assert(entries@[i]@ == fresh_channel(stateless@[i]@, false));
                } else {
                    let j = i - stateless@.len();
                    assert(decl[i] == names_of(stateful@).map_values(
                        |n: Seq<char>| fresh_channel(n, true),
                    )[j]);
                    assert(decl[i] == fresh_channel(stateful@[j]@, true));
                    assert(bus@[i] == entries@[i]@);
                    assert(entries@[i]@ == fresh_channel(stateful@[j]@, true));
                }
            }
            assert(bus@ =~= decl);
            assert(bus_wf(bus@)) by {
                assert forall|i: int, j: int| 0 <= i < j < bus@.len() implies bus@[i].name
                    != bus@[j].name by {
                    assert(bus@[i].name == entries@[i]@.name);
                    assert(bus@[j].name == entries@[j]@.name);
                    assert(names[i] != names[j]);
                }
                assert forall|i: int| 0 <= i < bus@.len() implies channel_wf(#[trigger] bus@[i])
                by {
                    assert(bus@[i] == entries@[i]@);
                }
            }
        }
        Result::Ok(bus)
    }

    /// The index of the declared channel with this name, if any.
    fn lookup(&self, channel: &str) -> (r: Option<usize>)
        ensures
            match r {
                Option::Some(i) => i < self@.len() && self@[i as int].name == channel@,
                Option::None => !has_channel(self@, channel@),
            },
    {
        let target: String = channel.to_owned();
        let mut k: usize = 0;
        while k < self.channels.len()
            invariant
                target@ == channel@,
                k <= self@.len(),
                self@.len() == self.channels@.len(),
                forall|i: int| 0 <= i < k ==> #[trigger] self@[i].name != channel@,
            decreases self.channels@.len() - k,
        {
            if self.channels[k].name == target {
                return Option::Some(k);
            }
            k += 1;
        }
        assert forall|i: int| 0 <= i < self@.len() implies #[trigger] self@[i].name != channel@
        by {}
        Option::None
    }

    /// `Subscribe(channel, conn)`. Refused — and the registry left untouched
    /// — exactly when the channel was never declared. On success the
    /// identity is recorded (a second subscribe is a no-op), and the
    /// returned envelope is the channel's retained one exactly when the
    /// channel is stateful, holds one, and the identity is newly added: a
    /// new subscriber to a stateful channel never starts with a blank view
    /// while a value exists.
    pub fn subscribe(&mut self, channel: &str, conn: u64) -> (r: Result<Option<Envelope>, BusError>)
        requires
            old(self).wf(),
        ensures
            final(self).wf(),
            r is Ok <==> has_channel(old(self)@, channel@),
            match r {
                Result::Ok(replay) => {
                    &&& final(self)@ == spec_subscribe(old(self)@, channel@, conn)
                    &&& replay_view(replay) == spec_replay(old(self)@, channel@, conn)
                },
                Result::Err(e) => e == BusError::UnknownChannel && final(self)@ == old(self)@,
            },
    {
        let idx = match self.lookup(channel) {
            Option::Some(i) => i,
            Option::None => {
                return Result::Err(BusError::UnknownChannel);
            },
        };
        proof {
            lemma_index_unique(self@, channel@, idx as int);
        }
        let ghost prev = self@;
        let already = contains_u64(&self.channels[idx].subscribers, conn);
        let mut replay: Option<Envelope> = Option::None;
        if !already {
            let name_copy: String = channel.to_owned();
            let entry = &mut self.channels[idx];
            entry.subscribers.push(conn);
            if entry.stateful {
                match &entry.retained {
                    Option::Some(p) => {
                        replay = Option::Some(Envelope { channel: name_copy, payload: p.dup() });
                    },
                    Option::None => {},
                }
            }
        }
        proof {
            assert(final(self)@ =~= spec_subscribe(prev, channel@, conn));
            assert(final(self).wf()) by {
                assert forall|i: int| 0 <= i < final(self)@.len() implies channel_wf(
                    #[trigger] final(self)@[i],
                ) by {
                    if i == idx as int && !prev[idx as int].subscribers.contains(conn) {
                        let s0 = prev[idx as int].subscribers;
                        assert(distinct_u64(s0));
                        assert forall|a: int, b: int|
                            0 <= a < b < s0.push(conn).len() implies s0.push(conn)[a] != s0.push(
                            conn,
                        )[b] by {
                            if b < s0.len() {
                            } else {
                                assert(s0.push(conn)[b] == conn);
                                assert(s0[a] == s0.push(conn)[a]);
                                assert(!s0.contains(conn));
                            }
                        }
                    } else {
                        assert(final(self)@[i] == prev[i] || final(self)@[i].subscribers
                            == prev[i].subscribers);
                    }
                }
                assert forall|i: int, j: int| 0 <= i < j < final(self)@.len() implies final(self)@[i].name != final(self)@[j].name by {
                    assert(final(self)@[i].name == prev[i].name);
                    assert(final(self)@[j].name == prev[j].name);
                }
            }
        }
        Result::Ok(replay)
    }

    /// `Unsubscribe(channel, conn)`. Refused exactly when the channel was
    /// never declared. On success the identity leaves the channel's
    /// subscriber set — a no-op if it was not there — and retained state is
    /// untouched.
    pub fn unsubscribe(&mut self, channel: &str, conn: u64) -> (r: Result<(), BusError>)
        requires
            old(self).wf(),
        ensures
            final(self).wf(),
            r is Ok <==> has_channel(old(self)@, channel@),
            match r {
                Result::Ok(u) => final(self)@ == spec_unsubscribe(old(self)@, channel@, conn),
                Result::Err(e) => e == BusError::UnknownChannel && final(self)@ == old(self)@,
            },
    {
        let idx = match self.lookup(channel) {
            Option::Some(i) => i,
            Option::None => {
                return Result::Err(BusError::UnknownChannel);
            },
        };
        proof {
            lemma_index_unique(self@, channel@, idx as int);
        }
        let ghost prev = self@;
        let entry = &mut self.channels[idx];
        remove_u64(&mut entry.subscribers, conn);
        proof {
            assert(final(self)@ =~= spec_unsubscribe(prev, channel@, conn));
            lemma_without(prev[idx as int].subscribers, conn);
            assert(final(self).wf()) by {
                assert forall|i: int| 0 <= i < final(self)@.len() implies channel_wf(
                    #[trigger] final(self)@[i],
                ) by {
                    if i != idx as int {
                        assert(final(self)@[i] == prev[i]);
                    }
                }
                assert forall|i: int, j: int| 0 <= i < j < final(self)@.len() implies final(self)@[i].name != final(self)@[j].name by {
                    assert(final(self)@[i].name == prev[i].name);
                    assert(final(self)@[j].name == prev[j].name);
                }
            }
        }
        Result::Ok(())
    }

    /// `Publish(env)`. Refused — reported, not silently dropped — exactly
    /// when the envelope's channel was never declared. On success a stateful
    /// channel first retains the payload, and the same envelope is handed
    /// out once per currently subscribed connection, in subscriber order;
    /// subscriber sets themselves never change.
    pub fn publish(&mut self, env: &Envelope) -> (r: Result<Vec<Delivery>, BusError>)
        requires
            old(self).wf(),
        ensures
            final(self).wf(),
            r is Ok <==> has_channel(old(self)@, env@.channel),
            match r {
                Result::Ok(ds) => {
                    &&& final(self)@ == spec_publish(old(self)@, env@)
                    &&& deliveries_view(ds@) == spec_fanout(old(self)@, env@)
                },
                Result::Err(e) => e == BusError::UnknownChannel && final(self)@ == old(self)@,
            },
    {
        let idx = match self.lookup(&env.channel) {
            Option::Some(i) => i,
            Option::None => {
                return Result::Err(BusError::UnknownChannel);
            },
        };
        proof {
            lemma_index_unique(self@, env@.channel, idx as int);
        }
        let ghost prev = self@;
        let mut ds: Vec<Delivery> = Vec::new();
        let subs = &self.channels[idx].subscribers;
        let mut k: usize = 0;
        while k < subs.len()
            invariant
                k <= subs@.len(),
                ds@.len() == k,
                forall|i: int|
                    0 <= i < k ==> #[trigger] ds@[i]@ == (DeliveryView {
                        conn: subs@[i],
                        envelope: env@,
                    }),
            decreases subs@.len() - k,
        {
            ds.push(Delivery { conn: subs[k], envelope: env.dup() });
            k += 1;
        }
        if self.channels[idx].stateful {
            let entry = &mut self.channels[idx];
            entry.retained = Option::Some(entry_payload(env));
        }
        proof {
            assert(deliveries_view(ds@) =~= spec_fanout(prev, env@)) by {
                assert(spec_fanout(prev, env@) == fanout_of(prev[idx as int].subscribers, env@));
                assert forall|i: int| 0 <= i < ds@.len() implies deliveries_view(ds@)[i]
                    == fanout_of(prev[idx as int].subscribers, env@)[i] by {
                    assert(deliveries_view(ds@)[i] == ds@[i]@);
                }
            }
            assert(final(self)@ =~= spec_publish(prev, env@));
            assert(final(self).wf()) by {
                assert forall|i: int| 0 <= i < final(self)@.len() implies channel_wf(
                    #[trigger] final(self)@[i],
                ) by {
                    assert(final(self)@[i].subscribers == prev[i].subscribers);
                }
                assert forall|i: int, j: int| 0 <= i < j < final(self)@.len() implies final(self)@[i].name != final(self)@[j].name by {
                    assert(final(self)@[i].name == prev[i].name);
                    assert(final(self)@[j].name == prev[j].name);
                }
            }
        }
        Result::Ok(ds)
    }

    /// `Disconnect(conn)`. Total and idempotent: the identity leaves every
    /// channel's subscriber set, whether or not it was ever subscribed, and
    /// nothing else changes. Safe to call again for an identity already
    /// fully removed.
    pub fn disconnect(&mut self, conn: u64)
        requires
            old(self).wf(),
        ensures
            final(self).wf(),
            final(self)@ == spec_disconnect(old(self)@, conn),
    {
        let ghost prev = self@;
        let mut k: usize = 0;
        while k < self.channels.len()
            invariant
                self@.len() == prev.len(),
                self.channels@.len() == prev.len(),
                k <= prev.len(),
                forall|i: int| 0 <= i < k ==> #[trigger] self@[i] == spec_disconnect(prev, conn)[i],
                forall|i: int| k <= i < prev.len() ==> #[trigger] self@[i] == prev[i],
            decreases prev.len() - k,
        {
            let ghost snap = self@;
            let entry = &mut self.channels[k];
            remove_u64(&mut entry.subscribers, conn);
            proof {
                assert forall|i: int| 0 <= i < prev.len() && i != k implies #[trigger] self@[i] == snap[i] by {
                    assert(self@[i] == self.channels@[i]@);
                }
                assert(self@[k as int].subscribers == without(snap[k as int].subscribers, conn));
                assert(self@[k as int].name == snap[k as int].name);
                assert(self@[k as int].stateful == snap[k as int].stateful);
                assert(self@[k as int].retained == snap[k as int].retained);
                assert(snap[k as int] == prev[k as int]);
                assert(spec_disconnect(prev, conn)[k as int] == (ChannelView {
                    name: prev[k as int].name,
                    stateful: prev[k as int].stateful,
                    subscribers: without(prev[k as int].subscribers, conn),
                    retained: prev[k as int].retained,
                }));
                assert(self@[k as int] == spec_disconnect(prev, conn)[k as int]);
            }
            k += 1;
        }
        proof {
            assert(final(self)@ =~= spec_disconnect(prev, conn));
            assert(final(self).wf()) by {
                assert forall|i: int| 0 <= i < final(self)@.len() implies channel_wf(
                    #[trigger] final(self)@[i],
                ) by {
                    assert(final(self)@[i].subscribers == without(prev[i].subscribers, conn));
                    lemma_without(prev[i].subscribers, conn);
                }
                assert forall|i: int, j: int| 0 <= i < j < final(self)@.len() implies final(self)@[i].name != final(self)@[j].name by {
                    assert(final(self)@[i].name == prev[i].name);
                    assert(final(self)@[j].name == prev[j].name);
                }
            }
        }
    }
}

/// The payload of an envelope, copied for retention.
fn entry_payload(env: &Envelope) -> (p: Payload)
    ensures
        p@ == env@.payload,
{
    env.payload.dup()
}

/// The envelopes a delivery batch holds for one connection, in batch order.
pub open spec fn deliveries_for(ds: Seq<DeliveryView>, conn: u64) -> Seq<EnvelopeView> {
    ds.filter(|d: DeliveryView| d.conn == conn).map_values(|d: DeliveryView| d.envelope)
}

/// A connection's share of a batch grows by one envelope exactly when an
/// appended delivery is addressed to it.
pub proof fn lemma_deliveries_for_push(ds: Seq<DeliveryView>, conn: u64, d: DeliveryView)
    ensures
        d.conn == conn ==> deliveries_for(ds.push(d), conn) == deliveries_for(ds, conn).push(
            d.envelope,
        ),
        d.conn != conn ==> deliveries_for(ds.push(d), conn) == deliveries_for(ds, conn),
{
    reveal_with_fuel(Seq::filter, 2);
    assert(ds.push(d).drop_last() =~= ds);
    assert(ds.push(d).last() == d);
    if d.conn == conn {
        assert(deliveries_for(ds.push(d), conn) =~= deliveries_for(ds, conn).push(d.envelope));
    } else {
        assert(deliveries_for(ds.push(d), conn) =~= deliveries_for(ds, conn));
    }
}

/// The empty batch holds nothing for anyone.
pub proof fn lemma_deliveries_for_empty(conn: u64)
    ensures
        deliveries_for(Seq::empty(), conn) == Seq::<EnvelopeView>::empty(),
{
    reveal_with_fuel(Seq::filter, 1);
    assert(deliveries_for(Seq::empty(), conn) =~= Seq::<EnvelopeView>::empty());
}

} // verus!
