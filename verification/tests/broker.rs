use eventbus::bus::{BusError, ConfigError, Delivery, EventBus};
use eventbus::event::{Envelope, Payload};

fn names(list: &[&str]) -> Vec<String> {
    let mut v: Vec<String> = Vec::new();
    for n in list {
        v.push((*n).to_string());
    }
    v
}

fn declare(stateless: &[&str], stateful: &[&str]) -> EventBus {
    EventBus::with_channels(names(stateless), names(stateful)).unwrap()
}

fn data(channel: &str, text: &str) -> Envelope {
    Envelope { channel: channel.to_string(), payload: Payload::Data { text: text.to_string() } }
}

#[test]
fn with_channels_declares_both_lists() {
    let mut bus = declare(&["chat"], &["status"]);
    assert!(matches!(bus.subscribe("chat", 1), Ok(None)));
    assert!(matches!(bus.subscribe("status", 1), Ok(None)));
}

#[test]
fn with_channels_rejects_empty_name() {
    let r = EventBus::with_channels(names(&["chat", ""]), names(&["status"]));
    assert_eq!(r.unwrap_err(), ConfigError::EmptyName);
}

#[test]
fn with_channels_rejects_duplicate_within_list() {
    let r = EventBus::with_channels(names(&["chat", "chat"]), names(&[]));
    assert_eq!(r.unwrap_err(), ConfigError::DuplicateName);
}

#[test]
fn with_channels_rejects_duplicate_across_lists() {
    let r = EventBus::with_channels(names(&["chat"]), names(&["chat"]));
    assert_eq!(r.unwrap_err(), ConfigError::DuplicateName);
}

#[test]
fn subscribe_unknown_channel_is_error() {
    let mut bus = declare(&["chat"], &[]);
    assert_eq!(bus.subscribe("nowhere", 1).unwrap_err(), BusError::UnknownChannel);
}

#[test]
fn unsubscribe_unknown_channel_is_error() {
    let mut bus = declare(&["chat"], &[]);
    assert_eq!(bus.unsubscribe("nowhere", 1).unwrap_err(), BusError::UnknownChannel);
}

#[test]
fn publish_unknown_channel_is_error() {
    let mut bus = declare(&["chat"], &[]);
    let env = data("nowhere", "hello");
    assert_eq!(bus.publish(&env).unwrap_err(), BusError::UnknownChannel);
}

#[test]
fn stateful_subscribe_before_first_publish_replays_nothing() {
    let mut bus = declare(&[], &["status"]);
    assert!(matches!(bus.subscribe("status", 1), Ok(None)));
}

#[test]
fn stateful_replay_on_subscribe() {
    let mut bus = declare(&[], &["status"]);
    let env = data("status", "ready");
    bus.publish(&env).unwrap();
    let replay = bus.subscribe("status", 1).unwrap();
    assert_eq!(replay, Some(data("status", "ready")));
}

#[test]
fn stateful_replay_is_latest_value() {
    let mut bus = declare(&[], &["status"]);
    bus.publish(&data("status", "ready")).unwrap();
    bus.publish(&data("status", "busy")).unwrap();
    let replay = bus.subscribe("status", 2).unwrap();
    assert_eq!(replay, Some(data("status", "busy")));
}

#[test]
fn stateless_subscribe_after_publish_replays_nothing() {
    let mut bus = declare(&["chat"], &[]);
    bus.publish(&data("chat", "hello")).unwrap();
    assert!(matches!(bus.subscribe("chat", 1), Ok(None)));
}

#[test]
fn publish_fans_out_to_each_subscriber_exactly_once() {
    let mut bus = declare(&["chat"], &[]);
    bus.subscribe("chat", 1).unwrap();
    bus.subscribe("chat", 2).unwrap();
    let env = data("chat", "hello");
    let ds = bus.publish(&env).unwrap();
    assert_eq!(
        ds,
        vec![
            Delivery { conn: 1, envelope: data("chat", "hello") },
            Delivery { conn: 2, envelope: data("chat", "hello") },
        ]
    );
}

#[test]
fn resubscribe_yields_single_delivery() {
    let mut bus = declare(&["chat"], &[]);
    bus.subscribe("chat", 1).unwrap();
    bus.subscribe("chat", 1).unwrap();
    let ds = bus.publish(&data("chat", "hello")).unwrap();
    assert_eq!(ds.len(), 1);
    assert_eq!(ds[0].conn, 1);
}

#[test]
fn resubscribe_to_stateful_channel_replays_nothing() {
    let mut bus = declare(&[], &["status"]);
    bus.publish(&data("status", "ready")).unwrap();
    assert!(bus.subscribe("status", 1).unwrap().is_some());
    assert!(bus.subscribe("status", 1).unwrap().is_none());
}

#[test]
fn unsubscribe_stops_delivery_and_keeps_retained_state() {
    let mut bus = declare(&[], &["status"]);
    bus.publish(&data("status", "ready")).unwrap();
    bus.subscribe("status", 1).unwrap();
    bus.unsubscribe("status", 1).unwrap();
    let ds = bus.publish(&data("status", "busy")).unwrap();
    assert!(ds.is_empty());
    let replay = bus.subscribe("status", 1).unwrap();
    assert_eq!(replay, Some(data("status", "busy")));
}

#[test]
fn unsubscribe_when_not_subscribed_is_a_no_op() {
    let mut bus = declare(&["chat"], &[]);
    bus.subscribe("chat", 1).unwrap();
    bus.unsubscribe("chat", 2).unwrap();
    let ds = bus.publish(&data("chat", "hello")).unwrap();
    assert_eq!(ds.len(), 1);
    assert_eq!(ds[0].conn, 1);
}

#[test]
fn disconnect_removes_subscriber_from_every_channel() {
    let mut bus = declare(&["chat"], &["status"]);
    bus.subscribe("chat", 1).unwrap();
    bus.subscribe("status", 1).unwrap();
    bus.subscribe("chat", 2).unwrap();
    bus.disconnect(1);
    let ds = bus.publish(&data("chat", "hello")).unwrap();
    assert_eq!(ds.len(), 1);
    assert_eq!(ds[0].conn, 2);
    let ds = bus.publish(&data("status", "ready")).unwrap();
    assert!(ds.is_empty());
}

#[test]
fn disconnect_is_idempotent_and_safe_for_strangers() {
    let mut bus = declare(&["chat"], &[]);
    bus.disconnect(9);
    bus.subscribe("chat", 1).unwrap();
    bus.disconnect(1);
    bus.disconnect(1);
    let ds = bus.publish(&data("chat", "hello")).unwrap();
    assert!(ds.is_empty());
}

#[test]
fn example_scenario_status_and_chat() {
    let mut bus = declare(&["chat"], &["status"]);
    bus.publish(&data("status", "ready")).unwrap();
    // Client A joins afterwards and immediately observes the current state.
    let a = bus.subscribe("status", 1).unwrap();
    assert_eq!(a, Some(data("status", "ready")));
    bus.publish(&data("status", "busy")).unwrap();
    // Client B sees the newest value only, not the one before.
    let b = bus.subscribe("status", 2).unwrap();
    assert_eq!(b, Some(data("status", "busy")));
    // A chat publish with no subscriber reaches no one and is not retained.
    let ds = bus.publish(&data("chat", "hi")).unwrap();
    assert!(ds.is_empty());
    let c = bus.subscribe("chat", 3).unwrap();
    assert!(c.is_none());
    // The late chat subscriber receives only the next publish.
    let ds = bus.publish(&data("chat", "anyone?")).unwrap();
    assert_eq!(ds.len(), 1);
    assert_eq!(ds[0].conn, 3);
    assert_eq!(ds[0].envelope, data("chat", "anyone?"));
}
