use eventbus::bus::{BusError, EventBus};
use eventbus::conn::{
    Command, Connection, Frame, deliver_matching, disconnect_cleanup, dispatch, handle_publish,
    handle_subscribe, handle_unsubscribe, route,
};
use eventbus::event::{Envelope, Payload};

fn names(list: &[&str]) -> Vec<String> {
    let mut v: Vec<String> = Vec::new();
    for n in list {
        v.push((*n).to_string());
    }
    v
}

fn declare(stateless: &[&str], stateful: &[&str]) -> EventBus {
    EventBus::with_channels(names(stateless), names(stateful)).unwrap()
}

fn data(channel: &str, text: &str) -> Envelope {
    Envelope { channel: channel.to_string(), payload: Payload::Data { text: text.to_string() } }
}

#[test]
fn deliveries_reach_a_connection_in_broker_order() {
    let mut bus = declare(&["chat"], &[]);
    bus.subscribe("chat", 1).unwrap();
    let mut conn = Connection::new(1);
    let first = bus.publish(&data("chat", "one")).unwrap();
    let second = bus.publish(&data("chat", "two")).unwrap();
    deliver_matching(&mut conn, &first);
    deliver_matching(&mut conn, &second);
    let out = conn.take_outbound();
    assert_eq!(
        out,
        vec![Frame::Delivery(data("chat", "one")), Frame::Delivery(data("chat", "two"))]
    );
}

#[test]
fn route_hands_each_connection_only_its_share() {
    let mut bus = declare(&["chat"], &[]);
    bus.subscribe("chat", 1).unwrap();
    bus.subscribe("chat", 3).unwrap();
    let mut conns = vec![Connection::new(1), Connection::new(2), Connection::new(3)];
    let ds = bus.publish(&data("chat", "hello")).unwrap();
    route(&mut conns, &ds);
    assert_eq!(conns[0].take_outbound(), vec![Frame::Delivery(data("chat", "hello"))]);
    assert_eq!(conns[1].take_outbound(), Vec::new());
    assert_eq!(conns[2].take_outbound(), vec![Frame::Delivery(data("chat", "hello"))]);
}

#[test]
fn terminated_connection_receives_nothing() {
    let mut bus = declare(&["chat"], &[]);
    bus.subscribe("chat", 1).unwrap();
    let mut conn = Connection::new(1);
    assert!(conn.on_close());
    let ds = bus.publish(&data("chat", "hello")).unwrap();
    deliver_matching(&mut conn, &ds);
    assert!(conn.take_outbound().is_empty());
}

#[test]
fn on_close_reports_exactly_once_and_releases_queue() {
    let mut conn = Connection::new(5);
    conn.on_delivery(data("chat", "pending"));
    assert!(conn.on_close());
    assert!(!conn.on_close());
    assert!(conn.take_outbound().is_empty());
}

#[test]
fn take_outbound_drains_in_emission_order() {
    let mut conn = Connection::new(5);
    conn.on_delivery(data("chat", "one"));
    conn.on_error("nowhere", BusError::UnknownChannel);
    let out = conn.take_outbound();
    assert_eq!(
        out,
        vec![
            Frame::Delivery(data("chat", "one")),
            Frame::CommandError { channel: "nowhere".to_string(), error: BusError::UnknownChannel },
        ]
    );
    assert!(conn.take_outbound().is_empty());
}

#[test]
fn handle_subscribe_replays_retained_state() {
    let mut bus = declare(&[], &["status"]);
    bus.publish(&data("status", "ready")).unwrap();
    let mut conn = Connection::new(1);
    handle_subscribe(&mut bus, &mut conn, "status");
    assert_eq!(conn.take_outbound(), vec![Frame::Delivery(data("status", "ready"))]);
}

#[test]
fn handle_subscribe_unknown_channel_reports_error_frame() {
    let mut bus = declare(&["chat"], &[]);
    let mut conn = Connection::new(1);
    handle_subscribe(&mut bus, &mut conn, "nowhere");
    assert_eq!(
        conn.take_outbound(),
        vec![Frame::CommandError {
            channel: "nowhere".to_string(),
            error: BusError::UnknownChannel,
        }]
    );
}

#[test]
fn handle_unsubscribe_unknown_channel_reports_error_frame() {
    let mut bus = declare(&["chat"], &[]);
    let mut conn = Connection::new(1);
    handle_unsubscribe(&mut bus, &mut conn, "nowhere");
    assert_eq!(
        conn.take_outbound(),
        vec![Frame::CommandError {
            channel: "nowhere".to_string(),
            error: BusError::UnknownChannel,
        }]
    );
}

#[test]
fn handle_publish_routes_to_subscribers_only() {
    let mut bus = declare(&["chat"], &[]);
    let mut conns = vec![Connection::new(1), Connection::new(2)];
    handle_subscribe(&mut bus, &mut conns[1], "chat");
    let env = data("chat", "hello");
    handle_publish(&mut bus, &mut conns, 0, &env);
    assert!(conns[0].take_outbound().is_empty());
    assert_eq!(conns[1].take_outbound(), vec![Frame::Delivery(data("chat", "hello"))]);
}

#[test]
fn handle_publish_unknown_channel_reports_only_to_publisher() {
    let mut bus = declare(&["chat"], &[]);
    let mut conns = vec![Connection::new(1), Connection::new(2)];
    let env = data("nowhere", "hello");
    handle_publish(&mut bus, &mut conns, 1, &env);
    assert!(conns[0].take_outbound().is_empty());
    assert_eq!(
        conns[1].take_outbound(),
        vec![Frame::CommandError {
            channel: "nowhere".to_string(),
            error: BusError::UnknownChannel,
        }]
    );
}

#[test]
fn dispatch_translates_commands_one_for_one() {
    let mut bus = declare(&["chat"], &["status"]);
    let mut conns = vec![Connection::new(1), Connection::new(2)];
    dispatch(&mut bus, &mut conns, 0, &Command::Subscribe { channel: "status".to_string() }, true);
    dispatch(&mut bus, &mut conns, 1, &Command::Publish { envelope: data("status", "ready") }, true);
    assert_eq!(conns[0].take_outbound(), vec![Frame::Delivery(data("status", "ready"))]);
    dispatch(&mut bus, &mut conns, 0, &Command::Unsubscribe { channel: "status".to_string() }, true);
    dispatch(&mut bus, &mut conns, 1, &Command::Publish { envelope: data("status", "busy") }, true);
    assert!(conns[0].take_outbound().is_empty());
}

#[test]
fn dispatch_gates_client_publish_behind_policy() {
    let mut bus = declare(&["chat"], &[]);
    let mut conns = vec![Connection::new(1), Connection::new(2)];
    dispatch(&mut bus, &mut conns, 0, &Command::Subscribe { channel: "chat".to_string() }, false);
    dispatch(&mut bus, &mut conns, 1, &Command::Publish { envelope: data("chat", "hello") }, false);
    // Nothing was published: the subscriber saw nothing, the publisher got
    // an error frame, and the channel retained nothing.
    assert!(conns[0].take_outbound().is_empty());
    assert_eq!(
        conns[1].take_outbound(),
        vec![Frame::CommandError {
            channel: "chat".to_string(),
            error: BusError::PublishNotPermitted,
        }]
    );
}

#[test]
fn disconnect_cleanup_scrubs_the_registry_once() {
    let mut bus = declare(&["chat"], &[]);
    let mut conn = Connection::new(1);
    handle_subscribe(&mut bus, &mut conn, "chat");
    assert!(disconnect_cleanup(&mut bus, &mut conn));
    assert!(!disconnect_cleanup(&mut bus, &mut conn));
    let ds = bus.publish(&data("chat", "hello")).unwrap();
    assert!(ds.is_empty());
}
