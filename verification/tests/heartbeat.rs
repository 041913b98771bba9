use eventbus::bus::EventBus;
use eventbus::conn::{Connection, deliver_matching, Frame};
use eventbus::event::{Envelope, Payload};
use eventbus::heartbeat::{broadcast_channel, heartbeat_envelope, interval_valid};

#[test]
fn heartbeat_envelope_is_stamped_and_addressed_to_broadcast() {
    let e = heartbeat_envelope(1234);
    assert_eq!(e.channel, "all");
    assert_eq!(e.payload, Payload::Heartbeat { time: 1234 });
}

#[test]
fn broadcast_channel_is_the_reserved_name() {
    assert_eq!(broadcast_channel(), "all");
}

#[test]
fn heartbeat_interval_must_be_positive() {
    assert!(!interval_valid(0));
    assert!(interval_valid(1));
    assert!(interval_valid(30));
}

#[test]
fn heartbeat_reaches_broadcast_subscribers() {
    let mut bus =
        EventBus::with_channels(vec![String::from("all")], Vec::new()).unwrap();
    bus.subscribe(broadcast_channel(), 1).unwrap();
    let tick: Envelope = heartbeat_envelope(7);
    let ds = bus.publish(&tick).unwrap();
    let mut conn = Connection::new(1);
    deliver_matching(&mut conn, &ds);
    assert_eq!(conn.take_outbound(), vec![Frame::Delivery(heartbeat_envelope(7))]);
}
