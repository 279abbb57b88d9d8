//! One full session driven through the connection handlers and the broker,
//! with the I/O layer played by the test: two clients join, one line is
//! relayed, one client leaves, and a message to the departed name goes
//! nowhere without any failure.

use chat_relay::broker::Broker;
use chat_relay::protocol::Connection;
use chat_relay::types::Action;
use chat_relay::types::Event;

#[test]
fn end_to_end_session() {
    let mut broker = Broker::new();

    // Client A connects and announces `alice`.
    let mut a = Connection::new(10);
    let ev = a.on_line("alice").expect("first line announces a peer");
    let acts = broker.handle_event(ev);
    assert_eq!(
        acts,
        vec![Action::SpawnWriter { name: "alice".to_string(), writer: 0, conn: 10 }]
    );

    // Client B connects and announces `bob`.
    let mut b = Connection::new(11);
    let ev = b.on_line("bob").expect("first line announces a peer");
    let acts = broker.handle_event(ev);
    assert_eq!(
        acts,
        vec![Action::SpawnWriter { name: "bob".to_string(), writer: 1, conn: 11 }]
    );

    // A sends `bob:hi`; bob's writer receives exactly `from alice: hi\n`.
    let ev = a.on_line("bob:hi").expect("addressed line is a message");
    let acts = broker.handle_event(ev);
    assert_eq!(
        acts,
        vec![Action::Deliver { writer: 1, line: "from alice: hi\n".to_string() }]
    );

    // A closes its socket: its writer task stops and reports the disconnect.
    let acts = broker.handle_event(Event::Disconnect { name: "alice".to_string() });
    assert_eq!(acts, vec![Action::Retire { writer: 0 }]);
    assert!(!broker.contains(&"alice".to_string()));

    // B writes to the departed name: nothing is delivered, nothing fails.
    let ev = b.on_line("alice:still there").expect("addressed line is a message");
    let acts = broker.handle_event(ev);
    assert_eq!(acts, vec![]);
    assert!(broker.contains(&"bob".to_string()));
}
