use chat_relay::broker::Broker;
use chat_relay::types::Action;
use chat_relay::types::Event;

fn new_peer(name: &str, conn: u64) -> Event {
    Event::NewPeer { name: name.to_string(), conn }
}

fn message(from: &str, to: &[&str], msg: &str) -> Event {
    Event::Message {
        from: from.to_string(),
        to: to.iter().map(|s| s.to_string()).collect(),
        msg: msg.to_string(),
    }
}

fn disconnect(name: &str) -> Event {
    Event::Disconnect { name: name.to_string() }
}

#[test]
fn new_peer_spawns_one_writer() {
    let mut b = Broker::new();
    let acts = b.handle_event(new_peer("alice", 7));
    assert_eq!(
        acts,
        vec![Action::SpawnWriter { name: "alice".to_string(), writer: 0, conn: 7 }]
    );
    assert!(b.contains(&"alice".to_string()));
}

#[test]
fn message_to_registered_peer_delivers_exactly_once() {
    let mut b = Broker::new();
    b.handle_event(new_peer("alice", 0));
    b.handle_event(new_peer("bob", 1));
    let acts = b.handle_event(message("alice", &["bob"], "hi"));
    assert_eq!(
        acts,
        vec![Action::Deliver { writer: 1, line: "from alice: hi\n".to_string() }]
    );
}

#[test]
fn message_to_unregistered_name_is_silent() {
    let mut b = Broker::new();
    b.handle_event(new_peer("alice", 0));
    let acts = b.handle_event(message("alice", &["nobody"], "hi"));
    assert_eq!(acts, vec![]);
}

#[test]
fn message_routes_only_to_named_recipients() {
    let mut b = Broker::new();
    b.handle_event(new_peer("alice", 0));
    b.handle_event(new_peer("bob", 1));
    b.handle_event(new_peer("carol", 2));
    let acts = b.handle_event(message("alice", &["carol"], "psst"));
    assert_eq!(
        acts,
        vec![Action::Deliver { writer: 2, line: "from alice: psst\n".to_string() }]
    );
}

#[test]
fn duplicate_recipients_deliver_once_each() {
    let mut b = Broker::new();
    b.handle_event(new_peer("alice", 0));
    b.handle_event(new_peer("bob", 1));
    let acts = b.handle_event(message("alice", &["bob", "nobody", "bob"], "hi"));
    assert_eq!(
        acts,
        vec![
            Action::Deliver { writer: 1, line: "from alice: hi\n".to_string() },
            Action::Deliver { writer: 1, line: "from alice: hi\n".to_string() },
        ]
    );
}

#[test]
fn deliveries_keep_event_order() {
    let mut b = Broker::new();
    b.handle_event(new_peer("alice", 0));
    b.handle_event(new_peer("bob", 1));
    let first = b.handle_event(message("alice", &["bob"], "one"));
    let second = b.handle_event(message("alice", &["bob"], "two"));
    assert_eq!(
        first,
        vec![Action::Deliver { writer: 1, line: "from alice: one\n".to_string() }]
    );
    assert_eq!(
        second,
        vec![Action::Deliver { writer: 1, line: "from alice: two\n".to_string() }]
    );
}

#[test]
fn duplicate_name_is_a_no_op() {
    let mut b = Broker::new();
    let first = b.handle_event(new_peer("alice", 0));
    assert_eq!(
        first,
        vec![Action::SpawnWriter { name: "alice".to_string(), writer: 0, conn: 0 }]
    );
    let second = b.handle_event(new_peer("alice", 5));
    assert_eq!(second, vec![]);
    // The first registration's writer still owns the delivery stream.
    let acts = b.handle_event(message("bob", &["alice"], "hi"));
    assert_eq!(
        acts,
        vec![Action::Deliver { writer: 0, line: "from bob: hi\n".to_string() }]
    );
}

#[test]
fn disconnect_removes_entry_and_retires_writer() {
    let mut b = Broker::new();
    b.handle_event(new_peer("alice", 0));
    let acts = b.handle_event(disconnect("alice"));
    assert_eq!(acts, vec![Action::Retire { writer: 0 }]);
    assert!(!b.contains(&"alice".to_string()));
}

#[test]
fn registry_follows_new_peer_and_disconnect_interleaving() {
    let mut b = Broker::new();
    let alice = "alice".to_string();
    assert!(!b.contains(&alice));
    b.handle_event(new_peer("alice", 0));
    assert!(b.contains(&alice));
    b.handle_event(disconnect("alice"));
    assert!(!b.contains(&alice));
    b.handle_event(new_peer("alice", 3));
    assert!(b.contains(&alice));
    // A duplicate registration attempt changes nothing.
    b.handle_event(new_peer("alice", 4));
    assert!(b.contains(&alice));
    b.handle_event(disconnect("alice"));
    assert!(!b.contains(&alice));
}

#[test]
fn rejoin_after_disconnect_gets_fresh_writer() {
    let mut b = Broker::new();
    b.handle_event(new_peer("alice", 0));
    b.handle_event(disconnect("alice"));
    let acts = b.handle_event(new_peer("alice", 1));
    assert_eq!(
        acts,
        vec![Action::SpawnWriter { name: "alice".to_string(), writer: 1, conn: 1 }]
    );
}

#[test]
fn fresh_ids_available() {
    let b = Broker::new();
    assert!(b.has_fresh_id());
}
