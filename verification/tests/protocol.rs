use chat_relay::protocol::Connection;
use chat_relay::protocol::delivery_line;
use chat_relay::protocol::find_char;
use chat_relay::protocol::parse_line;
use chat_relay::protocol::split_recipients;
use chat_relay::protocol::trim;
use chat_relay::types::Event;

#[test]
fn parse_trims_recipients_and_body() {
    let (dest, body) = parse_line(" alice , bob :  hello there ").expect("line has a colon");
    assert_eq!(dest, vec!["alice".to_string(), "bob".to_string()]);
    assert_eq!(body, "hello there");
}

#[test]
fn parse_line_without_colon_means_nothing() {
    assert!(parse_line("no colon here").is_none());
}

#[test]
fn parse_empty_line_means_nothing() {
    assert!(parse_line("").is_none());
}

#[test]
fn parse_splits_at_first_colon_only() {
    let (dest, body) = parse_line("a:b:c").unwrap();
    assert_eq!(dest, vec!["a".to_string()]);
    assert_eq!(body, "b:c");
}

#[test]
fn parse_empty_recipient_and_body() {
    let (dest, body) = parse_line(":").unwrap();
    assert_eq!(dest, vec!["".to_string()]);
    assert_eq!(body, "");
}

#[test]
fn parse_keeps_duplicate_recipients() {
    let (dest, body) = parse_line("bob,bob:hi").unwrap();
    assert_eq!(dest, vec!["bob".to_string(), "bob".to_string()]);
    assert_eq!(body, "hi");
}

#[test]
fn parse_trims_unicode_whitespace() {
    let (dest, body) = parse_line("\u{a0}bob\u{3000}:\u{2003}hi\t").unwrap();
    assert_eq!(dest, vec!["bob".to_string()]);
    assert_eq!(body, "hi");
}

#[test]
fn trim_matches_std_trim() {
    for s in ["", "  ", " a b ", "\t x", "x\r\n", "\u{1680}y\u{205f}", "inner  kept"] {
        assert_eq!(trim(s), s.trim());
    }
}

#[test]
fn split_matches_std_split() {
    for s in ["", "a", "a,b", " a , b ", ",", "a,,b", ",x,"] {
        let got = split_recipients(s);
        let want: Vec<String> = s.split(',').map(|p| p.trim().to_string()).collect();
        assert_eq!(got, want);
    }
}

#[test]
fn find_char_finds_first_occurrence() {
    assert_eq!(find_char("a:b:c", ':'), Some(1));
    assert_eq!(find_char("abc", ':'), None);
    assert_eq!(find_char(":", ':'), Some(0));
}

#[test]
fn delivery_line_format() {
    assert_eq!(delivery_line("alice", "hi"), "from alice: hi\n");
    assert_eq!(delivery_line("", ""), "from : \n");
}

#[test]
fn connection_first_line_announces_name() {
    let mut c = Connection::new(5);
    let ev = c.on_line("alice");
    assert_eq!(ev, Some(Event::NewPeer { name: "alice".to_string(), conn: 5 }));
}

#[test]
fn connection_later_lines_are_messages() {
    let mut c = Connection::new(9);
    let _ = c.on_line("alice");
    let ev = c.on_line("bob , carol : hello");
    assert_eq!(
        ev,
        Some(Event::Message {
            from: "alice".to_string(),
            to: vec!["bob".to_string(), "carol".to_string()],
            msg: "hello".to_string(),
        })
    );
}

#[test]
fn connection_ignores_line_without_colon() {
    let mut c = Connection::new(1);
    let _ = c.on_line("alice");
    assert_eq!(c.on_line("no colon here"), None);
}

#[test]
fn connection_name_taken_verbatim() {
    let mut c = Connection::new(2);
    let ev = c.on_line("  spacey name  ");
    assert_eq!(ev, Some(Event::NewPeer { name: "  spacey name  ".to_string(), conn: 2 }));
}
