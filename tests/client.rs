use chat::client::{auth_line, inbound, outgoing_line, Inbound};
use chat::command::Command;

#[test]
fn inbound_events() {
    assert!(matches!(inbound("bob|3|".to_string()), Inbound::Joined(ref n) if n == "bob"));
    assert!(matches!(inbound("bob|4|".to_string()), Inbound::Left(ref n) if n == "bob"));
    assert!(matches!(inbound("bob|2|yo".to_string()), Inbound::Said(ref n, ref t) if n == "bob" && t == "yo"));
    let taken = inbound("|6|".to_string());
    assert!(matches!(taken, Inbound::NameTaken));
    assert!(taken.is_fatal());
    let unauth = inbound("|7|".to_string());
    assert!(matches!(unauth, Inbound::Unauthenticated));
    assert!(unauth.is_fatal());
    let other = inbound("bob|1|".to_string());
    assert!(matches!(other, Inbound::Ignored));
    assert!(!other.is_fatal());
}

#[test]
fn auth_line_encodes_username() {
    assert_eq!(auth_line(&"alice".to_string()), "alice|1|");
}

#[test]
fn commands_from_input() {
    assert!(matches!(Command::from_input("send hello"), Command::Send(ref t) if t == "hello"));
    assert!(matches!(Command::from_input("  send  hi there \n"), Command::Send(ref t) if t == " hi there"));
    assert!(matches!(Command::from_input("\tleave  "), Command::Leave));
    assert!(matches!(Command::from_input("leave"), Command::Leave));
    assert!(matches!(Command::from_input("send"), Command::Invalid));
    assert!(matches!(Command::from_input("leaving"), Command::Invalid));
    assert!(matches!(Command::from_input(""), Command::Invalid));
}

#[test]
fn commands_from_trimmed() {
    assert!(matches!(Command::from_trimmed("send x"), Command::Send(ref t) if t == "x"));
    assert!(matches!(Command::from_trimmed("send "), Command::Send(ref t) if t.is_empty()));
    assert!(matches!(Command::from_trimmed(" leave"), Command::Invalid));
}

#[test]
fn outgoing_lines() {
    let u = "dave".to_string();
    assert_eq!(outgoing_line(&u, Command::Send("hey".to_string())), Some("dave|2|hey".to_string()));
    assert_eq!(outgoing_line(&u, Command::Leave), Some("dave|4|".to_string()));
    assert_eq!(outgoing_line(&u, Command::Invalid), None);
}

#[test]
fn commands_trim_unicode_whitespace() {
    assert!(matches!(Command::from_input("\u{3000}leave\u{a0}"), Command::Leave));
    assert!(matches!(Command::from_input("\u{2003}send yo\u{2029}"), Command::Send(ref t) if t == "yo"));
    assert!(matches!(Command::from_input("\u{200b}leave"), Command::Invalid));
}
