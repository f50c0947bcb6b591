use chat::message::Message;

#[test]
fn auth_message() {
    let input = String::from("alice|1|");
    let msg = Message::from(input);

    match msg {
        Message::AUTH(username) => assert_eq!(username, "alice"),
        _ => panic!("Expected AUTH message"),
    }
}

#[test]
fn join_message() {
    let input = String::from("bob|3|");
    let msg = Message::from(input);

    match msg {
        Message::JOIN(username) => assert_eq!(username, "bob"),
        _ => panic!("Expected JOIN message"),
    }
}

#[test]
fn leave_message() {
    let input = String::from("carol|4|");
    let msg = Message::from(input);

    match msg {
        Message::LEAVE(username) => assert_eq!(username, "carol"),
        _ => panic!("Expected LEAVE message"),
    }
}

#[test]
fn msg_message() {
    let input = String::from("dave|2|42");
    let msg = Message::from(input);

    match msg {
        Message::MSG(username, text) => {
            assert_eq!(username, "dave");
            assert_eq!(text, "42");
        }
        _ => panic!("Expected MSG message"),
    }
}

#[test]
fn invalid_message_type() {
    let input = String::from("alice|99|");
    let msg = Message::from(input);

    assert!(matches!(msg, Message::INVALID));
}

#[test]
fn invalid_payload_for_msg() {
    let input = String::from("alice|2|not_a_number");
    let msg = Message::from(input);

    let _ = matches!(msg, Message::INVALID);
}

#[test]
fn invalid_format_too_few_parts() {
    let input = String::from("alice|1");
    let msg = Message::from(input);

    assert!(matches!(msg, Message::INVALID));
}

#[test]
fn invalid_format_too_many_parts() {
    let input = String::from("alice|1||extra");
    let msg = Message::from(input);

    assert!(matches!(msg, Message::INVALID));
}

#[test]
fn to_string_auth() {
    let msg = Message::AUTH("alice".to_string());
    let encoded = msg.to_string();

    assert_eq!(encoded, "alice|1|");
}

#[test]
fn round_trip_msg() {
    let original = String::from("bob|2|123");
    let msg = Message::from(original.clone());
    let encoded = msg.to_string();

    assert_eq!(encoded, original);
}

#[test]
fn chat_payload_is_free_text() {
    match Message::from("alice|2|not_a_number".to_string()) {
        Message::MSG(u, t) => {
            assert_eq!(u, "alice");
            assert_eq!(t, "not_a_number");
        }
        other => panic!("unexpected {:?}", other),
    }
}

#[test]
fn encode_every_variant() {
    assert_eq!(Message::AUTH("a".to_string()).to_string(), "a|1|");
    assert_eq!(Message::MSG("a".to_string(), "hi there".to_string()).to_string(), "a|2|hi there");
    assert_eq!(Message::JOIN("b".to_string()).to_string(), "b|3|");
    assert_eq!(Message::LEAVE("c".to_string()).to_string(), "c|4|");
    assert_eq!(Message::INVALID.to_string(), "|5|");
    assert_eq!(Message::ALREADYTAKEN.to_string(), "|6|");
    assert_eq!(Message::UNAUTHENTICATED.to_string(), "|7|");
}

#[test]
fn notices_decode() {
    assert!(matches!(Message::from("|6|".to_string()), Message::ALREADYTAKEN));
    assert!(matches!(Message::from("|7|".to_string()), Message::UNAUTHENTICATED));
    assert!(matches!(Message::from("|5|".to_string()), Message::INVALID));
}

#[test]
fn round_trip_every_variant() {
    let frames = vec![
        Message::AUTH("alice".to_string()),
        Message::MSG("bob".to_string(), "hello, world".to_string()),
        Message::MSG(String::new(), String::new()),
        Message::JOIN("carol".to_string()),
        Message::LEAVE("dave".to_string()),
        Message::ALREADYTAKEN,
        Message::UNAUTHENTICATED,
    ];
    for f in frames {
        let expected = format!("{:?}", f);
        let line = f.to_string();
        let back = Message::from(line);
        assert_eq!(format!("{:?}", back), expected);
    }
}

#[test]
fn type_code_parses_as_unsigned_integer() {
    assert!(matches!(Message::from("alice|01|".to_string()), Message::AUTH(_)));
    assert!(matches!(Message::from("alice|+1|".to_string()), Message::AUTH(_)));
    assert!(matches!(Message::from("alice|+|".to_string()), Message::INVALID));
    assert!(matches!(Message::from("alice|-1|".to_string()), Message::INVALID));
    assert!(matches!(Message::from("alice||".to_string()), Message::INVALID));
    assert!(matches!(Message::from("alice| 1|".to_string()), Message::INVALID));
    assert!(matches!(Message::from("alice|65537|".to_string()), Message::INVALID));
    assert!(matches!(Message::from("alice|65535|".to_string()), Message::INVALID));
    assert!(matches!(Message::from("alice|8|".to_string()), Message::INVALID));
}

#[test]
fn decode_total_on_odd_lines() {
    assert!(matches!(Message::from(String::new()), Message::INVALID));
    assert!(matches!(Message::from("no pipes".to_string()), Message::INVALID));
    assert!(matches!(Message::from("||||".to_string()), Message::INVALID));
    match Message::from("ünï|2|çødé".to_string()) {
        Message::MSG(u, t) => {
            assert_eq!(u, "ünï");
            assert_eq!(t, "çødé");
        }
        other => panic!("unexpected {:?}", other),
    }
}
