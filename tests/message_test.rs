use whatsapp_stats::errors::ParseError;
use whatsapp_stats::message::Message;

#[test]
fn test_parse_one_message() {
    let input = "[3/5/22, 20:37] test_user: Hello";
    let expected = Message {
        owner: "test_user".to_string(),
        date: "3/5/22".to_string(),
        hour: "20:37".to_string(),
        text: "Hello".to_string(),
    };
    let parsed = Message::new(input).unwrap();
    assert_eq!(expected, parsed);
}

#[test]
fn line_without_bracket_is_rejected() {
    assert!(matches!(Message::new("hello there"), Err(ParseError::NoSplitter)));
}

#[test]
fn line_without_closing_bracket_is_rejected() {
    assert!(matches!(Message::new("[3/5/22, 20:37 test_user: Hello"), Err(ParseError::NoSplitter)));
}

#[test]
fn stamp_without_separator_is_rejected() {
    assert!(matches!(Message::new("[3/5/22 20:37] test_user: Hello"), Err(ParseError::NoSplitter)));
}

#[test]
fn line_without_colon_is_rejected() {
    assert!(matches!(Message::new("[3/5/22, 20:37] test_user Hello"), Err(ParseError::NoSplitter)));
}

#[test]
fn empty_line_is_rejected() {
    assert!(matches!(Message::new(""), Err(ParseError::NoSplitter)));
}

#[test]
fn text_keeps_colons_and_brackets() {
    let m = Message::new("  [1/1/22, 10:00]  Big Bob :  time: 10:00 [ok]  ").unwrap();
    assert_eq!(m.date, "1/1/22");
    assert_eq!(m.hour, "10:00");
    assert_eq!(m.owner, "Big Bob");
    assert_eq!(m.text, "time: 10:00 [ok]");
}

#[test]
fn empty_text_is_accepted() {
    let m = Message::new("[1/1/22, 10:00] Bob:").unwrap();
    assert_eq!(m.owner, "Bob");
    assert_eq!(m.text, "");
}

#[test]
fn extra_stamp_parts_are_ignored() {
    let m = Message::new("[1/1/22, 10:00, extra] Bob: hi").unwrap();
    assert_eq!(m.date, "1/1/22");
    assert_eq!(m.hour, "10:00");
}
