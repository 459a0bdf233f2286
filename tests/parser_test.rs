use whatsapp_stats::message::Message;
use whatsapp_stats::parser::Parser;
use whatsapp_stats::text::{split_words, trim};
use whatsapp_stats::time_utils::get_hour;

#[test]
fn test_parse() {
    let test_message_1 = Message {
        owner: "test_user".to_string(),
        date: "3/5/22".to_string(),
        hour: "20:37".to_string(),
        text: "Hello".to_string(),
    };
    let test_message_2 = Message {
        owner: "test_user".to_string(),
        date: "3/5/22".to_string(),
        hour: "20:37".to_string(),
        text: "GoodBye".to_string(),
    };

    let expected_test: Vec<Message> = vec![test_message_1, test_message_2];
    let content = "[3/5/22, 20:37] test_user: Hello\n[3/5/22, 20:37] test_user: GoodBye\n";
    let parser = Parser::new(content);

    let parsed_array: Vec<Message> = parser.parse().unwrap();
    assert_eq!(expected_test, parsed_array)
}

#[test]
fn invalid_line_is_dropped() {
    let content = "[3/5/22, 20:37] test_user: Hello\nhello there";
    let parsed = Parser::new(content).parse().unwrap();
    assert_eq!(parsed.len(), 1);
    assert_eq!(parsed[0].text, "Hello");
}

#[test]
fn empty_input_gives_no_messages() {
    assert!(Parser::new("").parse().unwrap().is_empty());
}

#[test]
fn parse_gives_at_most_one_message_per_line() {
    let content = "noise\n[1/1/22, 09:00] A: one\ncontinued line\n\n[1/1/22, 09:01] B: two\r\n";
    let parsed = Parser::new(content).parse().unwrap();
    assert!(parsed.len() <= content.split('\n').count());
    assert_eq!(parsed.len(), 2);
    assert_eq!(parsed[1].owner, "B");
    assert_eq!(parsed[1].text, "two");
}

#[test]
fn hour_is_text_before_first_colon() {
    assert_eq!(get_hour("09:15"), "09");
    assert_eq!(get_hour("0915"), "0915");
    assert_eq!(get_hour(""), "");
}

#[test]
fn words_ignore_whitespace_runs() {
    let ws = split_words("  hello \t  Rust\u{3000}world  ");
    assert_eq!(ws, vec!["hello".to_string(), "Rust".to_string(), "world".to_string()]);
    assert!(split_words("   ").is_empty());
}

#[test]
fn trim_removes_unicode_whitespace() {
    assert_eq!(trim("\u{a0} a b \n"), "a b");
    assert_eq!(trim("  "), "");
}
