use whatsapp_stats::counts::count_each;
use whatsapp_stats::message::Message;
use whatsapp_stats::stats::{
    contains_phrase, count_equal, count_phrase_per_user, count_word_per_user, extract_word_count,
    has_word, longest_message_length, messages_per_user, most_active_hour, top_speaker_per_hour,
    total_word_count, words_sent,
};

fn msg(owner: &str, hour: &str, text: &str) -> Message {
    Message {
        owner: owner.to_string(),
        date: "1/1/22".to_string(),
        hour: hour.to_string(),
        text: text.to_string(),
    }
}

#[test]
fn test_count_words() {
    let message_1 = Message {
        owner: "test_user".to_string(),
        date: "3/5/22".to_string(),
        hour: "20:37".to_string(),
        text: "World Hello".to_string(),
    };
    let message_2 = Message {
        owner: "test_user".to_string(),
        date: "3/5/22".to_string(),
        hour: "20:37".to_string(),
        text: "Hello sir".to_string(),
    };
    let messages_array = vec![message_1, message_2];
    let count = count_word_per_user(&messages_array[..], "Hello");
    assert_eq!(count.get("test_user"), Some(&(2 as i64)));
}

#[test]
fn test_count_phrase_per_user() {
    let message_1 = Message {
        owner: "Alice".to_string(),
        date: "3/5/22".to_string(),
        hour: "10:00".to_string(),
        text: "Rust is awesome".to_string(),
    };
    let message_2 = Message {
        owner: "Bob".to_string(),
        date: "3/5/22".to_string(),
        hour: "10:05".to_string(),
        text: "I think Rust is awesome too".to_string(),
    };
    let messages_array = vec![message_1, message_2];
    let counts = count_phrase_per_user(&messages_array[..], "Rust is awesome");
    assert_eq!(counts.get("Alice"), Some(&(1 as i64)));
    assert_eq!(counts.get("Bob"), Some(&(1 as i64)));
}

#[test]
fn test_total_word_count() {
    let message_1 = Message {
        owner: "Alice".to_string(),
        date: "3/5/22".to_string(),
        hour: "20:37".to_string(),
        text: "Hello world".to_string(),
    };
    let message_2 = Message {
        owner: "Bob".to_string(),
        date: "3/5/22".to_string(),
        hour: "20:38".to_string(),
        text: "hello Rust".to_string(),
    };
    let messages_array = vec![message_1, message_2];
    let counts = total_word_count(&messages_array[..]);
    assert_eq!(counts.get("hello"), Some(&(2 as i64)));
    assert_eq!(counts.get("world"), Some(&(1 as i64)));
    assert_eq!(counts.get("rust"), Some(&(1 as i64)));
}

#[test]
fn test_extract_word_count() {
    let message_1 = Message {
        owner: "Alice".to_string(),
        date: "3/5/22".to_string(),
        hour: "20:37".to_string(),
        text: "Hello world hello".to_string(),
    };
    let message_2 = Message {
        owner: "Bob".to_string(),
        date: "3/5/22".to_string(),
        hour: "20:38".to_string(),
        text: "hello Rust".to_string(),
    };
    let messages_array = vec![message_1, message_2];
    let count = extract_word_count(&messages_array[..], "hello");
    assert_eq!(count, 3);
}

#[test]
fn test_top_speaker_per_hour() {
    let message_1 = Message {
        owner: "Alice".to_string(),
        date: "3/5/22".to_string(),
        hour: "09:00".to_string(),
        text: "Hi there".to_string(),
    };
    let message_2 = Message {
        owner: "Bob".to_string(),
        date: "3/5/22".to_string(),
        hour: "09:15".to_string(),
        text: "Hello Alice".to_string(),
    };
    let message_3 = Message {
        owner: "Alice".to_string(),
        date: "3/5/22".to_string(),
        hour: "09:30".to_string(),
        text: "How are you?".to_string(),
    };
    let message_4 = Message {
        owner: "Charlie".to_string(),
        date: "3/5/22".to_string(),
        hour: "10:00".to_string(),
        text: "Good morning".to_string(),
    };
    let messages_array = vec![message_1, message_2, message_3, message_4];
    let top_speakers = top_speaker_per_hour(&messages_array[..]);
    assert_eq!(top_speakers.get("09"), Some(&"Alice".to_string()));
    assert_eq!(top_speakers.get("10"), Some(&"Charlie".to_string()));
}

#[test]
fn test_words_sent() {
    let messages = vec![
        Message {
            owner: "Alice".to_string(),
            date: "1/1/22".to_string(),
            hour: "12:00".to_string(),
            text: "Hello world".to_string(),
        },
        Message {
            owner: "Bob".to_string(),
            date: "1/1/22".to_string(),
            hour: "12:10".to_string(),
            text: "Hi Alice, how are you?".to_string(),
        },
    ];
    let total = words_sent(&messages[..]);
    assert_eq!(total, 7);
}

#[test]
fn test_most_active_hour() {
    let messages = vec![
        Message {
            owner: "Alice".to_string(),
            date: "1/1/22".to_string(),
            hour: "09:05".to_string(),
            text: "Morning".to_string(),
        },
        Message {
            owner: "Bob".to_string(),
            date: "1/1/22".to_string(),
            hour: "09:15".to_string(),
            text: "Hello".to_string(),
        },
        Message {
            owner: "Alice".to_string(),
            date: "1/1/22".to_string(),
            hour: "10:00".to_string(),
            text: "Later".to_string(),
        },
    ];
    let peak = most_active_hour(&messages[..]);
    assert_eq!(peak, "09".to_string());
}

#[test]
fn test_longest_message_length() {
    let messages = vec![
        Message {
            owner: "Alice".to_string(),
            date: "1/1/22".to_string(),
            hour: "11:00".to_string(),
            text: "Short msg".to_string(),
        },
        Message {
            owner: "Bob".to_string(),
            date: "1/1/22".to_string(),
            hour: "11:10".to_string(),
            text: "This is a much longer message than the first one".to_string(),
        },
    ];
    let longest = longest_message_length(&messages[..]);
    assert_eq!(longest, 10);
}

#[test]
fn total_word_count_tolerates_whitespace_runs() {
    let ms = vec![msg("Alice", "20:37", "Hello world"), msg("Bob", "20:38", "hello   Rust")];
    let counts = total_word_count(&ms);
    assert_eq!(counts.len(), 3);
    assert_eq!(counts.get("hello"), Some(&2));
    assert_eq!(counts.get("world"), Some(&1));
    assert_eq!(counts.get("rust"), Some(&1));
    assert_eq!(counts.get(""), None);
    assert_eq!(counts.get("Hello"), None);
}

#[test]
fn word_twice_in_a_message_counts_once() {
    let ms = vec![msg("Alice", "09:00", "hello HELLO hello"), msg("Bob", "09:01", "bye")];
    let counts = count_word_per_user(&ms, "Hello");
    assert_eq!(counts.get("Alice"), Some(&1));
    assert_eq!(counts.get("Bob"), None);
    assert_eq!(counts.len(), 1);
}

#[test]
fn word_match_is_whole_word_and_ignores_case() {
    let ms = vec![msg("Alice", "09:00", "helloworld"), msg("Bob", "09:01", "say HELLO")];
    let counts = count_word_per_user(&ms, "hello");
    assert_eq!(counts.get("Alice"), None);
    assert_eq!(counts.get("Bob"), Some(&1));
    assert_eq!(extract_word_count(&ms, "HeLLo"), 1);
}

#[test]
fn empty_target_matches_nothing() {
    let ms = vec![msg("Alice", "09:00", "anything at all")];
    assert_eq!(count_word_per_user(&ms, "").len(), 0);
    assert_eq!(count_phrase_per_user(&ms, "").len(), 0);
    assert_eq!(extract_word_count(&ms, ""), 0);
}

#[test]
fn phrase_match_ignores_case_and_counts_once() {
    let ms = vec![
        msg("Alice", "09:00", "RUST IS AWESOME, rust is awesome"),
        msg("Alice", "09:05", "nothing here"),
        msg("Bob", "09:10", "i think rust is awesome"),
    ];
    let counts = count_phrase_per_user(&ms, "Rust is Awesome");
    assert_eq!(counts.key(0), "Alice");
    assert_eq!(counts.count(0), 1);
    assert_eq!(counts.key(1), "Bob");
    assert_eq!(counts.count(1), 1);
}

#[test]
fn messages_per_user_counts_in_first_seen_order() {
    let ms = vec![msg("Bob", "09:00", "a"), msg("Alice", "09:01", "b"), msg("Bob", "09:02", "c")];
    let counts = messages_per_user(&ms);
    assert_eq!(counts.len(), 2);
    assert_eq!(counts.key(0), "Bob");
    assert_eq!(counts.count(0), 2);
    assert_eq!(counts.key(1), "Alice");
    assert_eq!(counts.count(1), 1);
}

#[test]
fn reducers_on_no_messages() {
    let ms: Vec<Message> = Vec::new();
    assert_eq!(most_active_hour(&ms), "");
    assert_eq!(longest_message_length(&ms), 0);
    assert_eq!(words_sent(&ms), 0);
    assert_eq!(extract_word_count(&ms, "x"), 0);
    assert_eq!(messages_per_user(&ms).len(), 0);
    assert_eq!(total_word_count(&ms).len(), 0);
    assert_eq!(top_speaker_per_hour(&ms).len(), 0);
}

#[test]
fn ties_go_to_the_first_seen() {
    let ms = vec![
        msg("Bob", "10:00", "a"),
        msg("Alice", "09:00", "b"),
        msg("Alice", "10:30", "c"),
        msg("Bob", "09:30", "d"),
    ];
    assert_eq!(most_active_hour(&ms), "10");
    let top = top_speaker_per_hour(&ms);
    assert_eq!(top.len(), 2);
    assert_eq!(top.hour(0), "10");
    assert_eq!(top.speaker(0), "Bob");
    assert_eq!(top.hour(1), "09");
    assert_eq!(top.speaker(1), "Alice");
    assert_eq!(top.get("11"), None);
}

#[test]
fn reducers_repeat_their_results() {
    let ms = vec![
        msg("Alice", "09:00", "Hi there hi"),
        msg("Bob", "09:15", "Hello Alice"),
        msg("Alice", "10:30", "How are you?"),
    ];
    assert_eq!(words_sent(&ms), words_sent(&ms));
    assert_eq!(longest_message_length(&ms), longest_message_length(&ms));
    assert_eq!(most_active_hour(&ms), most_active_hour(&ms));
    assert_eq!(extract_word_count(&ms, "hi"), extract_word_count(&ms, "hi"));
    let a = total_word_count(&ms);
    let b = total_word_count(&ms);
    assert_eq!(a.len(), b.len());
    for i in 0..a.len() {
        assert_eq!(a.key(i), b.key(i));
        assert_eq!(a.count(i), b.count(i));
    }
    let x = top_speaker_per_hour(&ms);
    let y = top_speaker_per_hour(&ms);
    assert_eq!(x.len(), y.len());
    for i in 0..x.len() {
        assert_eq!(x.hour(i), y.hour(i));
        assert_eq!(x.speaker(i), y.speaker(i));
    }
}

#[test]
fn word_helpers() {
    assert!(has_word("say hello now", "hello"));
    assert!(!has_word("sayhello", "hello"));
    assert!(contains_phrase("i think rust is fun", "rust is"));
    assert!(!contains_phrase("rust", "rust is"));
    assert!(!contains_phrase("rust", ""));
    let items = vec!["a".to_string(), "b".to_string(), "a".to_string()];
    assert_eq!(count_equal(&items, "a"), 2);
    let c = count_each(&items);
    assert_eq!(c.len(), 2);
    assert_eq!(c.get("a"), Some(&2));
    assert_eq!(c.get("b"), Some(&1));
    assert_eq!(c.most_common(), Some(0));
}
