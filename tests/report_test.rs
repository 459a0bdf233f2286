use whatsapp_stats::message::Message;
use whatsapp_stats::report::{
    prepare_top_speaker_schedule, prepare_user_activity, prepare_word_frequencies,
};
use whatsapp_stats::time_utils::hour_number_of;

fn msg(owner: &str, hour: &str, text: &str) -> Message {
    Message {
        owner: owner.to_string(),
        date: "1/1/22".to_string(),
        hour: hour.to_string(),
        text: text.to_string(),
    }
}

#[test]
fn user_activity_is_ranked_most_active_first() {
    let ms = vec![
        msg("Alice", "09:00", "a"),
        msg("Bob", "09:01", "b"),
        msg("Carol", "09:02", "c"),
        msg("Bob", "09:03", "d"),
        msg("Carol", "09:04", "e"),
    ];
    let (names, values) = prepare_user_activity(&ms);
    assert_eq!(names, vec!["Bob".to_string(), "Carol".to_string(), "Alice".to_string()]);
    assert_eq!(values, vec![2, 2, 1]);
}

#[test]
fn word_frequencies_keep_the_top_words() {
    let ms = vec![msg("Alice", "09:00", "b a B"), msg("Bob", "09:01", "c A b")];
    let (words, counts) = prepare_word_frequencies(&ms, 2);
    assert_eq!(words, vec!["b".to_string(), "a".to_string()]);
    assert_eq!(counts, vec![3, 2]);
    let (all, _) = prepare_word_frequencies(&ms, 20);
    assert_eq!(all.len(), 3);
}

#[test]
fn schedule_is_split_by_hour_number() {
    let mut ms = Vec::new();
    for h in (0..24).rev() {
        ms.push(msg(&format!("user{}", h), &format!("{:02}:00", h), "hi"));
    }
    let (left, right) = prepare_top_speaker_schedule(&ms);
    assert_eq!(left.len(), 12);
    assert_eq!(right.len(), 12);
    assert_eq!(left[0], ("00".to_string(), "user0".to_string()));
    assert_eq!(left[11], ("11".to_string(), "user11".to_string()));
    assert_eq!(right[0], ("12".to_string(), "user12".to_string()));
    assert_eq!(right[11], ("23".to_string(), "user23".to_string()));
}

#[test]
fn hour_numbers_read_like_integer_parsing() {
    assert_eq!(hour_number_of("09"), 9);
    assert_eq!(hour_number_of("23"), 23);
    assert_eq!(hour_number_of("+7"), 7);
    assert_eq!(hour_number_of("-5"), -5);
    assert_eq!(hour_number_of("x1"), 0);
    assert_eq!(hour_number_of(""), 0);
    assert_eq!(hour_number_of("-"), 0);
    assert_eq!(hour_number_of(" 9"), 0);
    assert_eq!(hour_number_of("9223372036854775807"), i64::MAX);
    assert_eq!(hour_number_of("9223372036854775808"), 0);
    assert_eq!(hour_number_of("-9223372036854775808"), i64::MIN);
    assert_eq!(hour_number_of("99999999999999999999999"), 0);
}
