use vstd::prelude::*;

use crate::counts::{entries_of, ranked, tally};
use crate::message::Message;
use crate::stats::{
    all_words, any_message, by_hour, lower_of, messages_per_user, owners_where,
    lemma_by_hour_len, top_speaker_per_hour, top_speakers, total_word_count,
};

verus! {

/// The owners and their message counts, most active first; owners with equal
/// counts stay in the order in which they first spoke.
pub fn prepare_user_activity(messages: &[Message]) -> (r: (Vec<String>, Vec<i64>))
    requires
        messages@.len() <= i64::MAX,
    ensures
        r.0@.len() == r.1@.len(),
        entries_of(r.0@, r.1@) == ranked(tally(owners_where(messages@, any_message()))),
{
    messages_per_user(messages).ranked().into_parts()
}

/// The `top_n` most frequent words, in lower case, with their counts, most
/// frequent first; words with equal counts stay in the order of first use.
pub fn prepare_word_frequencies(messages: &[Message], top_n: usize) -> (r: (
    Vec<String>,
    Vec<i64>,
))
    requires
        all_words(messages@).len() <= i64::MAX,
    ensures
        r.0@.len() == r.1@.len(),
        entries_of(r.0@, r.1@) == {
            let all = ranked(tally(all_words(messages@).map_values(|w: Seq<char>| lower_of(w))));
            if top_n <= all.len() {
                all.take(top_n as int)
            } else {
                all
            }
        },
{
    let (mut words, mut counts) = total_word_count(messages).ranked().into_parts();
    let ghost all = entries_of(words@, counts@);
    words.truncate(top_n);
    counts.truncate(top_n);
    assert(entries_of(words@, counts@) =~= if top_n <= all.len() {
        all.take(top_n as int)
    } else {
        all
    });
    (words, counts)
}

/// The top speaker of each hour, ordered by hour number, as two halves of twelve
/// entries each for a two-column display. Needs at least 24 hours with messages.
pub fn prepare_top_speaker_schedule(messages: &[Message]) -> (r: (
    Vec<(String, String)>,
    Vec<(String, String)>,
))
    requires
        messages@.len() <= i64::MAX,
        top_speakers(messages@).len() >= 24,
    ensures
        r.0@.map_values(|p: (String, String)| (p.0@, p.1@)) == by_hour(
            top_speakers(messages@),
        ).subrange(0, 12),
        r.1@.map_values(|p: (String, String)| (p.0@, p.1@)) == by_hour(
            top_speakers(messages@),
        ).subrange(12, 24),
{
    let entries = top_speaker_per_hour(messages).sorted_by_hour();
    proof {
        lemma_by_hour_len(top_speakers(messages@));
    }
    (entries.slice_pairs(0, 12), entries.slice_pairs(12, 24))
}

} // verus!
