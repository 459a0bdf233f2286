use vstd::prelude::*;

use crate::counts::{
    Counts, count_each, distinct, lemma_distinct_contains, occurrences, tally, top_index,
};
use crate::message::{Message, message_views};
use crate::text::{split_words, views, words};
use crate::time_utils::{get_hour, hour_number, hour_number_of, hour_of};

verus! {

/// The lower-case form of `s`, as `str::to_lowercase` gives it.
pub uninterp spec fn lower_of(s: Seq<char>) -> Seq<char>;

/// Relies on `str::to_lowercase`: its result depends on the characters alone, and
/// the empty string stays empty.
#[verifier::external_body]
fn to_lower(s: &str) -> (r: String)
    ensures
        r@ == lower_of(s@),
        s@.len() == 0 ==> r@.len() == 0,
{
    s.to_lowercase()
}

/// Whether `p` stands in `t` at index `i`.
pub open spec fn occurs_at(t: Seq<char>, p: Seq<char>, i: int) -> bool {
    0 <= i && i + p.len() <= t.len() && t.subrange(i, i + p.len()) == p
}

/// Whether the non-empty phrase `p` stands somewhere in `t`.
pub open spec fn has_phrase(t: Seq<char>, p: Seq<char>) -> bool {
    p.len() > 0 && exists|i: int| occurs_at(t, p, i)
}

/// The owners of the messages that `keep` selects, in order.
pub open spec fn owners_where(ms: Seq<Message>, keep: spec_fn(Message) -> bool) -> Seq<
    Seq<char>,
>
    decreases ms.len(),
{
    if ms.len() == 0 {
        seq![]
    } else {
        let p = owners_where(ms.drop_last(), keep);
        if keep(ms.last()) {
            p.push(ms.last().owner@)
        } else {
            p
        }
    }
}

/// Selects every message.
pub open spec fn any_message() -> spec_fn(Message) -> bool {
    |m: Message| true
}

/// Selects the messages whose lower-cased text has the word `w`.
pub open spec fn with_word(w: Seq<char>) -> spec_fn(Message) -> bool {
    |m: Message| words(lower_of(m.text@)).contains(w)
}

/// Selects the messages whose lower-cased text holds the phrase `p`.
pub open spec fn with_phrase(p: Seq<char>) -> spec_fn(Message) -> bool {
    |m: Message| has_phrase(lower_of(m.text@), p)
}

/// Selects the messages sent in the hour `h`.
pub open spec fn in_hour(h: Seq<char>) -> spec_fn(Message) -> bool {
    |m: Message| hour_of(m.hour@) == h
}

/// The words of all the texts, message after message.
pub open spec fn all_words(ms: Seq<Message>) -> Seq<Seq<char>>
    decreases ms.len(),
{
    if ms.len() == 0 {
        seq![]
    } else {
        all_words(ms.drop_last()) + words(ms.last().text@)
    }
}

/// The words of all the lower-cased texts, message after message.
pub open spec fn all_lower_words(ms: Seq<Message>) -> Seq<Seq<char>>
    decreases ms.len(),
{
    if ms.len() == 0 {
        seq![]
    } else {
        all_lower_words(ms.drop_last()) + words(lower_of(ms.last().text@))
    }
}

/// The hours in which the messages were sent, in order.
pub open spec fn hours_of(ms: Seq<Message>) -> Seq<Seq<char>> {
    ms.map_values(|m: Message| hour_of(m.hour@))
}

/// The largest number of words in one text; 0 where there are no messages.
pub open spec fn longest(ms: Seq<Message>) -> nat
    decreases ms.len(),
{
    if ms.len() == 0 {
        0
    } else {
        let p = longest(ms.drop_last());
        let n = words(ms.last().text@).len();
        if n > p {
            n
        } else {
            p
        }
    }
}

/// The key that occurs most often in `s`; of several, the one seen first.
pub open spec fn most_frequent(s: Seq<Seq<char>>) -> Seq<char> {
    tally(s)[top_index(tally(s))].0
}

/// Whether the phrase stands in `text` at index `i`.
fn phrase_at(text: &str, phrase: &str, i: usize, n: usize, m: usize) -> (r: bool)
    requires
        n == text@.len(),
        m == phrase@.len(),
        i + m <= n,
    ensures
        r == occurs_at(text@, phrase@, i as int),
{
    let mut k: usize = 0;
    while k < m
        invariant
            n == text@.len(),
            m == phrase@.len(),
            i + m <= n,
            k <= m,
            forall|l: int| 0 <= l < k ==> text@[i + l] == phrase@[l],
        decreases m - k,
    {
        if text.get_char(i + k) != phrase.get_char(k) {
            assert(text@.subrange(i as int, i + m)[k as int] != phrase@[k as int]);
            return false;
        }
        k += 1;
    }
    assert(text@.subrange(i as int, i + m) =~= phrase@);
    true
}

/// Whether the non-empty `phrase` stands somewhere in `text`; an empty phrase
/// matches nothing.
pub fn contains_phrase(text: &str, phrase: &str) -> (r: bool)
    ensures
        r == has_phrase(text@, phrase@),
{
    let n = text.unicode_len();
    let m = phrase.unicode_len();
    if m == 0 || m > n {
        return false;
    }
    let mut i: usize = 0;
    while i <= n - m
        invariant
            n == text@.len(),
            m == phrase@.len(),
            0 < m <= n,
            i <= n - m + 1,
            forall|j: int| 0 <= j < i ==> !occurs_at(text@, phrase@, j),
        decreases n - m + 1 - i,
    {
        if phrase_at(text, phrase, i, n, m) {
            return true;
        }
        i += 1;
    }
    false
}

/// Whether `word` is one of the whitespace-separated words of `text`.
pub fn has_word(text: &str, word: &str) -> (r: bool)
    ensures
        r == words(text@).contains(word@),
{
    let ws = split_words(text);
    let w = word.to_owned();
    let mut j: usize = 0;
    while j < ws.len()
        invariant
            j <= ws@.len(),
            views(ws@) == words(text@),
            w@ == word@,
            forall|l: int| 0 <= l < j ==> ws@[l]@ != word@,
        decreases ws@.len() - j,
    {
        if ws[j] == w {
            assert(views(ws@)[j as int] == ws@[j as int]@);
            return true;
        }
        j += 1;
    }
    assert forall|l: int| 0 <= l < words(text@).len() implies words(text@)[l] != word@ by {
        assert(views(ws@)[l] == ws@[l]@);
    }
    false
}

/// How many of `items` equal `word`.
pub fn count_equal(items: &[String], word: &str) -> (r: usize)
    ensures
        r == occurrences(views(items@), word@),
{
    let w = word.to_owned();
    let ghost all = views(items@);
    let mut count: usize = 0;
    let mut i: usize = 0;
    while i < items.len()
        invariant
            i <= items@.len(),
            all == views(items@),
            w@ == word@,
            count <= i,
            count == occurrences(all.take(i as int), word@),
        decreases items@.len() - i,
    {
        assert(all.take(i + 1).drop_last() =~= all.take(i as int));
        if items[i] == w {
            count += 1;
        }
        i += 1;
    }
    assert(all.take(items@.len() as int) =~= all);
    count
}

/// The words of all the texts, message after message.
fn collect_words(messages: &[Message]) -> (r: Vec<String>)
    ensures
        views(r@) == all_words(messages@),
{
    let mut out: Vec<String> = Vec::new();
    let mut i: usize = 0;
    while i < messages.len()
        invariant
            i <= messages@.len(),
            views(out@) == all_words(messages@.take(i as int)),
        decreases messages@.len() - i,
    {
        assert(messages@.take(i + 1).drop_last() =~= messages@.take(i as int));
        let mut ws = split_words(&messages[i].text);
        let ghost before = out@;
        let ghost added = ws@;
        out.append(&mut ws);
        assert(views(out@) =~= views(before) + views(added));
        i += 1;
    }
    assert(messages@.take(messages@.len() as int) =~= messages@);
    out
}

/// The total number of words sent, over all messages.
pub fn words_sent(messages: &[Message]) -> (r: usize)
    ensures
        r == all_words(messages@).len(),
{
    let ws = collect_words(messages);
    ws.len()
}

/// The largest number of words in a single message; 0 where there are none.
pub fn longest_message_length(messages: &[Message]) -> (r: usize)
    ensures
        r == longest(messages@),
{
    let mut best: usize = 0;
    let mut i: usize = 0;
    while i < messages.len()
        invariant
            i <= messages@.len(),
            best == longest(messages@.take(i as int)),
        decreases messages@.len() - i,
    {
        assert(messages@.take(i + 1).drop_last() =~= messages@.take(i as int));
        let n = split_words(&messages[i].text).len();
        if n > best {
            best = n;
        }
        i += 1;
    }
    assert(messages@.take(messages@.len() as int) =~= messages@);
    best
}

/// For each hour with messages, in the order of first appearance, the owner who
/// sent the most messages in it; of several, the one who first did.
pub open spec fn top_speakers(ms: Seq<Message>) -> Seq<(Seq<char>, Seq<char>)> {
    distinct(hours_of(ms)).map_values(
        |h: Seq<char>| (h, most_frequent(owners_where(ms, in_hour(h)))),
    )
}

/// A message sent in a given hour has an owner to count.
pub proof fn lemma_hour_has_owner(ms: Seq<Message>, h: Seq<char>)
    requires
        hours_of(ms).contains(h),
    ensures
        owners_where(ms, in_hour(h)).len() > 0,
    decreases ms.len(),
{
    let d = ms.drop_last();
    if hour_of(ms.last().hour@) != h {
        let i = choose|i: int| 0 <= i < hours_of(ms).len() && hours_of(ms)[i] == h;
        assert(i < d.len());
        assert(hours_of(d)[i] == h);
        lemma_hour_has_owner(d, h);
    }
}

/// A sequence with an item has a distinct item.
proof fn lemma_distinct_nonempty(s: Seq<Seq<char>>)
    requires
        s.len() > 0,
    ensures
        distinct(s).len() > 0,
{
    lemma_distinct_contains(s, s[0]);
    assert(s.contains(s[0]));
}

/// The owners of all messages, in order.
fn collect_owners(messages: &[Message]) -> (r: Vec<String>)
    ensures
        views(r@) == owners_where(messages@, any_message()),
        r@.len() <= messages@.len(),
{
    let mut owners: Vec<String> = Vec::new();
    let mut i: usize = 0;
    while i < messages.len()
        invariant
            i <= messages@.len(),
            owners@.len() <= i,
            views(owners@) == owners_where(messages@.take(i as int), any_message()),
        decreases messages@.len() - i,
    {
        assert(messages@.take(i + 1).drop_last() =~= messages@.take(i as int));
        let ghost before = owners@;
        owners.push(messages[i].owner.clone());
        assert(views(owners@) =~= views(before).push(messages@[i as int].owner@));
        i += 1;
    }
    assert(messages@.take(messages@.len() as int) =~= messages@);
    owners
}

/// The number of messages each owner sent.
pub fn messages_per_user(messages: &[Message]) -> (r: Counts)
    requires
        messages@.len() <= i64::MAX,
    ensures
        r.wf(),
        r@ == tally(owners_where(messages@, any_message())),
{
    let owners = collect_owners(messages);
    count_each(&owners)
}

/// For each owner, the number of their messages in which `target` is one of the
/// words, ignoring case; a message counts once however often it has the word.
pub fn count_word_per_user(messages: &[Message], target: &str) -> (r: Counts)
    requires
        messages@.len() <= i64::MAX,
    ensures
        r.wf(),
        r@ == tally(owners_where(messages@, with_word(lower_of(target@)))),
{
    let t = to_lower(target);
    let ghost keep = with_word(lower_of(target@));
    let mut owners: Vec<String> = Vec::new();
    let mut i: usize = 0;
    while i < messages.len()
        invariant
            i <= messages@.len() <= i64::MAX,
            t@ == lower_of(target@),
            keep == with_word(lower_of(target@)),
            owners@.len() <= i,
            views(owners@) == owners_where(messages@.take(i as int), keep),
        decreases messages@.len() - i,
    {
        assert(messages@.take(i + 1).drop_last() =~= messages@.take(i as int));
        let lt = to_lower(&messages[i].text);
        if has_word(&lt, &t) {
            let ghost before = owners@;
            owners.push(messages[i].owner.clone());
            assert(views(owners@) =~= views(before).push(messages@[i as int].owner@));
        }
        i += 1;
    }
    assert(messages@.take(messages@.len() as int) =~= messages@);
    count_each(&owners)
}

/// For each owner, the number of their messages that hold the phrase `target`,
/// ignoring case; a message counts once. An empty phrase matches nothing.
pub fn count_phrase_per_user(messages: &[Message], target: &str) -> (r: Counts)
    requires
        messages@.len() <= i64::MAX,
    ensures
        r.wf(),
        r@ == tally(owners_where(messages@, with_phrase(lower_of(target@)))),
        target@.len() == 0 ==> r@.len() == 0,
{
    let t = to_lower(target);
    let ghost keep = with_phrase(lower_of(target@));
    let mut owners: Vec<String> = Vec::new();
    let mut i: usize = 0;
    while i < messages.len()
        invariant
            i <= messages@.len() <= i64::MAX,
            t@ == lower_of(target@),
            target@.len() == 0 ==> t@.len() == 0,
            keep == with_phrase(lower_of(target@)),
            owners@.len() <= i,
            views(owners@) == owners_where(messages@.take(i as int), keep),
            t@.len() == 0 ==> owners@.len() == 0,
        decreases messages@.len() - i,
    {
        assert(messages@.take(i + 1).drop_last() =~= messages@.take(i as int));
        let lt = to_lower(&messages[i].text);
        if contains_phrase(&lt, &t) {
            let ghost before = owners@;
            owners.push(messages[i].owner.clone());
            assert(views(owners@) =~= views(before).push(messages@[i as int].owner@));
        }
        i += 1;
    }
    assert(messages@.take(messages@.len() as int) =~= messages@);
    assert(owners@.len() == 0 ==> views(owners@) =~= seq![]);
    count_each(&owners)
}

/// How often each word occurs over all messages, words taken in lower case.
pub fn total_word_count(messages: &[Message]) -> (r: Counts)
    requires
        all_words(messages@).len() <= i64::MAX,
    ensures
        r.wf(),
        r@ == tally(all_words(messages@).map_values(|w: Seq<char>| lower_of(w))),
{
    let ws = collect_words(messages);
    let ghost all = views(ws@);
    let mut lowered: Vec<String> = Vec::new();
    let mut i: usize = 0;
    while i < ws.len()
        invariant
            i <= ws@.len(),
            all == views(ws@),
            all == all_words(messages@),
            lowered@.len() == i,
            forall|j: int| 0 <= j < i ==> #[trigger] lowered@[j]@ == lower_of(all[j]),
        decreases ws@.len() - i,
    {
        let lw = to_lower(&ws[i]);
        assert(all[i as int] == ws@[i as int]@);
        lowered.push(lw);
        i += 1;
    }
    assert(views(lowered@) =~= all.map_values(|w: Seq<char>| lower_of(w)));
    count_each(&lowered)
}

/// How often `target` occurs as a word over all messages, ignoring case; every
/// occurrence counts.
pub fn extract_word_count(messages: &[Message], target: &str) -> (r: usize)
    ensures
        r == occurrences(all_lower_words(messages@), lower_of(target@)),
{
    let t = to_lower(target);
    let mut pool: Vec<String> = Vec::new();
    let mut i: usize = 0;
    while i < messages.len()
        invariant
            i <= messages@.len(),
            views(pool@) == all_lower_words(messages@.take(i as int)),
        decreases messages@.len() - i,
    {
        assert(messages@.take(i + 1).drop_last() =~= messages@.take(i as int));
        let lt = to_lower(&messages[i].text);
        let mut ws = split_words(&lt);
        let ghost before = pool@;
        let ghost added = ws@;
        pool.append(&mut ws);
        assert(views(pool@) =~= views(before) + views(added));
        i += 1;
    }
    assert(messages@.take(messages@.len() as int) =~= messages@);
    count_equal(&pool, t.as_str())
}

/// The hours in which the messages were sent, in order.
fn collect_hours(messages: &[Message]) -> (r: Vec<String>)
    ensures
        views(r@) == hours_of(messages@),
{
    let mut out: Vec<String> = Vec::new();
    let mut i: usize = 0;
    while i < messages.len()
        invariant
            i <= messages@.len(),
            out@.len() == i,
            forall|j: int| 0 <= j < i ==> #[trigger] out@[j]@ == hour_of(messages@[j].hour@),
        decreases messages@.len() - i,
    {
        let h = get_hour(&messages[i].hour);
        out.push(h);
        i += 1;
    }
    assert(views(out@) =~= hours_of(messages@));
    out
}

/// The hour in which most messages were sent; of several, the one seen first.
/// Empty where there are no messages.
pub fn most_active_hour(messages: &[Message]) -> (r: String)
    requires
        messages@.len() <= i64::MAX,
    ensures
        r@ == if messages@.len() == 0 {
            Seq::<char>::empty()
        } else {
            most_frequent(hours_of(messages@))
        },
{
    let hours = collect_hours(messages);
    let counts = count_each(&hours);
    if messages.len() > 0 {
        proof {
            lemma_distinct_nonempty(hours_of(messages@));
        }
    } else {
        assert(hours_of(messages@) =~= seq![]);
    }
    match counts.most_common() {
        Some(j) => counts.key(j).clone(),
        None => String::new(),
    }
}

/// The owners of the messages sent in the hour `h`.
fn owners_in_hour(messages: &[Message], h: &String) -> (r: Vec<String>)
    ensures
        views(r@) == owners_where(messages@, in_hour(h@)),
        r@.len() <= messages@.len(),
{
    let mut owners: Vec<String> = Vec::new();
    let mut i: usize = 0;
    while i < messages.len()
        invariant
            i <= messages@.len(),
            owners@.len() <= i,
            views(owners@) == owners_where(messages@.take(i as int), in_hour(h@)),
        decreases messages@.len() - i,
    {
        assert(messages@.take(i + 1).drop_last() =~= messages@.take(i as int));
        if get_hour(&messages[i].hour) == *h {
            let ghost before = owners@;
            owners.push(messages[i].owner.clone());
            assert(views(owners@) =~= views(before).push(messages@[i as int].owner@));
        }
        i += 1;
    }
    assert(messages@.take(messages@.len() as int) =~= messages@);
    owners
}

/// `s` with `e` placed after every entry whose hour number is at most `e`'s.
pub open spec fn insert_by_hour(s: Seq<(Seq<char>, Seq<char>)>, e: (Seq<char>, Seq<char>)) -> Seq<
    (Seq<char>, Seq<char>),
>
    decreases s.len(),
{
    if s.len() == 0 || hour_number(s.last().0) <= hour_number(e.0) {
        s.push(e)
    } else {
        insert_by_hour(s.drop_last(), e).push(s.last())
    }
}

/// The entries ordered by hour number, smallest first; entries with equal
/// numbers keep their order.
pub open spec fn by_hour(t: Seq<(Seq<char>, Seq<char>)>) -> Seq<(Seq<char>, Seq<char>)>
    decreases t.len(),
{
    if t.len() == 0 {
        seq![]
    } else {
        insert_by_hour(by_hour(t.drop_last()), t.last())
    }
}

/// Placing an entry goes in right before the entries with larger hour numbers
/// that end the sequence.
proof fn lemma_insert_by_hour_at(s: Seq<(Seq<char>, Seq<char>)>, e: (Seq<char>, Seq<char>), j: int)
    requires
        0 <= j <= s.len(),
        forall|m: int| j <= m < s.len() ==> hour_number(s[m].0) > hour_number(e.0),
        j == 0 || hour_number(s[j - 1].0) <= hour_number(e.0),
    ensures
        insert_by_hour(s, e) == s.take(j).push(e) + s.skip(j),
    decreases s.len(),
{
    if j == s.len() {
        assert(s.take(j).push(e) + s.skip(j) =~= s.push(e));
    } else {
        let d = s.drop_last();
        lemma_insert_by_hour_at(d, e, j);
        assert((d.take(j).push(e) + d.skip(j)).push(s.last()) =~= s.take(j).push(e) + s.skip(j));
    }
}

/// Sorting by hour keeps the number of entries.
pub proof fn lemma_by_hour_len(t: Seq<(Seq<char>, Seq<char>)>)
    ensures
        by_hour(t).len() == t.len(),
    decreases t.len(),
{
    if t.len() > 0 {
        lemma_by_hour_len(t.drop_last());
        lemma_insert_by_hour_len(by_hour(t.drop_last()), t.last());
    }
}

/// Placing an entry adds one to the length.
proof fn lemma_insert_by_hour_len(s: Seq<(Seq<char>, Seq<char>)>, e: (Seq<char>, Seq<char>))
    ensures
        insert_by_hour(s, e).len() == s.len() + 1,
    decreases s.len(),
{
    if s.len() > 0 {
        lemma_insert_by_hour_len(s.drop_last(), e);
    }
}

/// Pairs of an hour and the owner who spoke most in it.
pub struct TopSpeakers {
    hours: Vec<String>,
    speakers: Vec<String>,
}

/// Hours paired with the speakers at the same indices.
pub open spec fn pairs_of(hours: Seq<String>, speakers: Seq<String>) -> Seq<(Seq<char>, Seq<char>)> {
    Seq::new(hours.len(), |i: int| (hours[i]@, speakers[i]@))
}

impl View for TopSpeakers {
    type V = Seq<(Seq<char>, Seq<char>)>;

    closed spec fn view(&self) -> Seq<(Seq<char>, Seq<char>)> {
        pairs_of(self.hours@, self.speakers@)
    }
}

impl TopSpeakers {
    /// Hours and speakers pair up.
    pub closed spec fn wf(&self) -> bool {
        self.hours@.len() == self.speakers@.len()
    }

    /// The number of hours.
    pub fn len(&self) -> (r: usize)
        ensures
            r == self@.len(),
    {
        self.hours.len()
    }

    /// The hour of entry `i`.
    pub fn hour(&self, i: usize) -> (r: &String)
        requires
            i < self@.len(),
        ensures
            r@ == self@[i as int].0,
    {
        &self.hours[i]
    }

    /// The speaker of entry `i`.
    pub fn speaker(&self, i: usize) -> (r: &String)
        requires
            self.wf(),
            i < self@.len(),
        ensures
            r@ == self@[i as int].1,
    {
        &self.speakers[i]
    }

    /// The same entries ordered by hour number, smallest first; entries with equal
    /// numbers keep their order.
    pub fn sorted_by_hour(&self) -> (r: TopSpeakers)
        requires
            self.wf(),
        ensures
            r.wf(),
            r@ == by_hour(self@),
    {
        let n = self.hours.len();
        let mut hours: Vec<String> = Vec::new();
        let mut speakers: Vec<String> = Vec::new();
        let mut numbers: Vec<i64> = Vec::new();
        let mut i: usize = 0;
        assert(self@.take(0) =~= seq![]);
        while i < n
            invariant
                self.wf(),
                n == self@.len(),
                i <= n,
                hours@.len() == speakers@.len(),
                numbers@.len() == hours@.len(),
                forall|m: int| 0 <= m < numbers@.len() ==> #[trigger] numbers@[m] == hour_number(hours@[m]@),
                pairs_of(hours@, speakers@) == by_hour(self@.take(i as int)),
            decreases n - i,
        {
            assert(self@.take(i + 1).drop_last() =~= self@.take(i as int));
            let c = hour_number_of(&self.hours[i]);
            let mut j: usize = hours.len();
            while j > 0 && numbers[j - 1] > c
                invariant
                    i < self.hours@.len(),
                    j <= numbers@.len(),
                    numbers@.len() == hours@.len(),
                    c == hour_number(self.hours@[i as int]@),
                    forall|m: int| 0 <= m < numbers@.len() ==> #[trigger] numbers@[m] == hour_number(hours@[m]@),
                    forall|m: int| j <= m < numbers@.len() ==> numbers@[m] > c,
                decreases j,
            {
                j -= 1;
            }
            let ghost before = pairs_of(hours@, speakers@);
            let ghost e = self@[i as int];
            assert(e.0 == self.hours@[i as int]@);
            assert forall|m: int| j <= m < before.len() implies hour_number(before[m].0)
                > hour_number(e.0) by {
                assert(before[m].0 == hours@[m]@);
                assert(numbers@[m] > c);
            }
            if j > 0 {
                assert(before[j - 1].0 == hours@[j - 1]@);
                assert(numbers@[j - 1] <= c);
            }
            proof {
                lemma_insert_by_hour_at(before, e, j as int);
            }
            hours.insert(j, self.hours[i].clone());
            speakers.insert(j, self.speakers[i].clone());
            numbers.insert(j, c);
            assert(pairs_of(hours@, speakers@) =~= before.take(j as int).push(e) + before.skip(
                j as int,
            ));
            i += 1;
        }
        assert(self@.take(n as int) =~= self@);
        TopSpeakers { hours, speakers }
    }

    /// The entries from `from` up to `to`, as pairs of hour and speaker.
    pub fn slice_pairs(&self, from: usize, to: usize) -> (r: Vec<(String, String)>)
        requires
            self.wf(),
            from <= to <= self@.len(),
        ensures
            r@.map_values(|p: (String, String)| (p.0@, p.1@)) == self@.subrange(
                from as int,
                to as int,
            ),
    {
        let mut out: Vec<(String, String)> = Vec::new();
        let mut i: usize = from;
        while i < to
            invariant
                self.wf(),
                from <= i <= to <= self@.len(),
                out@.len() == i - from,
                forall|m: int|
                    0 <= m < out@.len() ==> (#[trigger] out@[m]).0@ == self@[from + m].0
                        && out@[m].1@ == self@[from + m].1,
            decreases to - i,
        {
            out.push((self.hours[i].clone(), self.speakers[i].clone()));
            i += 1;
        }
        assert(out@.map_values(|p: (String, String)| (p.0@, p.1@)) =~= self@.subrange(
            from as int,
            to as int,
        ));
        out
    }

    /// The top speaker of `hour`, or `None` where that hour had no messages.
    pub fn get(&self, hour: &str) -> (r: Option<&String>)
        requires
            self.wf(),
        ensures
            r matches Some(v) ==> exists|j: int|
                0 <= j < self@.len() && self@[j] == (hour@, v@),
            r is None ==> forall|j: int| 0 <= j < self@.len() ==> self@[j].0 != hour@,
    {
        let h = hour.to_owned();
        let mut j: usize = 0;
        while j < self.hours.len()
            invariant
                self.wf(),
                h@ == hour@,
                j <= self@.len(),
                forall|m: int| 0 <= m < j ==> self@[m].0 != hour@,
            decreases self@.len() - j,
        {
            if self.hours[j] == h {
                assert(self@[j as int] == (hour@, self.speakers@[j as int]@));
                return Some(&self.speakers[j]);
            }
            j += 1;
        }
        None
    }
}

/// For each hour with messages, the owner who sent the most messages in it; of
/// several, the one who first did. Hours without messages have no entry.
pub fn top_speaker_per_hour(messages: &[Message]) -> (r: TopSpeakers)
    requires
        messages@.len() <= i64::MAX,
    ensures
        r.wf(),
        r@ == top_speakers(messages@),
{
    let ghost ms = messages@;
    let hours = collect_hours(messages);
    let hour_counts = count_each(&hours);
    let ghost d = distinct(hours_of(ms));
    let mut hs: Vec<String> = Vec::new();
    let mut sp: Vec<String> = Vec::new();
    let mut k: usize = 0;
    while k < hour_counts.len()
        invariant
            ms == messages@,
            ms.len() <= i64::MAX,
            hour_counts.wf(),
            hour_counts@ == tally(hours_of(ms)),
            d == distinct(hours_of(ms)),
            k <= hour_counts@.len(),
            hs@.len() == k,
            sp@.len() == k,
            forall|l: int|
                0 <= l < k ==> #[trigger] hs@[l]@ == d[l] && sp@[l]@ == most_frequent(
                    owners_where(ms, in_hour(d[l])),
                ),
        decreases hour_counts@.len() - k,
    {
        let h = hour_counts.key(k);
        assert(h@ == d[k as int]);
        proof {
            lemma_distinct_contains(hours_of(ms), h@);
            assert(d.contains(h@));
            lemma_hour_has_owner(ms, h@);
        }
        let owners = owners_in_hour(messages, h);
        let oc = count_each(&owners);
        proof {
            lemma_distinct_nonempty(owners_where(ms, in_hour(h@)));
        }
        let j = match oc.most_common() {
            Some(j) => j,
            None => unreached(),
        };
        hs.push(h.clone());
        sp.push(oc.key(j).clone());
        assert(hs@[k as int]@ == d[k as int]);
        assert(sp@[k as int]@ == most_frequent(owners_where(ms, in_hour(d[k as int]))));
        k += 1;
    }
    let r = TopSpeakers { hours: hs, speakers: sp };
    assert(r@ =~= top_speakers(ms));
    r
}

/// A message counts at most once towards its owner, whatever selects it: no owner
/// is counted more often than they sent messages.
pub proof fn law_one_count_per_message(
    ms: Seq<Message>,
    keep: spec_fn(Message) -> bool,
    owner: Seq<char>,
)
    ensures
        occurrences(owners_where(ms, keep), owner) <= occurrences(
            owners_where(ms, any_message()),
            owner,
        ),
    decreases ms.len(),
{
    if ms.len() > 0 {
        let x = ms.last().owner@;
        let p = owners_where(ms.drop_last(), keep);
        let q = owners_where(ms.drop_last(), any_message());
        law_one_count_per_message(ms.drop_last(), keep, owner);
        assert(p.push(x).drop_last() =~= p);
        assert(q.push(x).drop_last() =~= q);
    }
}

/// Messages with the same contents give the same owners, words and hours.
proof fn lemma_same_contents(a: Seq<Message>, b: Seq<Message>, w: Seq<char>, p: Seq<char>, h: Seq<char>)
    requires
        message_views(a) == message_views(b),
    ensures
        owners_where(a, any_message()) == owners_where(b, any_message()),
        owners_where(a, with_word(w)) == owners_where(b, with_word(w)),
        owners_where(a, with_phrase(p)) == owners_where(b, with_phrase(p)),
        owners_where(a, in_hour(h)) == owners_where(b, in_hour(h)),
        all_words(a) == all_words(b),
        all_lower_words(a) == all_lower_words(b),
        hours_of(a) == hours_of(b),
        longest(a) == longest(b),
    decreases a.len(),
{
    assert(a.len() == message_views(a).len());
    assert(b.len() == message_views(b).len());
    if a.len() > 0 {
        let n = a.len() - 1;
        assert(message_views(a)[n] == a[n]@);
        assert(message_views(b)[n] == b[n]@);
        assert(message_views(a.drop_last()) =~= message_views(b.drop_last())) by {
            assert forall|i: int| 0 <= i < n implies message_views(a.drop_last())[i]
                == message_views(b.drop_last())[i] by {
                assert(message_views(a)[i] == a[i]@);
                assert(message_views(b)[i] == b[i]@);
            }
        }
        lemma_same_contents(a.drop_last(), b.drop_last(), w, p, h);
        assert(hours_of(a) =~= hours_of(a.drop_last()).push(hour_of(a[n].hour@)));
        assert(hours_of(b) =~= hours_of(b.drop_last()).push(hour_of(b[n].hour@)));
    } else {
        assert(hours_of(a) =~= hours_of(b));
    }
}

/// The reducers keep no state between calls: run twice over messages with the
/// same contents, each gives the same result.
pub proof fn law_reducers_repeatable(a: Seq<Message>, b: Seq<Message>, target: Seq<char>)
    requires
        message_views(a) == message_views(b),
    ensures
        tally(owners_where(a, any_message())) == tally(owners_where(b, any_message())),
        tally(owners_where(a, with_word(lower_of(target)))) == tally(
            owners_where(b, with_word(lower_of(target))),
        ),
        tally(owners_where(a, with_phrase(lower_of(target)))) == tally(
            owners_where(b, with_phrase(lower_of(target))),
        ),
        tally(all_words(a).map_values(|w: Seq<char>| lower_of(w))) == tally(
            all_words(b).map_values(|w: Seq<char>| lower_of(w)),
        ),
        occurrences(all_lower_words(a), lower_of(target)) == occurrences(
            all_lower_words(b),
            lower_of(target),
        ),
        all_words(a).len() == all_words(b).len(),
        longest(a) == longest(b),
        most_frequent(hours_of(a)) == most_frequent(hours_of(b)),
        top_speakers(a) == top_speakers(b),
{
    let t = lower_of(target);
    lemma_same_contents(a, b, t, t, seq![]);
    assert forall|h: Seq<char>| owners_where(a, in_hour(h)) == owners_where(b, in_hour(h)) by {
        lemma_same_contents(a, b, t, t, h);
    }
    assert(top_speakers(a) =~= top_speakers(b));
}

} // verus!
