use vstd::prelude::*;

use crate::text::views;

verus! {

/// The distinct items of `s`, in the order of their first occurrence.
pub open spec fn distinct(s: Seq<Seq<char>>) -> Seq<Seq<char>>
    decreases s.len(),
{
    if s.len() == 0 {
        seq![]
    } else {
        let p = distinct(s.drop_last());
        if s.drop_last().contains(s.last()) {
            p
        } else {
            p.push(s.last())
        }
    }
}

/// How many times `k` occurs in `s`.
pub open spec fn occurrences(s: Seq<Seq<char>>, k: Seq<char>) -> nat
    decreases s.len(),
{
    if s.len() == 0 {
        0
    } else {
        occurrences(s.drop_last(), k) + if s.last() == k {
            1nat
        } else {
            0nat
        }
    }
}

/// Each distinct item of `s` with the number of its occurrences, in the order of
/// first occurrence.
pub open spec fn tally(s: Seq<Seq<char>>) -> Seq<(Seq<char>, int)> {
    distinct(s).map_values(|k: Seq<char>| (k, occurrences(s, k) as int))
}

/// No two items of `d` are equal.
pub open spec fn no_dup(d: Seq<Seq<char>>) -> bool {
    forall|i: int, j: int| 0 <= i < d.len() && 0 <= j < d.len() && i != j ==> d[i] != d[j]
}

/// The index of the entry with the largest count; among equal counts, the first.
pub open spec fn top_index(e: Seq<(Seq<char>, int)>) -> int
    decreases e.len(),
{
    if e.len() <= 1 {
        0
    } else {
        let j = top_index(e.drop_last());
        if e.last().1 > e[j].1 {
            e.len() - 1
        } else {
            j
        }
    }
}

/// The distinct items of a sequence are exactly its items.
pub proof fn lemma_distinct_contains(s: Seq<Seq<char>>, k: Seq<char>)
    ensures
        distinct(s).contains(k) <==> s.contains(k),
    decreases s.len(),
{
    if s.len() > 0 {
        let d = s.drop_last();
        lemma_distinct_contains(d, k);
        if d.contains(k) {
            let i = choose|i: int| 0 <= i < d.len() && d[i] == k;
            assert(s[i] == k);
        }
        if s.contains(k) {
            let i = choose|i: int| 0 <= i < s.len() && s[i] == k;
            if i < d.len() {
                assert(d[i] == k);
            }
        }
        let p = distinct(d);
        if !d.contains(s.last()) {
            let q = p.push(s.last());
            assert(q[q.len() - 1] == s.last());
            if q.contains(k) {
                let i = choose|i: int| 0 <= i < q.len() && q[i] == k;
                if i < p.len() {
                    assert(p[i] == k);
                }
            }
            if p.contains(k) {
                let i = choose|i: int| 0 <= i < p.len() && p[i] == k;
                assert(q[i] == k);
            }
        }
    }
}

/// The distinct items of a sequence are pairwise different.
pub proof fn lemma_distinct_no_dup(s: Seq<Seq<char>>)
    ensures
        no_dup(distinct(s)),
    decreases s.len(),
{
    if s.len() > 0 {
        lemma_distinct_no_dup(s.drop_last());
        lemma_distinct_contains(s.drop_last(), s.last());
    }
}

/// An item that a sequence lacks occurs in it zero times.
pub proof fn lemma_occurrences_absent(s: Seq<Seq<char>>, k: Seq<char>)
    requires
        !s.contains(k),
    ensures
        occurrences(s, k) == 0,
    decreases s.len(),
{
    if s.len() > 0 {
        let d = s.drop_last();
        assert(s[s.len() - 1] != k);
        assert forall|i: int| 0 <= i < d.len() implies d[i] != k by {
            assert(s[i] != k);
        }
        lemma_occurrences_absent(d, k);
    }
}

/// An item occurs no more often than the sequence is long.
pub proof fn lemma_occurrences_bound(s: Seq<Seq<char>>, k: Seq<char>)
    ensures
        occurrences(s, k) <= s.len(),
    decreases s.len(),
{
    if s.len() > 0 {
        lemma_occurrences_bound(s.drop_last(), k);
    }
}

/// `s` with `e` placed after every entry whose count is at least `e`'s.
pub open spec fn insert_ranked(s: Seq<(Seq<char>, int)>, e: (Seq<char>, int)) -> Seq<
    (Seq<char>, int),
>
    decreases s.len(),
{
    if s.len() == 0 || s.last().1 >= e.1 {
        s.push(e)
    } else {
        insert_ranked(s.drop_last(), e).push(s.last())
    }
}

/// The entries ordered by count, largest first; entries with equal counts keep
/// their order.
pub open spec fn ranked(t: Seq<(Seq<char>, int)>) -> Seq<(Seq<char>, int)>
    decreases t.len(),
{
    if t.len() == 0 {
        seq![]
    } else {
        insert_ranked(ranked(t.drop_last()), t.last())
    }
}

/// Placing an entry goes in right before the entries with smaller counts that end
/// the sequence.
proof fn lemma_insert_at(s: Seq<(Seq<char>, int)>, e: (Seq<char>, int), j: int)
    requires
        0 <= j <= s.len(),
        forall|m: int| j <= m < s.len() ==> s[m].1 < e.1,
        j == 0 || s[j - 1].1 >= e.1,
    ensures
        insert_ranked(s, e) == s.take(j).push(e) + s.skip(j),
    decreases s.len(),
{
    if j == s.len() {
        assert(s.take(j).push(e) + s.skip(j) =~= s.push(e));
    } else {
        let d = s.drop_last();
        lemma_insert_at(d, e, j);
        assert((d.take(j).push(e) + d.skip(j)).push(s.last()) =~= s.take(j).push(e) + s.skip(j));
    }
}

/// Keys paired with the counts at the same indices.
pub open spec fn entries_of(keys: Seq<String>, counts: Seq<i64>) -> Seq<(Seq<char>, int)> {
    Seq::new(keys.len(), |i: int| (keys[i]@, counts[i] as int))
}

/// A table from text keys to counts, in the order in which the keys were first seen.
pub struct Counts {
    keys: Vec<String>,
    counts: Vec<i64>,
}

impl View for Counts {
    type V = Seq<(Seq<char>, int)>;

    closed spec fn view(&self) -> Seq<(Seq<char>, int)> {
        entries_of(self.keys@, self.counts@)
    }
}

/// Finds the key `key` among `keys`.
fn position(keys: &Vec<String>, key: &String) -> (r: Option<usize>)
    ensures
        r matches Some(j) ==> j < keys@.len() && keys@[j as int]@ == key@,
        r is None ==> forall|m: int| 0 <= m < keys@.len() ==> keys@[m]@ != key@,
{
    let mut j: usize = 0;
    while j < keys.len()
        invariant
            j <= keys@.len(),
            forall|m: int| 0 <= m < j ==> keys@[m]@ != key@,
        decreases keys@.len() - j,
    {
        if keys[j] == *key {
            return Some(j);
        }
        j += 1;
    }
    None
}

/// Counts the occurrences of each distinct item, in the order of first occurrence.
pub fn count_each(items: &[String]) -> (r: Counts)
    requires
        items@.len() <= i64::MAX,
    ensures
        r.wf(),
        r@ == tally(views(items@)),
{
    let ghost all = views(items@);
    let mut keys: Vec<String> = Vec::new();
    let mut counts: Vec<i64> = Vec::new();
    let mut i: usize = 0;
    assert(all.take(0) =~= seq![]);
    assert(tally(all.take(0)) =~= seq![]);
    while i < items.len()
        invariant
            i <= items@.len() <= i64::MAX,
            all == views(items@),
            keys@.len() == counts@.len(),
            entries_of(keys@, counts@) == tally(all.take(i as int)),
        decreases items@.len() - i,
    {
        let ghost s = all.take(i as int);
        let ghost s2 = all.take(i + 1);
        let ghost x = items@[i as int]@;
        let ghost d = distinct(s);
        assert(s2.drop_last() =~= s);
        assert(s2.last() == x);
        assert forall|k: Seq<char>|
            occurrences(s2, k) == occurrences(s, k) + if k == x {
                1nat
            } else {
                0nat
            } by {}
        proof {
            lemma_distinct_contains(s, x);
            lemma_distinct_no_dup(s);
            lemma_occurrences_bound(s, x);
        }
        assert(views(keys@) =~= d) by {
            assert(entries_of(keys@, counts@).len() == keys@.len());
            assert(tally(s).len() == d.len());
            assert(views(keys@).len() == keys@.len());
            assert forall|m: int| 0 <= m < keys@.len() implies keys@[m]@ == d[m] by {
                assert(tally(s).len() == d.len());
                assert(views(keys@)[m] == keys@[m]@);
                assert(entries_of(keys@, counts@)[m] == tally(s)[m]);
                assert(tally(s)[m] == (d[m], occurrences(s, d[m]) as int));
            }
        }
        match position(&keys, &items[i]) {
            Some(j) => {
                let ghost before = entries_of(keys@, counts@);
                assert(before[j as int] == tally(s)[j as int]);
                assert(d[j as int] == x);
                let c = counts[j];
                counts.set(j, c + 1);
                assert(distinct(s2) == d);
                assert forall|m: int| 0 <= m < d.len() implies entries_of(keys@, counts@)[m]
                    == tally(s2)[m] by {
                    assert(before[m] == tally(s)[m]);
                    assert(tally(s)[m] == (d[m], occurrences(s, d[m]) as int));
                    assert(tally(s2)[m] == (d[m], occurrences(s2, d[m]) as int));
                    if m != j {
                        assert(d[m] != d[j as int]);
                    }
                }
                assert(entries_of(keys@, counts@) =~= tally(s2));
            },
            None => {
                let ghost before = entries_of(keys@, counts@);
                assert(!d.contains(x)) by {
                    if d.contains(x) {
                        let m = choose|m: int| 0 <= m < d.len() && d[m] == x;
                        assert(keys@[m]@ == d[m]);
                    }
                }
                proof {
                    lemma_occurrences_absent(s, x);
                }
                assert(distinct(s2) == d.push(x));
                keys.push(items[i].clone());
                counts.push(1);
                assert forall|m: int| 0 <= m < d.len() + 1 implies entries_of(keys@, counts@)[m]
                    == tally(s2)[m] by {
                    assert(tally(s2)[m] == (distinct(s2)[m], occurrences(s2, distinct(s2)[m]) as int));
                    if m < d.len() {
                        assert(before[m] == tally(s)[m]);
                        assert(tally(s)[m] == (d[m], occurrences(s, d[m]) as int));
                        assert(d[m] != x);
                    }
                }
                assert(entries_of(keys@, counts@) =~= tally(s2));
            },
        }
        i += 1;
    }
    assert(all.take(items@.len() as int) =~= all);
    Counts { keys, counts }
}

impl Counts {
    /// Keys and counts pair up.
    pub closed spec fn wf(&self) -> bool {
        self.keys@.len() == self.counts@.len()
    }

    /// The number of keys.
    pub fn len(&self) -> (r: usize)
        ensures
            r == self@.len(),
    {
        self.keys.len()
    }

    /// The key of entry `i`.
    pub fn key(&self, i: usize) -> (r: &String)
        requires
            i < self@.len(),
        ensures
            r@ == self@[i as int].0,
    {
        &self.keys[i]
    }

    /// The count of entry `i`.
    pub fn count(&self, i: usize) -> (r: i64)
        requires
            self.wf(),
            i < self@.len(),
        ensures
            r == self@[i as int].1,
    {
        self.counts[i]
    }

    /// The count of `key`, or `None` where it has none.
    pub fn get(&self, key: &str) -> (r: Option<&i64>)
        requires
            self.wf(),
        ensures
            r matches Some(v) ==> exists|j: int|
                0 <= j < self@.len() && self@[j] == (key@, *v as int),
            r is None ==> forall|j: int| 0 <= j < self@.len() ==> self@[j].0 != key@,
    {
        let k = key.to_owned();
        match position(&self.keys, &k) {
            Some(j) => {
                assert(self@[j as int] == (key@, self.counts@[j as int] as int));
                Some(&self.counts[j])
            },
            None => {
                assert forall|j: int| 0 <= j < self@.len() implies self@[j].0 != key@ by {
                    assert(self@[j].0 == self.keys@[j]@);
                }
                None
            },
        }
    }

    /// The index of the entry with the largest count, the first of several such;
    /// `None` where the table is empty.
    pub fn most_common(&self) -> (r: Option<usize>)
        requires
            self.wf(),
        ensures
            r is None <==> self@.len() == 0,
            r matches Some(j) ==> j == top_index(self@) && j < self@.len(),
    {
        let n = self.keys.len();
        if n == 0 {
            return None;
        }
        let mut best: usize = 0;
        let mut i: usize = 1;
        assert(self@.take(1).drop_last() =~= seq![]);
        while i < n
            invariant
                self.wf(),
                n == self@.len(),
                1 <= i <= n,
                best < i,
                best == top_index(self@.take(i as int)),
            decreases n - i,
        {
            let ghost e2 = self@.take(i + 1);
            assert(e2.drop_last() =~= self@.take(i as int));
            assert(e2[best as int] == self@[best as int]);
            if self.counts[i] > self.counts[best] {
                best = i;
            }
            i += 1;
        }
        assert(self@.take(n as int) =~= self@);
        Some(best)
    }

    /// The same entries ordered by count, largest first; entries with equal
    /// counts keep their order.
    pub fn ranked(&self) -> (r: Counts)
        requires
            self.wf(),
        ensures
            r.wf(),
            r@ == ranked(self@),
    {
        let n = self.keys.len();
        let mut keys: Vec<String> = Vec::new();
        let mut counts: Vec<i64> = Vec::new();
        let mut i: usize = 0;
        assert(self@.take(0) =~= seq![]);
        while i < n
            invariant
                self.wf(),
                n == self@.len(),
                i <= n,
                keys@.len() == counts@.len(),
                entries_of(keys@, counts@) == ranked(self@.take(i as int)),
            decreases n - i,
        {
            assert(self@.take(i + 1).drop_last() =~= self@.take(i as int));
            let c = self.counts[i];
            let mut j: usize = keys.len();
            while j > 0 && counts[j - 1] < c
                invariant
                    j <= keys@.len(),
                    keys@.len() == counts@.len(),
                    forall|m: int| j <= m < counts@.len() ==> counts@[m] < c,
                decreases j,
            {
                j -= 1;
            }
            let ghost before = entries_of(keys@, counts@);
            let ghost e = self@[i as int];
            proof {
                lemma_insert_at(before, e, j as int);
            }
            keys.insert(j, self.keys[i].clone());
            counts.insert(j, c);
            assert(entries_of(keys@, counts@) =~= before.take(j as int).push(e) + before.skip(
                j as int,
            ));
            i += 1;
        }
        assert(self@.take(n as int) =~= self@);
        Counts { keys, counts }
    }

    /// The keys and the counts, as two sequences of equal length.
    pub fn into_parts(self) -> (r: (Vec<String>, Vec<i64>))
        requires
            self.wf(),
        ensures
            r.0@.len() == r.1@.len(),
            entries_of(r.0@, r.1@) == self@,
    {
        (self.keys, self.counts)
    }
}

} // verus!
