use vstd::prelude::*;

verus! {

/// The characters with Unicode's `White_Space` property, the ones that
/// `char::is_whitespace` recognises.
pub open spec fn is_space(c: char) -> bool {
    let u = c as u32;
    (0x9 <= u && u <= 0xd) || u == 0x20 || u == 0x85 || u == 0xa0 || u == 0x1680 || (0x2000
        <= u && u <= 0x200a) || u == 0x2028 || u == 0x2029 || u == 0x202f || u == 0x205f || u
        == 0x3000
}

/// Whether `c` is a whitespace character.
pub fn is_space_char(c: char) -> (r: bool)
    ensures
        r == is_space(c),
{
    let u = c as u32;
    (0x9 <= u && u <= 0xd) || u == 0x20 || u == 0x85 || u == 0xa0 || u == 0x1680 || (0x2000
        <= u && u <= 0x200a) || u == 0x2028 || u == 0x2029 || u == 0x202f || u == 0x205f || u
        == 0x3000
}

/// The views of a sequence of strings.
pub open spec fn views(v: Seq<String>) -> Seq<Seq<char>> {
    v.map_values(|w: String| w@)
}

/// `s` without its leading whitespace.
pub open spec fn trim_start(s: Seq<char>) -> Seq<char>
    decreases s.len(),
{
    if s.len() > 0 && is_space(s[0]) {
        trim_start(s.drop_first())
    } else {
        s
    }
}

/// `s` without its trailing whitespace.
pub open spec fn trim_end(s: Seq<char>) -> Seq<char>
    decreases s.len(),
{
    if s.len() > 0 && is_space(s.last()) {
        trim_end(s.drop_last())
    } else {
        s
    }
}

/// `s` without whitespace at either end.
pub open spec fn trimmed(s: Seq<char>) -> Seq<char> {
    trim_end(trim_start(s))
}

/// Removes the whitespace at both ends of `s`.
pub fn trim(s: &str) -> (r: &str)
    ensures
        r@ == trimmed(s@),
{
    let n = s.unicode_len();
    let mut i: usize = 0;
    assert(s@.subrange(0, n as int) =~= s@);
    loop
        invariant
            n == s@.len(),
            i <= n,
            trim_start(s@.subrange(i as int, n as int)) == trim_start(s@),
        ensures
            i <= n,
            trim_start(s@.subrange(i as int, n as int)) == trim_start(s@),
            i == n || !is_space(s@[i as int]),
        decreases n - i,
    {
        if i == n {
            break;
        }
        if !is_space_char(s.get_char(i)) {
            break;
        }
        assert(s@.subrange(i as int, n as int).drop_first() =~= s@.subrange(i + 1, n as int));
        i += 1;
    }
    let mut j: usize = n;
    loop
        invariant
            n == s@.len(),
            i <= j <= n,
            trim_start(s@) == s@.subrange(i as int, n as int),
            trim_end(s@.subrange(i as int, j as int)) == trimmed(s@),
        ensures
            i <= j <= n,
            trim_end(s@.subrange(i as int, j as int)) == trimmed(s@),
            j == i || !is_space(s@[j - 1]),
        decreases j,
    {
        if j == i {
            break;
        }
        if !is_space_char(s.get_char(j - 1)) {
            break;
        }
        assert(s@.subrange(i as int, j as int).drop_last() =~= s@.subrange(i as int, j - 1));
        j -= 1;
    }
    s.substring_char(i, j)
}

/// The words of `s[..n]`: the maximal runs of non-whitespace characters, in order.
pub open spec fn words_upto(s: Seq<char>, n: int) -> Seq<Seq<char>>
    decreases n,
{
    if n <= 0 {
        seq![]
    } else if is_space(s[n - 1]) {
        words_upto(s, n - 1)
    } else if n >= 2 && !is_space(s[n - 2]) {
        let p = words_upto(s, n - 1);
        p.update(p.len() - 1, p.last().push(s[n - 1]))
    } else {
        words_upto(s, n - 1).push(seq![s[n - 1]])
    }
}

/// The words of `s`: its maximal runs of non-whitespace characters, in order.
pub open spec fn words(s: Seq<char>) -> Seq<Seq<char>> {
    words_upto(s, s.len() as int)
}

/// Splits `s` into its whitespace-separated words; runs of whitespace count as one
/// separator and give no empty words.
pub fn split_words(s: &str) -> (r: Vec<String>)
    ensures
        views(r@) == words(s@),
{
    let n = s.unicode_len();
    let mut out: Vec<String> = Vec::new();
    let mut start: usize = 0;
    let mut in_word = false;
    let mut i: usize = 0;
    while i < n
        invariant
            n == s@.len(),
            start <= i <= n,
            in_word == (i > 0 && !is_space(s@[i - 1])),
            in_word ==> start < i && views(out@).push(s@.subrange(start as int, i as int))
                == words_upto(s@, i as int),
            !in_word ==> views(out@) == words_upto(s@, i as int),
        decreases n - i,
    {
        let c = s.get_char(i);
        if is_space_char(c) {
            if in_word {
                let w = s.substring_char(start, i).to_owned();
                let ghost before = out@;
                out.push(w);
                assert(views(out@) =~= views(before).push(w@));
            }
            in_word = false;
        } else {
            if in_word {
                assert(s@.subrange(start as int, i + 1) =~= s@.subrange(start as int, i as int).push(c));
                assert(words_upto(s@, i + 1) =~= views(out@).push(s@.subrange(start as int, i + 1)));
            } else {
                start = i;
                assert(s@.subrange(start as int, i + 1) =~= seq![c]);
            }
            in_word = true;
        }
        i += 1;
    }
    if in_word {
        let w = s.substring_char(start, n).to_owned();
        let ghost before = out@;
        out.push(w);
        assert(views(out@) =~= views(before).push(w@));
    }
    out
}

/// Whether `c` first occurs in `s` at index `i`.
pub open spec fn is_first_char(s: Seq<char>, c: char, i: int) -> bool {
    0 <= i < s.len() && s[i] == c && forall|j: int| 0 <= j < i ==> s[j] != c
}

/// The index of the first `c` in `s`, if there is one.
pub open spec fn first_char(s: Seq<char>, c: char) -> Option<int> {
    if exists|i: int| is_first_char(s, c, i) {
        Some(choose|i: int| is_first_char(s, c, i))
    } else {
        None
    }
}

/// Finds the first occurrence of `c` in `s`.
pub fn find_char(s: &str, c: char) -> (r: Option<usize>)
    ensures
        r matches Some(i) ==> first_char(s@, c) == Some(i as int) && is_first_char(s@, c, i as int),
        r is None ==> first_char(s@, c) is None && !s@.contains(c),
{
    let n = s.unicode_len();
    let mut i: usize = 0;
    while i < n
        invariant
            n == s@.len(),
            i <= n,
            forall|j: int| 0 <= j < i ==> s@[j] != c,
        decreases n - i,
    {
        if s.get_char(i) == c {
            assert(is_first_char(s@, c, i as int));
            return Some(i);
        }
        i += 1;
    }
    None
}

/// Whether the separator `", "` starts at index `i` of `s`.
pub open spec fn sep_at(s: Seq<char>, i: int) -> bool {
    0 <= i && i + 1 < s.len() && s[i] == ',' && s[i + 1] == ' '
}

/// Whether the first separator `", "` of `s` starts at index `i`.
pub open spec fn is_first_sep(s: Seq<char>, i: int) -> bool {
    sep_at(s, i) && forall|j: int| 0 <= j < i ==> !sep_at(s, j)
}

/// The index of the first separator `", "` in `s`, if there is one.
pub open spec fn first_sep(s: Seq<char>) -> Option<int> {
    if exists|i: int| is_first_sep(s, i) {
        Some(choose|i: int| is_first_sep(s, i))
    } else {
        None
    }
}

/// Finds the first separator `", "` in `s`.
pub fn find_sep(s: &str) -> (r: Option<usize>)
    ensures
        r matches Some(i) ==> first_sep(s@) == Some(i as int) && is_first_sep(s@, i as int),
        r is None ==> first_sep(s@) is None,
{
    let n = s.unicode_len();
    let mut i: usize = 0;
    while n > 0 && i < n - 1
        invariant
            n == s@.len(),
            i <= n,
            forall|j: int| 0 <= j < i ==> !sep_at(s@, j),
        decreases n - i,
    {
        if s.get_char(i) == ',' && s.get_char(i + 1) == ' ' {
            assert(is_first_sep(s@, i as int));
            return Some(i);
        }
        i += 1;
    }
    assert forall|j: int| !is_first_sep(s@, j) by {
        if is_first_sep(s@, j) {
            assert(j < i);
        }
    }
    None
}

} // verus!
