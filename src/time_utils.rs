use vstd::prelude::*;

use crate::text::{find_char, first_char};

verus! {

/// The hour of a time `HH:MM`: what precedes its first colon, or the whole time
/// where it has none.
pub open spec fn hour_of(time: Seq<char>) -> Seq<char> {
    match first_char(time, ':') {
        Some(i) => time.take(i),
        None => time,
    }
}

/// Extracts the hour from a time `HH:MM` (`"09"` from `"09:15"`).
pub fn get_hour(time: &str) -> (r: String)
    ensures
        r@ == hour_of(time@),
{
    match find_char(time, ':') {
        Some(i) => time.substring_char(0, i).to_owned(),
        None => time.to_owned(),
    }
}

/// Whether `c` is an ASCII digit.
pub open spec fn is_digit(c: char) -> bool {
    48 <= (c as u32) && (c as u32) <= 57
}

/// The value of the decimal digits `s`.
pub open spec fn digits_value(s: Seq<char>) -> int
    decreases s.len(),
{
    if s.len() == 0 {
        0
    } else {
        digits_value(s.drop_last()) * 10 + ((s.last() as u32) - 48)
    }
}

/// `s` without a leading sign.
pub open spec fn unsigned_part(s: Seq<char>) -> Seq<char> {
    if s.len() > 0 && (s[0] == '+' || s[0] == '-') {
        s.drop_first()
    } else {
        s
    }
}

/// The value of the signed decimal `s`.
pub open spec fn signed_value(s: Seq<char>) -> int {
    if s.len() > 0 && s[0] == '-' {
        -digits_value(unsigned_part(s))
    } else {
        digits_value(unsigned_part(s))
    }
}

/// The number that `s` writes in the form that `str::parse::<i64>` reads: an
/// optional sign and one or more ASCII digits, within the range of `i64`.
pub open spec fn parsed_i64(s: Seq<char>) -> Option<int> {
    let d = unsigned_part(s);
    if d.len() > 0 && (forall|i: int| 0 <= i < d.len() ==> is_digit(d[i])) && i64::MIN
        <= signed_value(s) <= i64::MAX {
        Some(signed_value(s))
    } else {
        None
    }
}

/// The number of an hour, or 0 where it does not write one.
pub open spec fn hour_number(h: Seq<char>) -> int {
    match parsed_i64(h) {
        Some(v) => v,
        None => 0,
    }
}

/// Digits only add to the value of their prefix.
proof fn lemma_digits_grow(d: Seq<char>, k: int)
    requires
        0 <= k <= d.len(),
        forall|i: int| 0 <= i < d.len() ==> is_digit(d[i]),
    ensures
        digits_value(d) >= digits_value(d.take(k)) >= 0,
    decreases d.len(),
{
    if d.len() > 0 {
        if k == d.len() {
            assert(d.take(k) =~= d);
            lemma_digits_grow(d.drop_last(), 0);
        } else {
            assert(d.drop_last().take(k) =~= d.take(k));
            lemma_digits_grow(d.drop_last(), k);
        }
    } else {
        assert(d.take(k) =~= d);
    }
}

/// Reads the number of an hour as `str::parse::<i64>` does; 0 where it does not
/// write one.
pub fn hour_number_of(h: &str) -> (r: i64)
    ensures
        r == hour_number(h@),
{
    let n = h.unicode_len();
    let ghost d = unsigned_part(h@);
    let mut start: usize = 0;
    let mut negative = false;
    if n > 0 {
        let c = h.get_char(0);
        if c == '+' || c == '-' {
            negative = c == '-';
            start = 1;
        }
    }
    assert(d =~= h@.subrange(start as int, n as int));
    if start == n {
        return 0;
    }
    let limit: u128 = 9223372036854775808;
    let mut acc: u128 = 0;
    let mut k: usize = start;
    assert(d.take(0) =~= seq![]);
    while k < n
        invariant
            n == h@.len(),
            start < n,
            start <= k <= n,
            d == h@.subrange(start as int, n as int),
            d == unsigned_part(h@),
            negative == (h@.len() > 0 && h@[0] == '-'),
            forall|i: int| 0 <= i < k - start ==> is_digit(d[i]),
            limit == 9223372036854775808,
            acc <= limit,
            acc == digits_value(d.take(k - start)),
        decreases n - k,
    {
        let u = h.get_char(k) as u32;
        if !(48 <= u && u <= 57) {
            assert(!is_digit(d[k - start]));
            return 0;
        }
        assert(d.take(k - start + 1).drop_last() =~= d.take(k - start));
        acc = acc * 10 + (u - 48) as u128;
        if acc > limit {
            proof {
                if forall|i: int| 0 <= i < d.len() ==> is_digit(d[i]) {
                    lemma_digits_grow(d, k - start + 1);
                }
            }
            return 0;
        }
        k += 1;
    }
    assert(d.take(n - start) =~= d);
    if negative {
        if acc == limit {
            i64::MIN
        } else {
            -(acc as i64)
        }
    } else if acc < limit {
        acc as i64
    } else {
        0
    }
}

} // verus!
