use vstd::prelude::*;

use crate::errors::ParseError;
use crate::message::{Message, MessageView, line_message, message_views};

verus! {

/// The lines of `s[..n]`, split at each `'\n'`; the last line is what follows the
/// last `'\n'`, empty where `s[..n]` ends with one.
pub open spec fn lines_upto(s: Seq<char>, n: int) -> Seq<Seq<char>>
    decreases n,
{
    if n <= 0 {
        seq![seq![]]
    } else {
        let p = lines_upto(s, n - 1);
        if s[n - 1] == '\n' {
            p.push(seq![])
        } else {
            p.update(p.len() - 1, p.last().push(s[n - 1]))
        }
    }
}

/// The lines of `s`, split at each `'\n'`.
pub open spec fn lines(s: Seq<char>) -> Seq<Seq<char>> {
    lines_upto(s, s.len() as int)
}

/// The messages that the lines hold, in order; a line of another shape gives none.
pub open spec fn parse_lines(ls: Seq<Seq<char>>) -> Seq<MessageView>
    decreases ls.len(),
{
    if ls.len() == 0 {
        seq![]
    } else {
        let p = parse_lines(ls.drop_last());
        match line_message(ls.last()) {
            Some(m) => p.push(m),
            None => p,
        }
    }
}

/// A transcript yields at most one message per line.
pub proof fn law_at_most_one_message_per_line(ls: Seq<Seq<char>>)
    ensures
        parse_lines(ls).len() <= ls.len(),
    decreases ls.len(),
{
    if ls.len() > 0 {
        law_at_most_one_message_per_line(ls.drop_last());
    }
}

/// Reads the messages of a chat transcript.
pub struct Parser<'a> {
    text: &'a str,
}

impl<'a> View for Parser<'a> {
    type V = Seq<char>;

    closed spec fn view(&self) -> Seq<char> {
        self.text@
    }
}

impl<'a> Parser<'a> {
    /// A parser over the transcript `text`.
    pub fn new(text: &'a str) -> (r: Parser<'a>)
        ensures
            r@ == text@,
    {
        Parser { text }
    }

    /// The messages of the transcript, one for each line of the shape
    /// `[date, hour] owner: text`, in the order of the lines. Lines of another
    /// shape are skipped; parsing as a whole never fails.
    pub fn parse(&self) -> (r: Result<Vec<Message>, ParseError>)
        ensures
            r matches Ok(ms) && message_views(ms@) == parse_lines(lines(self@)) && ms@.len()
                <= lines(self@).len(),
    {
        let s = self.text;
        let n = s.unicode_len();
        let mut out: Vec<Message> = Vec::new();
        let mut start: usize = 0;
        let mut i: usize = 0;
        while i < n
            invariant
                n == s@.len(),
                s@ == self@,
                start <= i <= n,
                lines_upto(s@, i as int).len() >= 1,
                lines_upto(s@, i as int).last() == s@.subrange(start as int, i as int),
                message_views(out@) == parse_lines(lines_upto(s@, i as int).drop_last()),
            decreases n - i,
        {
            let c = s.get_char(i);
            let ghost p = lines_upto(s@, i as int);
            if c == '\n' {
                let line = s.substring_char(start, i);
                let ghost before = out@;
                match Message::new(line) {
                    Ok(m) => {
                        out.push(m);
                        assert(message_views(out@) =~= message_views(before).push(m@));
                    },
                    Err(_) => {},
                }
                assert(lines_upto(s@, i + 1).drop_last() =~= p);
                assert(p.drop_last() =~= lines_upto(s@, i as int).drop_last());
                start = i + 1;
                assert(s@.subrange(start as int, i + 1) =~= seq![]);
            } else {
                assert(s@.subrange(start as int, i + 1) =~= s@.subrange(start as int, i as int).push(c));
                assert(lines_upto(s@, i + 1).drop_last() =~= p.drop_last());
            }
            i += 1;
        }
        let line = s.substring_char(start, n);
        let ghost before = out@;
        match Message::new(line) {
            Ok(m) => {
                out.push(m);
                assert(message_views(out@) =~= message_views(before).push(m@));
            },
            Err(_) => {},
        }
        proof {
            law_at_most_one_message_per_line(lines(s@));
        }
        Ok(out)
    }
}

} // verus!
