use vstd::prelude::*;

use crate::errors::ParseError;
use crate::text::{
    find_char, find_sep, first_char, first_sep, trim, trimmed,
};

verus! {

/// A chat message: when it was sent, who sent it and what it says.
#[derive(Debug, PartialEq, Eq)]
pub struct Message {
    pub date: String,
    pub hour: String,
    pub owner: String,
    pub text: String,
}

/// The four fields of a message as character sequences.
pub struct MessageView {
    pub date: Seq<char>,
    pub hour: Seq<char>,
    pub owner: Seq<char>,
    pub text: Seq<char>,
}

impl View for Message {
    type V = MessageView;

    open spec fn view(&self) -> MessageView {
        MessageView { date: self.date@, hour: self.hour@, owner: self.owner@, text: self.text@ }
    }
}

/// The views of a sequence of messages.
pub open spec fn message_views(ms: Seq<Message>) -> Seq<MessageView> {
    ms.map_values(|m: Message| m@)
}

/// `s` up to its first separator `", "`, or all of `s` where it has none.
pub open spec fn up_to_sep(s: Seq<char>) -> Seq<char> {
    match first_sep(s) {
        Some(i) => s.take(i),
        None => s,
    }
}

/// The message that a line `[date, hour] owner: text` holds, or `None` where the
/// line has another shape. Whitespace around the line, the owner and the text is
/// dropped; the text may contain colons, and the stamp ends at the first `]`.
pub open spec fn line_message(line: Seq<char>) -> Option<MessageView> {
    let t = trimmed(line);
    if t.len() == 0 || t[0] != '[' {
        None
    } else {
        match first_char(t, ']') {
            None => None,
            Some(close) => {
                let stamp = t.subrange(1, close);
                let rest = trimmed(t.subrange(close + 1, t.len() as int));
                match (first_sep(stamp), first_char(rest, ':')) {
                    (Some(sep), Some(colon)) => Some(
                        MessageView {
                            date: stamp.take(sep),
                            hour: up_to_sep(stamp.skip(sep + 2)),
                            owner: trimmed(rest.take(colon)),
                            text: trimmed(rest.skip(colon + 1)),
                        },
                    ),
                    _ => None,
                }
            },
        }
    }
}

impl Message {
    /// Reads one line of the form `[date, hour] owner: text`.
    pub fn new(line: &str) -> (r: Result<Message, ParseError>)
        ensures
            match r {
                Ok(m) => line_message(line@) == Some(m@),
                Err(e) => line_message(line@) is None && e is NoSplitter,
            },
    {
        let t = trim(line);
        let n = t.unicode_len();
        if n == 0 || t.get_char(0) != '[' {
            return Err(ParseError::NoSplitter);
        }
        let close = match find_char(t, ']') {
            Some(i) => i,
            None => {
                return Err(ParseError::NoSplitter);
            },
        };
        let stamp = t.substring_char(1, close);
        let rest = trim(t.substring_char(close + 1, n));
        let sep = match find_sep(stamp) {
            Some(i) => i,
            None => {
                return Err(ParseError::NoSplitter);
            },
        };
        let colon = match find_char(rest, ':') {
            Some(i) => i,
            None => {
                return Err(ParseError::NoSplitter);
            },
        };
        let after = stamp.substring_char(sep + 2, stamp.unicode_len());
        let hour = match find_sep(after) {
            Some(k) => after.substring_char(0, k),
            None => after,
        };
        let owner = trim(rest.substring_char(0, colon));
        let rest_len = rest.unicode_len();
        let text = trim(rest.substring_char(colon + 1, rest_len));
        let m = Message {
            date: stamp.substring_char(0, sep).to_owned(),
            hour: hour.to_owned(),
            owner: owner.to_owned(),
            text: text.to_owned(),
        };
        assert(stamp@.skip(sep + 2) =~= after@);
        assert(rest@.skip(colon + 1) =~= rest@.subrange(colon + 1, rest@.len() as int));
        Ok(m)
    }
}

} // verus!
