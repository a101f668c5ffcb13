use crate::text::{append_decimal, chars_of, decimal, run_end, skip_run, string_from, CharClass};
use vstd::prelude::*;
use vstd::string::StringExecFns;

verus! {

/// Why a text was not taken.
#[derive(Debug, Clone, Copy, PartialEq, Eq, Structural)]
pub enum ParseError {
    /// The year, month and day that stand at this position name no day of
    /// the calendar.
    InvalidDate { position: usize },
    /// What stands at this position begins like a time, with a number and
    /// a colon, and is none.
    MalformedTime { position: usize },
    /// Nothing of the grammar matches what stands at this position.
    Unmatched { position: usize },
}

impl ParseError {
    /// The position, counted in characters, at which the text was not taken.
    pub open spec fn spec_position(&self) -> usize {
        match *self {
            ParseError::InvalidDate { position } => position,
            ParseError::MalformedTime { position } => position,
            ParseError::Unmatched { position } => position,
        }
    }

    /// The message of the error.
    pub open spec fn text(&self) -> Seq<char> {
        match *self {
            ParseError::InvalidDate { position } => "invalid date at character "@ + decimal(
                position as nat,
            ),
            ParseError::MalformedTime { position } => "malformed time at character "@ + decimal(
                position as nat,
            ),
            ParseError::Unmatched { position } => "unmatched input at character "@ + decimal(
                position as nat,
            ),
        }
    }

    /// The position, counted in characters, at which the text was not taken.
    #[verifier::when_used_as_spec(spec_position)]
    pub fn position(&self) -> (position: usize)
        ensures
            position == self.spec_position(),
    {
        match self {
            ParseError::InvalidDate { position } => *position,
            ParseError::MalformedTime { position } => *position,
            ParseError::Unmatched { position } => *position,
        }
    }

    /// What was not taken: the rest of the line that holds the position of
    /// the error; nothing where the position lies past the end of the text.
    pub open spec fn fragment_of(&self, text: Seq<char>) -> Seq<char> {
        let from = if self.spec_position() <= text.len() {
            self.spec_position() as int
        } else {
            text.len() as int
        };
        text.subrange(from, run_end(text, from, CharClass::Line))
    }

    /// What was not taken of `text`: the rest of the line that holds the
    /// position of the error.
    pub fn fragment(&self, text: &str) -> (fragment: String)
        ensures
            fragment@ == self.fragment_of(text@),
    {
        let chars = chars_of(text);
        let from = if self.position() <= chars.len() {
            self.position()
        } else {
            chars.len()
        };
        let end = skip_run(chars.as_slice(), from, CharClass::Line);
        string_from(chars.as_slice(), from, end)
    }

    /// The message of the error.
    pub fn to_string(&self) -> (s: String)
        ensures
            s@ == self.text(),
    {
        let mut s = match self {
            ParseError::InvalidDate { .. } => String::from_str("invalid date at character "),
            ParseError::MalformedTime { .. } => String::from_str("malformed time at character "),
            ParseError::Unmatched { .. } => String::from_str("unmatched input at character "),
        };
        append_decimal(&mut s, self.position() as u64);
        s
    }
}

} // verus!
