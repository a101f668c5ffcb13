use crate::config::Config;
use crate::text::{chars_of, lemma_run_end, run_end, skip_run, string_from, CharClass};
use vstd::prelude::*;
use vstd::string::StringExecFns;

verus! {

/// What a word of a description is.
#[derive(Debug, Clone, Copy, PartialEq, Eq, Structural)]
pub enum TokenKind {
    Prose,
    Tag,
    Ticket,
}

/// A token as contracts see it.
pub ghost struct TokenSpec {
    pub kind: TokenKind,
    pub text: Seq<char>,
    pub whitespace: Seq<char>,
}

impl TokenSpec {
    /// The token as it stood in the source: its text, then the whitespace
    /// that followed it.
    pub open spec fn source(self) -> Seq<char> {
        self.text + self.whitespace
    }
}

/// A word of a description, with the whitespace that followed it.
#[derive(Debug)]
pub struct Token {
    pub kind: TokenKind,
    pub text: String,
    pub whitespace: String,
}

impl View for Token {
    type V = TokenSpec;

    open spec fn view(&self) -> TokenSpec {
        TokenSpec { kind: self.kind, text: self.text@, whitespace: self.whitespace@ }
    }
}

impl Clone for Token {
    fn clone(&self) -> (token: Token)
        ensures
            token@ == self@,
    {
        Token { kind: self.kind, text: self.text.clone(), whitespace: self.whitespace.clone() }
    }
}

impl Token {
    pub fn tag(text: String) -> (token: Token)
        ensures
            token@ == (TokenSpec { kind: TokenKind::Tag, text: text@, whitespace: Seq::empty() }),
    {
        Token { kind: TokenKind::Tag, text, whitespace: String::new() }
    }

    pub fn prose(text: String) -> (token: Token)
        ensures
            token@ == (TokenSpec { kind: TokenKind::Prose, text: text@, whitespace: Seq::empty() }),
    {
        Token { kind: TokenKind::Prose, text, whitespace: String::new() }
    }

    pub fn ticket(identifier: String) -> (token: Token)
        ensures
            token@ == (TokenSpec {
                kind: TokenKind::Ticket,
                text: identifier@,
                whitespace: Seq::empty(),
            }),
    {
        Token { kind: TokenKind::Ticket, text: identifier, whitespace: String::new() }
    }

    /// The token as it stood in the source.
    pub fn to_string(&self) -> (s: String)
        ensures
            s@ == self@.source(),
    {
        let mut s = self.text.clone();
        s.append(self.whitespace.as_str());
        s
    }

    pub fn text(&self) -> (text: &str)
        ensures
            text@ == self@.text,
    {
        self.text.as_str()
    }
}


/// The tag that stands at `pos`: an `@`, then letters and digits, which are
/// the tag's text, then the spaces and tabs that follow. With the token
/// comes the position after it.
pub open spec fn tag_token_at(s: Seq<char>, pos: int) -> Option<(TokenSpec, int)> {
    let name_end = run_end(s, pos + 1, CharClass::Alphanumeric);
    let end = run_end(s, name_end, CharClass::Space);
    if 0 <= pos < s.len() && s[pos] == '@' && name_end > pos + 1 {
        Some(
            (
                TokenSpec {
                    kind: TokenKind::Tag,
                    text: s.subrange(pos + 1, name_end),
                    whitespace: s.subrange(name_end, end),
                },
                end,
            ),
        )
    } else {
        None
    }
}

/// Whether `prefix` stands at `pos`.
pub open spec fn has_prefix_at(s: Seq<char>, pos: int, prefix: Seq<char>) -> bool {
    0 <= pos && pos + prefix.len() <= s.len() && s.subrange(pos, pos + prefix.len()) == prefix
}

/// The ticket of one project that stands at `pos`: the project's prefix,
/// then letters and digits, which together are the ticket's text, then the
/// spaces and tabs that follow.
pub open spec fn prefixed_ticket_at(s: Seq<char>, pos: int, prefix: Seq<char>) -> Option<
    (TokenSpec, int),
> {
    let id_start = pos + prefix.len();
    let id_end = run_end(s, id_start, CharClass::Alphanumeric);
    let end = run_end(s, id_end, CharClass::Space);
    if has_prefix_at(s, pos, prefix) && id_end > id_start {
        Some(
            (
                TokenSpec {
                    kind: TokenKind::Ticket,
                    text: s.subrange(pos, id_end),
                    whitespace: s.subrange(id_end, end),
                },
                end,
            ),
        )
    } else {
        None
    }
}

/// The ticket that stands at `pos` for the first of the prefixes, from the
/// `k`-th on, for which there is one.
pub open spec fn ticket_token_from(s: Seq<char>, pos: int, prefixes: Seq<Seq<char>>, k: int) -> Option<
    (TokenSpec, int),
>
    decreases prefixes.len() - k,
{
    if 0 <= k < prefixes.len() {
        match prefixed_ticket_at(s, pos, prefixes[k]) {
            Some(found) => Some(found),
            None => ticket_token_from(s, pos, prefixes, k + 1),
        }
    } else {
        None
    }
}

/// The ticket that stands at `pos` for the first of the prefixes for which
/// there is one.
pub open spec fn ticket_token_at(s: Seq<char>, pos: int, prefixes: Seq<Seq<char>>) -> Option<
    (TokenSpec, int),
> {
    ticket_token_from(s, pos, prefixes, 0)
}

/// The word that stands at `pos`: spaces and tabs, then a run of anything
/// but a space and a line end, which together are the word's text, then
/// the spaces and tabs that follow.
pub open spec fn prose_token_at(s: Seq<char>, pos: int) -> Option<(TokenSpec, int)> {
    let word_start = run_end(s, pos, CharClass::Space);
    let word_end = run_end(s, word_start, CharClass::Word);
    let end = run_end(s, word_end, CharClass::Space);
    if 0 <= pos && word_end > word_start {
        Some(
            (
                TokenSpec {
                    kind: TokenKind::Prose,
                    text: s.subrange(pos, word_end),
                    whitespace: s.subrange(word_end, end),
                },
                end,
            ),
        )
    } else {
        None
    }
}

/// The token that stands at `pos`: a tag; where there is none, a ticket;
/// where there is none, a word.
pub open spec fn token_at(s: Seq<char>, pos: int, prefixes: Seq<Seq<char>>) -> Option<
    (TokenSpec, int),
> {
    match tag_token_at(s, pos) {
        Some(found) => Some(found),
        None => match ticket_token_at(s, pos, prefixes) {
            Some(found) => Some(found),
            None => prose_token_at(s, pos),
        },
    }
}

impl TokenSpec {
    /// The token as it was written: a tag has an `@` before its text.
    pub open spec fn written(self) -> Seq<char> {
        if self.kind == TokenKind::Tag {
            seq!['@'] + self.source()
        } else {
            self.source()
        }
    }
}

/// A ticket covers the text from `pos` to its end, and ends after `pos`.
pub proof fn lemma_ticket_token_from(s: Seq<char>, pos: int, prefixes: Seq<Seq<char>>, k: int)
    requires
        0 <= k,
    ensures
        ticket_token_from(s, pos, prefixes, k) matches Some(found) ==> pos < found.1 <= s.len()
            && found.0.written() == s.subrange(pos, found.1) && found.0.kind
            == TokenKind::Ticket,
    decreases prefixes.len() - k,
{
    if k < prefixes.len() {
        match prefixed_ticket_at(s, pos, prefixes[k]) {
            Some(found) => {
                let id_start = pos + prefixes[k].len();
                lemma_run_end(s, id_start, CharClass::Alphanumeric);
                let id_end = run_end(s, id_start, CharClass::Alphanumeric);
                lemma_run_end(s, id_end, CharClass::Space);
                assert(found.0.written() =~= s.subrange(pos, found.1));
            },
            None => {
                lemma_ticket_token_from(s, pos, prefixes, k + 1);
            },
        }
    }
}

/// A token covers the text from `pos` to its end as it was written, and
/// ends after `pos`.
pub proof fn lemma_token_at(s: Seq<char>, pos: int, prefixes: Seq<Seq<char>>)
    ensures
        token_at(s, pos, prefixes) matches Some(found) ==> 0 <= pos < found.1 <= s.len()
            && found.0.written() == s.subrange(pos, found.1),
{
    if tag_token_at(s, pos) is Some {
        let found = tag_token_at(s, pos)->0;
        lemma_run_end(s, pos + 1, CharClass::Alphanumeric);
        let name_end = run_end(s, pos + 1, CharClass::Alphanumeric);
        lemma_run_end(s, name_end, CharClass::Space);
        assert(found.0.written() =~= s.subrange(pos, found.1));
    } else if ticket_token_at(s, pos, prefixes) is Some {
        lemma_ticket_token_from(s, pos, prefixes, 0);
        let found = ticket_token_at(s, pos, prefixes)->0;
        if pos < 0 {
            lemma_no_ticket_before_start(s, pos, prefixes, 0);
        }
    } else if prose_token_at(s, pos) is Some {
        let found = prose_token_at(s, pos)->0;
        if pos <= s.len() {
            lemma_run_end(s, pos, CharClass::Space);
            let word_start = run_end(s, pos, CharClass::Space);
            lemma_run_end(s, word_start, CharClass::Word);
            let word_end = run_end(s, word_start, CharClass::Word);
            lemma_run_end(s, word_end, CharClass::Space);
            assert(found.0.written() =~= s.subrange(pos, found.1));
        }
    }
}

proof fn lemma_no_ticket_before_start(s: Seq<char>, pos: int, prefixes: Seq<Seq<char>>, k: int)
    requires
        pos < 0,
        0 <= k,
    ensures
        ticket_token_from(s, pos, prefixes, k) is None,
    decreases prefixes.len() - k,
{
    if k < prefixes.len() {
        lemma_no_ticket_before_start(s, pos, prefixes, k + 1);
    }
}

/// The tag that stands at `from`, and the position after it.
pub fn tag_token(text: &[char], from: usize) -> (found: Option<(Token, usize)>)
    ensures
        match found {
            Some((token, next)) => tag_token_at(text@, from as int) == Some(
                (token@, next as int),
            ),
            None => tag_token_at(text@, from as int) is None,
        },
{
    if from >= text.len() || text[from] != '@' {
        return None;
    }
    let name_end = skip_run(text, from + 1, CharClass::Alphanumeric);
    if name_end == from + 1 {
        return None;
    }
    let end = skip_run(text, name_end, CharClass::Space);
    Some(
        (
            Token {
                kind: TokenKind::Tag,
                text: string_from(text, from + 1, name_end),
                whitespace: string_from(text, name_end, end),
            },
            end,
        ),
    )
}

fn has_prefix(text: &[char], from: usize, prefix: &Vec<char>) -> (b: bool)
    requires
        from <= text@.len(),
    ensures
        b == has_prefix_at(text@, from as int, prefix@),
{
    if prefix.len() > text.len() - from {
        return false;
    }
    let mut i: usize = 0;
    while i < prefix.len()
        invariant
            i <= prefix@.len(),
            from + prefix@.len() <= text@.len() <= usize::MAX,
            forall|k: int| 0 <= k < i ==> text@[from + k] == prefix@[k],
        decreases prefix@.len() - i,
    {
        if text[from + i] != prefix[i] {
            proof {
                assert(text@.subrange(from as int, from + prefix@.len())[i as int] == text@[from
                    + i]);
            }
            return false;
        }
        i += 1;
    }
    proof {
        assert(text@.subrange(from as int, from + prefix@.len()) =~= prefix@);
    }
    true
}

/// The ticket that stands at `from` for the first project that has one, and
/// the position after it.
pub fn ticket_token(text: &[char], from: usize, config: &Config) -> (found: Option<(Token, usize)>)
    ensures
        match found {
            Some((token, next)) => ticket_token_at(text@, from as int, config.prefixes()) == Some(
                (token@, next as int),
            ),
            None => ticket_token_at(text@, from as int, config.prefixes()) is None,
        },
{
    let ghost prefixes = config.prefixes();
    if from > text.len() {
        proof {
            lemma_no_ticket_past_end(text@, from as int, prefixes, 0);
        }
        return None;
    }
    let mut k: usize = 0;
    while k < config.projects.len()
        invariant
            k <= config.projects@.len(),
            from <= text@.len() <= usize::MAX,
            prefixes == config.prefixes(),
            ticket_token_at(text@, from as int, prefixes) == ticket_token_from(
                text@,
                from as int,
                prefixes,
                k as int,
            ),
        decreases config.projects@.len() - k,
    {
        let prefix = chars_of(config.projects[k].ticket_prefix.as_str());
        proof {
            assert(prefixes[k as int] == prefix@);
        }
        if has_prefix(text, from, &prefix) {
            let id_start = from + prefix.len();
            let id_end = skip_run(text, id_start, CharClass::Alphanumeric);
            if id_end > id_start {
                let end = skip_run(text, id_end, CharClass::Space);
                return Some(
                    (
                        Token {
                            kind: TokenKind::Ticket,
                            text: string_from(text, from, id_end),
                            whitespace: string_from(text, id_end, end),
                        },
                        end,
                    ),
                );
            }
        }
        k += 1;
    }
    None
}

proof fn lemma_no_ticket_past_end(s: Seq<char>, pos: int, prefixes: Seq<Seq<char>>, k: int)
    requires
        pos > s.len(),
        0 <= k,
    ensures
        ticket_token_from(s, pos, prefixes, k) is None,
    decreases prefixes.len() - k,
{
    if k < prefixes.len() {
        lemma_no_ticket_past_end(s, pos, prefixes, k + 1);
    }
}

/// The word that stands at `from`, and the position after it.
pub fn prose_token(text: &[char], from: usize) -> (found: Option<(Token, usize)>)
    ensures
        match found {
            Some((token, next)) => prose_token_at(text@, from as int) == Some(
                (token@, next as int),
            ),
            None => prose_token_at(text@, from as int) is None,
        },
{
    if from > text.len() {
        return None;
    }
    let word_start = skip_run(text, from, CharClass::Space);
    let word_end = skip_run(text, word_start, CharClass::Word);
    if word_end == word_start {
        return None;
    }
    let end = skip_run(text, word_end, CharClass::Space);
    Some(
        (
            Token {
                kind: TokenKind::Prose,
                text: string_from(text, from, word_end),
                whitespace: string_from(text, word_end, end),
            },
            end,
        ),
    )
}

/// The token that stands at `from`, and the position after it: a tag;
/// where there is none, a ticket; where there is none, a word.
pub fn token(text: &[char], from: usize, config: &Config) -> (found: Option<(Token, usize)>)
    ensures
        match found {
            Some((token, next)) => token_at(text@, from as int, config.prefixes()) == Some(
                (token@, next as int),
            ),
            None => token_at(text@, from as int, config.prefixes()) is None,
        },
{
    match tag_token(text, from) {
        Some(found) => Some(found),
        None => match ticket_token(text, from, config) {
            Some(found) => Some(found),
            None => prose_token(text, from),
        },
    }
}

} // verus!
