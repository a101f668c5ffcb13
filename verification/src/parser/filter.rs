use crate::config::Config;
use crate::parser::error::ParseError;
use crate::parser::token::{
    has_prefix_at, lemma_ticket_token_from, tag_token, tag_token_at, ticket_token,
    ticket_token_at, Token, TokenKind, TokenSpec,
};
use crate::text::{chars_of, lemma_run_end, push_char, run_end, skip_run, CharClass};
use vstd::prelude::*;
use vstd::string::StringExecFns;

verus! {

/// A criterion as contracts see it.
pub ghost enum CriteriaSpec {
    /// The token is of this kind and has this text.
    Match { value: Seq<char>, kind: TokenKind },
    Not(Box<CriteriaSpec>),
    And(Box<CriteriaSpec>, Box<CriteriaSpec>),
    Or(Box<CriteriaSpec>, Box<CriteriaSpec>),
}

/// The name of a kind of token.
pub open spec fn kind_name(kind: TokenKind) -> Seq<char> {
    match kind {
        TokenKind::Prose => "Prose"@,
        TokenKind::Tag => "Tag"@,
        TokenKind::Ticket => "Ticket"@,
    }
}

impl CriteriaSpec {
    /// Whether the token meets the criterion.
    pub open spec fn satisfied_by(self, token: TokenSpec) -> bool
        decreases self,
    {
        match self {
            CriteriaSpec::Match { value, kind } => token.kind == kind && token.text == value,
            CriteriaSpec::Not(operand) => !operand.satisfied_by(token),
            CriteriaSpec::And(left, right) => left.satisfied_by(token) && right.satisfied_by(token),
            CriteriaSpec::Or(left, right) => left.satisfied_by(token) || right.satisfied_by(token),
        }
    }

    /// The criterion written out: `Tag(name)`, `Not(..)`, `And(.., ..)`.
    pub open spec fn text(self) -> Seq<char>
        decreases self,
    {
        match self {
            CriteriaSpec::Match { value, kind } => kind_name(kind) + seq!['('] + value + seq![')'],
            CriteriaSpec::Not(operand) => "Not("@ + operand.text() + seq![')'],
            CriteriaSpec::And(left, right) => "And("@ + left.text() + ", "@ + right.text() + seq![
                ')',
            ],
            CriteriaSpec::Or(left, right) => "Or("@ + left.text() + ", "@ + right.text() + seq![')'],
        }
    }
}

/// The operators that take one criterion.
#[derive(Debug, Clone, Copy, PartialEq, Eq, Structural)]
pub enum UnaryOperatorKind {
    Not,
}

/// The operators that take two criteria.
#[derive(Debug, Clone, Copy, PartialEq, Eq, Structural)]
pub enum BinaryOperatorKind {
    And,
    Or,
}

/// The criterion that a token is of a kind and has a text.
#[derive(Debug)]
pub struct TokenIs {
    pub value: String,
    pub kind: TokenKind,
}

/// An operator applied to one criterion.
#[derive(Debug)]
pub struct UnaryOperator {
    pub kind: UnaryOperatorKind,
    pub operand: Box<Criteria>,
}

/// An operator applied to two criteria.
#[derive(Debug)]
pub struct BinaryOperator {
    pub kind: BinaryOperatorKind,
    pub left: Box<Criteria>,
    pub right: Box<Criteria>,
}

/// The criterion that another one is not met.
#[derive(Debug)]
pub struct Not {
    pub criteria: Box<Criteria>,
}

/// A criterion on the tokens of a line.
#[derive(Debug)]
pub enum Criteria {
    TokenIs(TokenIs),
    UnaryOperator(UnaryOperator),
    BinaryOperator(BinaryOperator),
    Not(Not),
}

impl View for TokenIs {
    type V = CriteriaSpec;

    open spec fn view(&self) -> CriteriaSpec {
        CriteriaSpec::Match { value: self.value@, kind: self.kind }
    }
}

/// The criterion as contracts see it.
pub open spec fn criteria_view(criteria: Criteria) -> CriteriaSpec
    decreases criteria,
{
    match criteria {
        Criteria::TokenIs(token_is) => token_is@,
        Criteria::UnaryOperator(unary) => CriteriaSpec::Not(Box::new(criteria_view(*unary.operand))),
        Criteria::BinaryOperator(binary) => match binary.kind {
            BinaryOperatorKind::And => CriteriaSpec::And(
                Box::new(criteria_view(*binary.left)),
                Box::new(criteria_view(*binary.right)),
            ),
            BinaryOperatorKind::Or => CriteriaSpec::Or(
                Box::new(criteria_view(*binary.left)),
                Box::new(criteria_view(*binary.right)),
            ),
        },
        Criteria::Not(not) => CriteriaSpec::Not(Box::new(criteria_view(*not.criteria))),
    }
}

impl View for Criteria {
    type V = CriteriaSpec;

    open spec fn view(&self) -> CriteriaSpec {
        criteria_view(*self)
    }
}

impl View for UnaryOperator {
    type V = CriteriaSpec;

    open spec fn view(&self) -> CriteriaSpec {
        CriteriaSpec::Not(Box::new(criteria_view(*self.operand)))
    }
}

impl View for BinaryOperator {
    type V = CriteriaSpec;

    open spec fn view(&self) -> CriteriaSpec {
        match self.kind {
            BinaryOperatorKind::And => CriteriaSpec::And(
                Box::new(criteria_view(*self.left)),
                Box::new(criteria_view(*self.right)),
            ),
            BinaryOperatorKind::Or => CriteriaSpec::Or(
                Box::new(criteria_view(*self.left)),
                Box::new(criteria_view(*self.right)),
            ),
        }
    }
}

impl View for Not {
    type V = CriteriaSpec;

    open spec fn view(&self) -> CriteriaSpec {
        CriteriaSpec::Not(Box::new(criteria_view(*self.criteria)))
    }
}

fn kind_label(kind: TokenKind) -> (label: &'static str)
    ensures
        label@ == kind_name(kind),
{
    match kind {
        TokenKind::Prose => "Prose",
        TokenKind::Tag => "Tag",
        TokenKind::Ticket => "Ticket",
    }
}

impl TokenIs {
    pub fn to_string(&self) -> (s: String)
        ensures
            s@ == self@.text(),
    {
        let mut s = String::from_str(kind_label(self.kind));
        push_char(&mut s, '(');
        s.append(self.value.as_str());
        push_char(&mut s, ')');
        proof {
            assert(s@ =~= self@.text());
        }
        s
    }

    pub fn is_satisfied_with(&self, token: &Token) -> (b: bool)
        ensures
            b == self@.satisfied_by(token@),
    {
        self.value == token.text && self.kind == token.kind
    }
}

impl Criteria {
    /// The criterion written out.
    pub fn to_string(&self) -> (s: String)
        ensures
            s@ == self@.text(),
        decreases self,
    {
        match self {
            Criteria::TokenIs(token_is) => token_is.to_string(),
            Criteria::UnaryOperator(unary) => unary.to_string(),
            Criteria::BinaryOperator(binary) => binary.to_string(),
            Criteria::Not(not) => not.to_string(),
        }
    }

    /// Whether the token meets the criterion.
    pub fn is_satisfied_with(&self, token: &Token) -> (b: bool)
        ensures
            b == self@.satisfied_by(token@),
        decreases self,
    {
        match self {
            Criteria::TokenIs(token_is) => token_is.is_satisfied_with(token),
            Criteria::UnaryOperator(unary) => unary.is_satisfied_with(token),
            Criteria::BinaryOperator(binary) => binary.is_satisfied_with(token),
            Criteria::Not(not) => not.is_satisfied_with(token),
        }
    }
}

impl UnaryOperator {
    pub fn to_string(&self) -> (s: String)
        ensures
            s@ == self@.text(),
        decreases self,
    {
        let mut s = String::from_str("Not(");
        s.append(self.operand.to_string().as_str());
        push_char(&mut s, ')');
        proof {
            assert(s@ =~= self@.text());
        }
        s
    }

    pub fn is_satisfied_with(&self, token: &Token) -> (b: bool)
        ensures
            b == self@.satisfied_by(token@),
        decreases self,
    {
        !self.operand.is_satisfied_with(token)
    }
}

impl BinaryOperator {
    pub fn to_string(&self) -> (s: String)
        ensures
            s@ == self@.text(),
        decreases self,
    {
        let mut s = match self.kind {
            BinaryOperatorKind::And => String::from_str("And("),
            BinaryOperatorKind::Or => String::from_str("Or("),
        };
        s.append(self.left.to_string().as_str());
        s.append(", ");
        s.append(self.right.to_string().as_str());
        push_char(&mut s, ')');
        proof {
            assert(s@ =~= self@.text());
        }
        s
    }

    pub fn is_satisfied_with(&self, token: &Token) -> (b: bool)
        ensures
            b == self@.satisfied_by(token@),
        decreases self,
    {
        match self.kind {
            BinaryOperatorKind::And => self.left.is_satisfied_with(token)
                && self.right.is_satisfied_with(token),
            BinaryOperatorKind::Or => self.left.is_satisfied_with(token)
                || self.right.is_satisfied_with(token),
        }
    }
}

impl Not {
    pub fn to_string(&self) -> (s: String)
        ensures
            s@ == self@.text(),
        decreases self,
    {
        let mut s = String::from_str("Not(");
        s.append(self.criteria.to_string().as_str());
        push_char(&mut s, ')');
        proof {
            assert(s@ =~= self@.text());
        }
        s
    }

    pub fn is_satisfied_with(&self, token: &Token) -> (b: bool)
        ensures
            b == self@.satisfied_by(token@),
        decreases self,
    {
        !self.criteria.is_satisfied_with(token)
    }
}

/// The criteria of a sequence as contracts see them.
pub open spec fn criteria_views(criterias: Seq<Criteria>) -> Seq<CriteriaSpec> {
    criterias.map_values(|criteria: Criteria| criteria@)
}

/// The texts of criteria, with a space between each two.
pub open spec fn filter_text(criterias: Seq<CriteriaSpec>) -> Seq<char>
    decreases criterias.len(),
{
    if criterias.len() == 0 {
        Seq::empty()
    } else if criterias.len() == 1 {
        criterias[0].text()
    } else {
        filter_text(criterias.drop_last()) + seq![' '] + criterias.last().text()
    }
}

/// A filter: a line passes where one of its tokens meets one of the
/// criteria.
#[derive(Debug)]
pub struct Filter {
    pub criterias: Vec<Criteria>,
}

impl View for Filter {
    type V = Seq<CriteriaSpec>;

    open spec fn view(&self) -> Seq<CriteriaSpec> {
        criteria_views(self.criterias@)
    }
}

impl Filter {
    pub fn new(criterias: Vec<Criteria>) -> (filter: Filter)
        ensures
            filter@ == criteria_views(criterias@),
    {
        Filter { criterias }
    }

    /// The criteria written out, with a space between each two.
    pub fn to_string(&self) -> (s: String)
        ensures
            s@ == filter_text(self@),
    {
        let mut s = String::new();
        let mut i: usize = 0;
        while i < self.criterias.len()
            invariant
                i <= self.criterias@.len(),
                s@ == filter_text(self@.take(i as int)),
            decreases self.criterias@.len() - i,
        {
            if i > 0 {
                push_char(&mut s, ' ');
            }
            s.append(self.criterias[i].to_string().as_str());
            proof {
                let next = self@.take(i + 1);
                assert(next.drop_last() =~= self@.take(i as int));
                assert(next.last() == self.criterias@[i as int]@);
                assert(s@ =~= filter_text(next));
            }
            i += 1;
        }
        proof {
            assert(self@.take(i as int) =~= self@);
        }
        s
    }
}


/// The word `NOT`.
pub open spec fn word_not() -> Seq<char> {
    seq!['N', 'O', 'T']
}

/// The word `AND`.
pub open spec fn word_and() -> Seq<char> {
    seq!['A', 'N', 'D']
}

/// The word `OR`.
pub open spec fn word_or() -> Seq<char> {
    seq!['O', 'R']
}

/// The criterion on one token that stands at `pos`: blank characters, a
/// ticket or, where there is none, a tag, and blank characters.
pub open spec fn token_match_at(s: Seq<char>, pos: int, prefixes: Seq<Seq<char>>) -> Option<
    (CriteriaSpec, int),
> {
    let start = run_end(s, pos, CharClass::Blank);
    let found = match ticket_token_at(s, start, prefixes) {
        Some(ticket) => Some(ticket),
        None => tag_token_at(s, start),
    };
    match found {
        Some(token) => Some(
            (
                CriteriaSpec::Match { value: token.0.text, kind: token.0.kind },
                run_end(s, token.1, CharClass::Blank),
            ),
        ),
        None => None,
    }
}

/// The negation that stands at `pos`: the word `NOT`, blank characters, a
/// criterion, and blank characters.
pub open spec fn unary_operator_at(s: Seq<char>, pos: int, prefixes: Seq<Seq<char>>) -> Option<
    (CriteriaSpec, int),
>
    decreases s.len() - pos, 0int,
{
    let start = run_end(s, pos + 3, CharClass::Blank);
    if has_prefix_at(s, pos, word_not()) && pos < start <= s.len() {
        match criteria_at(s, start, prefixes) {
            Some(operand) => Some(
                (CriteriaSpec::Not(Box::new(operand.0)), run_end(s, operand.1, CharClass::Blank)),
            ),
            None => None,
        }
    } else {
        None
    }
}

/// The conjunction or disjunction that stands at `pos`: the word `OR` or
/// the word `AND`, at least one blank character, two criteria, and blank
/// characters.
pub open spec fn binary_operator_at(s: Seq<char>, pos: int, prefixes: Seq<Seq<char>>) -> Option<
    (CriteriaSpec, int),
>
    decreases s.len() - pos, 0int,
{
    let is_or = has_prefix_at(s, pos, word_or());
    let after_word = if is_or {
        pos + 2
    } else {
        pos + 3
    };
    let start = run_end(s, after_word, CharClass::Blank);
    if (is_or || has_prefix_at(s, pos, word_and())) && after_word < start <= s.len() {
        match criteria_at(s, start, prefixes) {
            Some(left) => {
                if start < left.1 <= s.len() {
                    match criteria_at(s, left.1, prefixes) {
                        Some(right) => Some(
                            (
                                if is_or {
                                    CriteriaSpec::Or(Box::new(left.0), Box::new(right.0))
                                } else {
                                    CriteriaSpec::And(Box::new(left.0), Box::new(right.0))
                                },
                                run_end(s, right.1, CharClass::Blank),
                            ),
                        ),
                        None => None,
                    }
                } else {
                    None
                }
            },
            None => None,
        }
    } else {
        None
    }
}

/// The criterion that stands at `pos`: a negation; where there is none, a
/// conjunction or disjunction; where there is none, a criterion on one
/// token. With the criterion comes the position after it.
pub open spec fn criteria_at(s: Seq<char>, pos: int, prefixes: Seq<Seq<char>>) -> Option<
    (CriteriaSpec, int),
>
    decreases s.len() - pos, 1int,
{
    match unary_operator_at(s, pos, prefixes) {
        Some(found) => Some(found),
        None => match binary_operator_at(s, pos, prefixes) {
            Some(found) => Some(found),
            None => token_match_at(s, pos, prefixes),
        },
    }
}

/// The criteria that stand at `pos`, one after the other, up to the first
/// position at which no criterion stands, which comes with them.
pub open spec fn criterias_at(s: Seq<char>, pos: int, prefixes: Seq<Seq<char>>) -> (
    Seq<CriteriaSpec>,
    int,
)
    decreases s.len() - pos,
{
    match criteria_at(s, pos, prefixes) {
        Some(found) => {
            let next = run_end(s, found.1, CharClass::Blank);
            if pos < next <= s.len() {
                let rest = criterias_at(s, next, prefixes);
                (seq![found.0] + rest.0, rest.1)
            } else {
                (Seq::empty(), pos)
            }
        },
        None => (Seq::empty(), pos),
    }
}

/// The criteria of a query: criteria up to the end of the text. Text that
/// is left over is an error at the position at which it starts.
pub open spec fn criterias_of(s: Seq<char>, prefixes: Seq<Seq<char>>) -> Result<
    Seq<CriteriaSpec>,
    ParseError,
> {
    let found = criterias_at(s, 0, prefixes);
    if found.1 == s.len() {
        Ok(found.0)
    } else {
        Err(ParseError::Unmatched { position: found.1 as usize })
    }
}

/// A criterion ends within the text, after the position at which it
/// stands.
pub proof fn lemma_criteria_at(s: Seq<char>, pos: int, prefixes: Seq<Seq<char>>)
    requires
        0 <= pos <= s.len(),
    ensures
        criteria_at(s, pos, prefixes) matches Some(found) ==> pos < found.1 <= s.len(),
        unary_operator_at(s, pos, prefixes) matches Some(found) ==> pos < found.1 <= s.len(),
        binary_operator_at(s, pos, prefixes) matches Some(found) ==> pos < found.1 <= s.len(),
        token_match_at(s, pos, prefixes) matches Some(found) ==> pos < found.1 <= s.len(),
    decreases s.len() - pos,
{
    if unary_operator_at(s, pos, prefixes) is Some {
        let start = run_end(s, pos + 3, CharClass::Blank);
        lemma_criteria_at(s, start, prefixes);
        let operand = criteria_at(s, start, prefixes)->0;
        lemma_run_end(s, operand.1, CharClass::Blank);
    }
    if binary_operator_at(s, pos, prefixes) is Some {
        let after_word = if has_prefix_at(s, pos, word_or()) {
            pos + 2
        } else {
            pos + 3
        };
        let start = run_end(s, after_word, CharClass::Blank);
        lemma_criteria_at(s, start, prefixes);
        let left = criteria_at(s, start, prefixes)->0;
        lemma_criteria_at(s, left.1, prefixes);
        let right = criteria_at(s, left.1, prefixes)->0;
        lemma_run_end(s, right.1, CharClass::Blank);
    }
    if token_match_at(s, pos, prefixes) is Some {
        lemma_run_end(s, pos, CharClass::Blank);
        let start = run_end(s, pos, CharClass::Blank);
        lemma_ticket_token_from(s, start, prefixes, 0);
        if ticket_token_at(s, start, prefixes) is None {
            lemma_run_end(s, start + 1, CharClass::Alphanumeric);
            lemma_run_end(
                s,
                run_end(s, start + 1, CharClass::Alphanumeric),
                CharClass::Space,
            );
        }
        let token_end = match ticket_token_at(s, start, prefixes) {
            Some(ticket) => ticket.1,
            None => (tag_token_at(s, start)->0).1,
        };
        lemma_run_end(s, token_end, CharClass::Blank);
    }
}

fn has_word(text: &[char], from: usize, first: char, second: char, third: Option<char>) -> (b: bool)
    requires
        from <= text@.len(),
    ensures
        b == has_prefix_at(
            text@,
            from as int,
            match third {
                Some(c) => seq![first, second, c],
                None => seq![first, second],
            },
        ),
{
    let len = text.len();
    let ghost word = match third {
        Some(c) => seq![first, second, c],
        None => seq![first, second],
    };
    if len - from < 2 || text[from] != first || text[from + 1] != second {
        proof {
            if from + word.len() <= len {
                assert(text@.subrange(from as int, from + word.len())[0] == text@[from as int]);
                assert(text@.subrange(from as int, from + word.len())[1] == text@[from + 1]);
            }
        }
        return false;
    }
    match third {
        Some(c) => {
            if len - from < 3 || text[from + 2] != c {
                proof {
                    if from + 3 <= len {
                        assert(text@.subrange(from as int, from + 3)[2] == text@[from + 2]);
                    }
                }
                return false;
            }
            proof {
                assert(text@.subrange(from as int, from + 3) =~= word);
            }
            true
        },
        None => {
            proof {
                assert(text@.subrange(from as int, from + 2) =~= word);
            }
            true
        },
    }
}

/// The criterion on one token that stands at `from`, and the position
/// after it.
pub fn token_match(text: &[char], from: usize, config: &Config) -> (found: Option<
    (Criteria, usize),
>)
    ensures
        match found {
            Some((criteria, next)) => token_match_at(text@, from as int, config.prefixes())
                == Some((criteria@, next as int)),
            None => token_match_at(text@, from as int, config.prefixes()) is None,
        },
{
    if from > text.len() {
        proof {
            lemma_ticket_token_from(text@, from as int, config.prefixes(), 0);
        }
        return None;
    }
    let start = skip_run(text, from, CharClass::Blank);
    let found = match ticket_token(text, start, config) {
        Some(ticket) => Some(ticket),
        None => tag_token(text, start),
    };
    proof {
        lemma_criteria_at(text@, from as int, config.prefixes());
    }
    match found {
        Some((token, next)) => {
            let end = skip_run(text, next, CharClass::Blank);
            Some((Criteria::TokenIs(TokenIs { value: token.text, kind: token.kind }), end))
        },
        None => None,
    }
}

/// The negation that stands at `from`, and the position after it.
pub fn unary_operator(text: &[char], from: usize, config: &Config) -> (found: Option<
    (Criteria, usize),
>)
    ensures
        match found {
            Some((criteria, next)) => unary_operator_at(text@, from as int, config.prefixes())
                == Some((criteria@, next as int)),
            None => unary_operator_at(text@, from as int, config.prefixes()) is None,
        },
    decreases text@.len() - from, 0int,
{
    let len = text.len();
    if from > len || !has_word(text, from, 'N', 'O', Some('T')) {
        return None;
    }
    assert(from + 3 <= len);
    let start = skip_run(text, from + 3, CharClass::Blank);
    proof {
        lemma_criteria_at(text@, start as int, config.prefixes());
    }
    match criteria(text, start, config) {
        Some((operand, next)) => {
            let end = skip_run(text, next, CharClass::Blank);
            Some(
                (
                    Criteria::UnaryOperator(
                        UnaryOperator { kind: UnaryOperatorKind::Not, operand: Box::new(operand) },
                    ),
                    end,
                ),
            )
        },
        None => None,
    }
}

/// The conjunction or disjunction that stands at `from`, and the position
/// after it.
pub fn binary_operator(text: &[char], from: usize, config: &Config) -> (found: Option<
    (Criteria, usize),
>)
    ensures
        match found {
            Some((criteria, next)) => binary_operator_at(text@, from as int, config.prefixes())
                == Some((criteria@, next as int)),
            None => binary_operator_at(text@, from as int, config.prefixes()) is None,
        },
    decreases text@.len() - from, 0int,
{
    let len = text.len();
    if from > len {
        return None;
    }
    let is_or = has_word(text, from, 'O', 'R', None);
    if !is_or && !has_word(text, from, 'A', 'N', Some('D')) {
        return None;
    }
    assert(is_or ==> from + 2 <= len);
    assert(!is_or ==> from + 3 <= len);
    let after_word = if is_or {
        from + 2
    } else {
        from + 3
    };
    let start = skip_run(text, after_word, CharClass::Blank);
    if start == after_word {
        return None;
    }
    proof {
        lemma_criteria_at(text@, start as int, config.prefixes());
    }
    let (left, after_left) = match criteria(text, start, config) {
        Some(found) => found,
        None => {
            return None;
        },
    };
    proof {
        lemma_criteria_at(text@, after_left as int, config.prefixes());
    }
    let (right, after_right) = match criteria(text, after_left, config) {
        Some(found) => found,
        None => {
            return None;
        },
    };
    let end = skip_run(text, after_right, CharClass::Blank);
    let kind = if is_or {
        BinaryOperatorKind::Or
    } else {
        BinaryOperatorKind::And
    };
    Some(
        (
            Criteria::BinaryOperator(
                BinaryOperator { kind, left: Box::new(left), right: Box::new(right) },
            ),
            end,
        ),
    )
}

/// The criterion that stands at `from`, and the position after it.
pub fn criteria(text: &[char], from: usize, config: &Config) -> (found: Option<(Criteria, usize)>)
    ensures
        match found {
            Some((criteria, next)) => criteria_at(text@, from as int, config.prefixes()) == Some(
                (criteria@, next as int),
            ),
            None => criteria_at(text@, from as int, config.prefixes()) is None,
        },
    decreases text@.len() - from, 1int,
{
    match unary_operator(text, from, config) {
        Some(found) => Some(found),
        None => match binary_operator(text, from, config) {
            Some(found) => Some(found),
            None => token_match(text, from, config),
        },
    }
}

/// Reads a query: its criteria. Text that is no criterion is an error.
pub fn parse_filter(text: &str, config: &Config) -> (parsed: Result<Filter, ParseError>)
    ensures
        match parsed {
            Ok(filter) => criterias_of(text@, config.prefixes()) == Ok::<
                Seq<CriteriaSpec>,
                ParseError,
            >(filter@),
            Err(error) => criterias_of(text@, config.prefixes()) == Err::<
                Seq<CriteriaSpec>,
                ParseError,
            >(error),
        },
{
    let ghost prefixes = config.prefixes();
    let chars = chars_of(text);
    let mut criterias: Vec<Criteria> = Vec::new();
    let mut pos: usize = 0;
    let mut more = true;
    proof {
        assert(criteria_views(criterias@) + criterias_at(text@, 0, prefixes).0 =~= criterias_at(
            text@,
            0,
            prefixes,
        ).0);
    }
    while more
        invariant
            prefixes == config.prefixes(),
            chars@ == text@,
            pos <= chars@.len(),
            criterias_at(text@, 0, prefixes).0 == criteria_views(criterias@) + criterias_at(
                text@,
                pos as int,
                prefixes,
            ).0,
            criterias_at(text@, 0, prefixes).1 == criterias_at(text@, pos as int, prefixes).1,
            !more ==> criteria_at(text@, pos as int, prefixes) is None,
        decreases chars@.len() - pos, if more { 1int } else { 0int },
    {
        proof {
            lemma_criteria_at(text@, pos as int, prefixes);
        }
        match criteria(chars.as_slice(), pos, config) {
            Some((found, next)) => {
                let ghost before = criteria_views(criterias@);
                let after = skip_run(chars.as_slice(), next, CharClass::Blank);
                criterias.push(found);
                proof {
                    assert(criteria_views(criterias@) =~= before.push(found@));
                    assert(criteria_views(criterias@) + criterias_at(
                        text@,
                        after as int,
                        prefixes,
                    ).0 =~= before + (seq![found@] + criterias_at(text@, after as int, prefixes).0));
                }
                pos = after;
            },
            None => {
                more = false;
            },
        }
    }
    proof {
        assert(criteria_views(criterias@) + Seq::<CriteriaSpec>::empty() =~= criteria_views(
            criterias@,
        ));
    }
    if pos != chars.len() {
        return Err(ParseError::Unmatched { position: pos });
    }
    Ok(Filter { criterias })
}

} // verus!
