//! Parsing propositions from text.
//!
//! ```text
//! top_level   ::= proposition EOI
//! proposition ::= expression { '->' expression }
//! expression  ::= term { '|' term }
//! term        ::= factor { '&' factor }
//! factor      ::= atom | negation | parentheses
//! atom        ::= word
//! negation    ::= '~' factor
//! parentheses ::= '(' proposition ')'
//! ```

pub mod parse;
pub mod written;

use vstd::prelude::*;
use vstd::string::StringSliceAdditionalSpecFns;
use vstd::utf8::{encode_utf8, encode_utf8_decode_utf8};

use crate::formula::Formula;
use crate::types::Prop;
use parse::{
    accept, byte_offset, lemma_byte_offset_monotone, lemma_encode_subrange, lemma_prefix_boundary,
    lemma_scanner_advance, lemma_scanner_start, lemma_scanner_wf, next_view, reject,
    scanner_consistent, scanner_position, unit_view, CharSource, Error, ErrorView, Lexer, Next,
    Scanner, Source, Stream,
};

verus! {

/// Characters that separate tokens: space, tab, line feed, form feed and
/// carriage return.
pub open spec fn is_space(c: char) -> bool {
    c == ' ' || c == '\t' || c == '\n' || c == '\x0C' || c == '\r'
}

/// The letters of names: `'a'` to `'z'` and `'A'` to `'Z'`.
pub open spec fn is_letter(c: char) -> bool {
    ('a' as u32 <= c as u32 <= 'z' as u32) || ('A' as u32 <= c as u32 <= 'Z' as u32)
}

/// Is `c` ASCII whitespace, as `char::is_ascii_whitespace` decides?
fn is_ascii_whitespace(c: char) -> (b: bool)
    ensures
        b == is_space(c),
{
    c == ' ' || c == '\t' || c == '\n' || c == '\x0C' || c == '\r'
}

/// Is `c` an ASCII letter, as `char::is_ascii_alphabetic` decides?
fn is_ascii_alphabetic(c: char) -> (b: bool)
    ensures
        b == is_letter(c),
{
    ('a' <= c && c <= 'z') || ('A' <= c && c <= 'Z')
}

/// The index of the first character at or after `p` that is not a space.
pub open spec fn skip_spaces(text: Seq<char>, p: nat) -> nat
    decreases text.len() - p,
{
    if p < text.len() && is_space(text[p as int]) {
        skip_spaces(text, p + 1)
    } else {
        p
    }
}

/// The index of the first character at or after `p` that is not a letter.
pub open spec fn word_end(text: Seq<char>, p: nat) -> nat
    decreases text.len() - p,
{
    if p < text.len() && is_letter(text[p as int]) {
        word_end(text, p + 1)
    } else {
        p
    }
}

proof fn lemma_skip_spaces(text: Seq<char>, p: nat)
    ensures
        p <= skip_spaces(text, p),
        p <= text.len() ==> skip_spaces(text, p) <= text.len(),
        p > text.len() ==> skip_spaces(text, p) == p,
        skip_spaces(text, p) < text.len() ==> !is_space(text[skip_spaces(text, p) as int]),
    decreases text.len() - p,
{
    if p < text.len() && is_space(text[p as int]) {
        lemma_skip_spaces(text, p + 1);
    }
}

proof fn lemma_word_end(text: Seq<char>, p: nat)
    ensures
        p <= word_end(text, p),
        p <= text.len() ==> word_end(text, p) <= text.len(),
    decreases text.len() - p,
{
    if p < text.len() && is_letter(text[p as int]) {
        lemma_word_end(text, p + 1);
    }
}

/// The tokens of propositions.
#[derive(Clone, Copy, Debug, PartialEq)]
pub enum Token<'source> {
    EndOfInput,
    Name(&'source str),
    Or,
    And,
    Not,
    Implies,
    Open,
    Close,
}

/// The tokens of propositions, seen as values.
pub enum TokenView {
    EndOfInput,
    Name(Seq<char>),
    Or,
    And,
    Not,
    Implies,
    Open,
    Close,
}

impl<'source> View for Token<'source> {
    type V = TokenView;

    open spec fn view(&self) -> TokenView {
        match self {
            Token::EndOfInput => TokenView::EndOfInput,
            Token::Name(name) => TokenView::Name(name@),
            Token::Or => TokenView::Or,
            Token::And => TokenView::And,
            Token::Not => TokenView::Not,
            Token::Implies => TokenView::Implies,
            Token::Open => TokenView::Open,
            Token::Close => TokenView::Close,
        }
    }
}

/// The next token of `text` from the character at `p`, and the index of
/// the character after it.
pub open spec fn token_step(state: (Seq<char>, nat)) -> ((Seq<char>, nat), Result<Next<TokenView>, ErrorView>) {
    let (text, p) = state;
    let q = skip_spaces(text, p);
    let start = byte_offset(text, q as int) as usize;
    if q >= text.len() {
        // end_of_input ::= EOI
        ((text, q), Ok(Next::Value(start, TokenView::EndOfInput)))
    } else {
        let c = text[q as int];
        let after = q + 1;
        if is_letter(c) {
            // word ::= letter { letter }
            let end = word_end(text, after);
            ((text, end), Ok(Next::Value(start, TokenView::Name(text.subrange(q as int, end as int)))))
        } else if c == '|' {
            ((text, after), Ok(Next::Value(start, TokenView::Or)))
        } else if c == '&' {
            ((text, after), Ok(Next::Value(start, TokenView::And)))
        } else if c == '~' {
            ((text, after), Ok(Next::Value(start, TokenView::Not)))
        } else if c == '(' {
            ((text, after), Ok(Next::Value(start, TokenView::Open)))
        } else if c == ')' {
            ((text, after), Ok(Next::Value(start, TokenView::Close)))
        } else if c == '-' {
            if after < text.len() && text[after as int] == '>' {
                ((text, after + 1), Ok(Next::Value(start, TokenView::Implies)))
            } else {
                ((text, after), Err((byte_offset(text, after as int) as usize, "expected ->"@)))
            }
        } else {
            ((text, after), Err((start, "invalid character"@)))
        }
    }
}

/// The lexer never moves backwards; it moves forwards over every token but
/// the end of the input.
proof fn lemma_token_step(state: (Seq<char>, nat))
    ensures
        token_step(state).0.0 == state.0,
        token_step(state).0.1 >= state.1,
        state.1 <= state.0.len() ==> token_step(state).0.1 <= state.0.len(),
        state.1 > state.0.len() ==> token_step(state).0.1 == state.1,
        token_step(state).1 matches Ok(Next::Value(_, t)) && t != TokenView::EndOfInput ==> {
            &&& state.1 < token_step(state).0.1
            &&& token_step(state).0.1 <= state.0.len()
        },
        !(token_step(state).1 matches Ok(Next::End(_))),
        token_step(state).1 is Err ==> {
            &&& state.1 < token_step(state).0.1
            &&& token_step(state).0.1 <= state.0.len()
        },
{
    let (text, p) = state;
    lemma_skip_spaces(text, p);
    let q = skip_spaces(text, p);
    if q < text.len() {
        lemma_word_end(text, q + 1);
    }
}

/// Accept `token` at `offset` as the next token.
fn token_at<'a>(offset: usize, token: Token<'a>) -> (r: Result<Next<Token<'a>>, Error>)
    ensures
        next_view(r) == Ok::<Next<TokenView>, ErrorView>(Next::Value(offset, token@)),
{
    accept(Next::Value(offset, token))
}

/// TokenSource for propositions.
pub struct TokenSource<'a> {
    scanner: Scanner<'a>,
}

impl<'a> TokenSource<'a> {
    /// Create a token source that reads the characters of `scanner`.
    pub fn new(scanner: Scanner<'a>) -> (ts: Self)
        requires
            scanner.wf(),
            scanner_consistent(scanner@),
        ensures
            ts.wf(),
            ts.state() == (scanner@.0.0, scanner_position(scanner@)),
    {
        TokenSource { scanner }
    }

    /// Skip the characters at the scanner that satisfy the predicate of
    /// `letters` (letters, or else spaces).
    fn skip(&mut self, letters: bool)
        requires
            old(self).wf(),
        ensures
            final(self).wf(),
            final(self).scanner@.0.0 == old(self).scanner@.0.0,
            scanner_position(final(self).scanner@) == if letters {
                word_end(old(self).scanner@.0.0, scanner_position(old(self).scanner@))
            } else {
                skip_spaces(old(self).scanner@.0.0, scanner_position(old(self).scanner@))
            },
    {
        let ghost text = self.scanner@.0.0;
        let ghost p0 = scanner_position(self.scanner@);
        let ghost target = if letters { word_end(text, p0) } else { skip_spaces(text, p0) };
        loop
            invariant
                self.wf(),
                self.scanner@.0.0 == text,
                target == if letters { word_end(text, p0) } else { skip_spaces(text, p0) },
                target == if letters {
                    word_end(text, scanner_position(self.scanner@))
                } else {
                    skip_spaces(text, scanner_position(self.scanner@))
                },
                scanner_position(self.scanner@) <= text.len(),
            ensures
                self.wf(),
                self.scanner@.0.0 == text,
                scanner_position(self.scanner@) == target,
            decreases text.len() - scanner_position(self.scanner@),
        {
            let ghost before = self.scanner@;
            match self.scanner.item() {
                Some(c) if (if letters { is_ascii_alphabetic(c) } else { is_ascii_whitespace(c) }) => {
                    proof {
                        lemma_scanner_advance(before);
                    }
                    match self.scanner.advance() {
                        Ok(()) => {},
                        Err(_) => {},
                    }
                },
                _ => {
                    break ;
                },
            }
        }
    }
}

impl<'a> Source for TokenSource<'a> {
    type Item = Token<'a>;

    /// The text and the index of the scanner's current character.
    type State = (Seq<char>, nat);

    closed spec fn state(&self) -> (Seq<char>, nat) {
        (self.scanner@.0.0, scanner_position(self.scanner@))
    }

    closed spec fn wf(&self) -> bool {
        self.scanner.wf() && scanner_consistent(self.scanner@)
    }

    open spec fn step(state: (Seq<char>, nat)) -> ((Seq<char>, nat), Result<Next<TokenView>, ErrorView>) {
        token_step(state)
    }

    fn next(&mut self) -> (r: Result<Next<Self::Item>, Error>) {
        let ghost text = self.scanner@.0.0;
        let ghost p0 = scanner_position(self.scanner@);
        proof {
            lemma_scanner_wf(&self.scanner);
            lemma_skip_spaces(text, p0);
        }
        // skip_spaces ::= { ' ' }
        self.skip(false);
        let ghost q = scanner_position(self.scanner@);
        proof {
            lemma_byte_offset_monotone(text, q as int, text.len() as int);
        }
        let start = self.scanner.offset();
        match self.scanner.item() {
            // end_of_input ::= EOI
            None => token_at(start, Token::EndOfInput),
            Some(next) => {
                proof {
                    lemma_scanner_advance(self.scanner@);
                }
                match self.scanner.advance() {
                    Ok(()) => {},
                    Err(error) => {
                        return Err(error);
                    },
                }
                match next {
                    // word ::= letter { letter }
                    // letter ::= 'a' | .. | 'z' | 'A' | .. | 'Z'
                    c if is_ascii_alphabetic(c) => {
                        proof {
                            lemma_word_end(text, q + 1);
                        }
                        self.skip(true);
                        let ghost r = scanner_position(self.scanner@);
                        let end = self.scanner.offset();
                        proof {
                            lemma_byte_offset_monotone(text, q as int, r as int);
                            lemma_byte_offset_monotone(text, r as int, text.len() as int);
                            lemma_prefix_boundary(text, q as int);
                            lemma_prefix_boundary(text, r as int);
                            lemma_encode_subrange(text, q as int, r as int);
                        }
                        let slice = self.scanner.slice(start, end);
                        proof {
                            encode_utf8_decode_utf8(slice@);
                            encode_utf8_decode_utf8(text.subrange(q as int, r as int));
                        }
                        token_at(start, Token::Name(slice))
                    },
                    // special ::= '|' | '&' | '~' | '(' | ')' | '->'
                    '|' => token_at(start, Token::Or),
                    '&' => token_at(start, Token::And),
                    '~' => token_at(start, Token::Not),
                    '(' => token_at(start, Token::Open),
                    ')' => token_at(start, Token::Close),
                    '-' => match self.scanner.item() {
                        Some('>') => {
                            proof {
                                lemma_scanner_advance(self.scanner@);
                            }
                            match self.scanner.advance() {
                                Ok(()) => {},
                                Err(error) => {
                                    return Err(error);
                                },
                            }
                            token_at(start, Token::Implies)
                        },
                        _ => reject(self.scanner.offset(), "expected ->"),
                    },
                    // Anything else is an error.
                    _ => reject(start, "invalid character"),
                }
            },
        }
    }
}

/// What a lexer is made of: the state of its token source, the offset of
/// the current token and the current token.
pub type LexView = ((Seq<char>, nat), usize, Option<TokenView>);

/// The lexer after advancing from `l`, and the outcome.
pub open spec fn lex_advance(l: LexView) -> (LexView, Result<(), ErrorView>) {
    match l.2 {
        Some(_) => {
            let (state, result) = token_step(l.0);
            match result {
                Ok(Next::Value(offset, token)) => ((state, offset, Some(token)), Ok(())),
                Ok(Next::End(offset)) => ((state, offset, None), Ok(())),
                Err(error) => ((state, l.1, l.2), Err(error)),
            }
        },
        None => (l, Err((l.1, "unexpected end of input"@))),
    }
}

/// How much input is left to the parser: the characters after the
/// scanner, and the current token unless it is the end of the input.
pub open spec fn measure(l: LexView) -> nat {
    let (text, p) = l.0;
    let rest: nat = if p <= text.len() { (text.len() - p) as nat } else { 0 };
    match l.2 {
        Some(TokenView::EndOfInput) => rest,
        Some(_) => rest + 1,
        None => rest,
    }
}

/// Advancing never adds input, and advancing over a token that is not the
/// end of the input consumes some.
pub proof fn lemma_advance_measure(l: LexView)
    ensures
        measure(lex_advance(l).0) <= measure(l),
        (l.2 matches Some(t) && t != TokenView::EndOfInput) ==> measure(lex_advance(l).0) < measure(l),
{
    lemma_token_step(l.0);
}

/// The parsed formula, or the error.
pub type Parsed = (LexView, Result<Formula, ErrorView>);

/// `a -> b`
pub open spec fn implies(a: Formula, b: Formula) -> Formula {
    Formula::Or(Box::new(Formula::Not(Box::new(a))), Box::new(b))
}

/// The right-associative chain of implications `f0 -> (f1 -> ... fn)`.
pub open spec fn implications(fs: Seq<Formula>) -> Formula
    decreases fs.len(),
{
    if fs.len() <= 1 {
        fs[0]
    } else {
        implies(fs[0], implications(fs.drop_first()))
    }
}

/// `atom ::= word`
pub open spec fn spec_atom(l: LexView) -> Parsed {
    match l.2 {
        Some(TokenView::Name(name)) => {
            let (l1, r) = lex_advance(l);
            match r {
                Ok(()) => (l1, Ok(Formula::Atom(name))),
                Err(e) => (l1, Err(e)),
            }
        },
        _ => (l, Err((l.1, "expected atom"@))),
    }
}

/// `negation ::= '~' factor`
pub open spec fn spec_negation(l: LexView) -> Parsed
    decreases measure(l), 1nat,
{
    match l.2 {
        Some(TokenView::Not) => {
            let (l1, r) = lex_advance(l);
            match r {
                Err(e) => (l1, Err(e)),
                Ok(()) => {
                    proof {
                        lemma_advance_measure(l);
                    }
                    let (l2, f) = spec_factor(l1);
                    match f {
                        Ok(f) => (l2, Ok(Formula::Not(Box::new(f)))),
                        Err(e) => (l2, Err(e)),
                    }
                },
            }
        },
        _ => (l, Err((l.1, "expected ~"@))),
    }
}

/// `parentheses ::= '(' proposition ')'`
pub open spec fn spec_parentheses(l: LexView) -> Parsed
    decreases measure(l), 1nat,
{
    match l.2 {
        Some(TokenView::Open) => {
            let (l1, r) = lex_advance(l);
            match r {
                Err(e) => (l1, Err(e)),
                Ok(()) => {
                    proof {
                        lemma_advance_measure(l);
                    }
                    let (l2, p) = spec_proposition(l1);
                    match p {
                        Err(e) => (l2, Err(e)),
                        Ok(p) => match l2.2 {
                            Some(TokenView::Close) => {
                                let (l3, r) = lex_advance(l2);
                                match r {
                                    Ok(()) => (l3, Ok(p)),
                                    Err(e) => (l3, Err(e)),
                                }
                            },
                            _ => (l2, Err((l2.1, "expected )"@))),
                        },
                    }
                },
            }
        },
        _ => (l, Err((l.1, "expected ("@))),
    }
}

/// `factor ::= atom | negation | parentheses`
pub open spec fn spec_factor(l: LexView) -> Parsed
    decreases measure(l), 2nat,
{
    match l.2 {
        Some(TokenView::Name(_)) => spec_atom(l),
        Some(TokenView::Not) => spec_negation(l),
        Some(TokenView::Open) => spec_parentheses(l),
        _ => (l, Err((l.1, "expected proposition"@))),
    }
}

/// `term ::= factor { '&' factor }`
pub open spec fn spec_term(l: LexView) -> Parsed
    decreases measure(l), 3nat,
{
    let (l1, r) = spec_factor(l);
    match r {
        Err(e) => (l1, Err(e)),
        Ok(f) => if measure(l1) <= measure(l) {
            spec_term_rest(l1, f)
        } else {
            (l1, Ok(f))
        },
    }
}

/// The repetition `{ '&' factor }` after the conjunction `acc`.
pub open spec fn spec_term_rest(l: LexView, acc: Formula) -> Parsed
    decreases measure(l), 0nat,
{
    match l.2 {
        Some(TokenView::And) => {
            let (l1, r) = lex_advance(l);
            match r {
                Err(e) => (l1, Err(e)),
                Ok(()) => {
                    proof {
                        lemma_advance_measure(l);
                    }
                    let (l2, g) = spec_factor(l1);
                    match g {
                        Err(e) => (l2, Err(e)),
                        Ok(g) => {
                            let acc = Formula::And(Box::new(acc), Box::new(g));
                            if measure(l2) < measure(l) {
                                spec_term_rest(l2, acc)
                            } else {
                                (l2, Ok(acc))
                            }
                        },
                    }
                },
            }
        },
        _ => (l, Ok(acc)),
    }
}

/// `expression ::= term { '|' term }`
pub open spec fn spec_expression(l: LexView) -> Parsed
    decreases measure(l), 4nat,
{
    let (l1, r) = spec_term(l);
    match r {
        Err(e) => (l1, Err(e)),
        Ok(f) => if measure(l1) <= measure(l) {
            spec_expression_rest(l1, f)
        } else {
            (l1, Ok(f))
        },
    }
}

/// The repetition `{ '|' term }` after the disjunction `acc`.
pub open spec fn spec_expression_rest(l: LexView, acc: Formula) -> Parsed
    decreases measure(l), 0nat,
{
    match l.2 {
        Some(TokenView::Or) => {
            let (l1, r) = lex_advance(l);
            match r {
                Err(e) => (l1, Err(e)),
                Ok(()) => {
                    proof {
                        lemma_advance_measure(l);
                    }
                    let (l2, g) = spec_term(l1);
                    match g {
                        Err(e) => (l2, Err(e)),
                        Ok(g) => {
                            let acc = Formula::Or(Box::new(acc), Box::new(g));
                            if measure(l2) < measure(l) {
                                spec_expression_rest(l2, acc)
                            } else {
                                (l2, Ok(acc))
                            }
                        },
                    }
                },
            }
        },
        _ => (l, Ok(acc)),
    }
}

/// `proposition ::= expression { '->' expression }`, where implications
/// are right-associative: `a -> b -> c` is `a -> (b -> c)`.
pub open spec fn spec_proposition(l: LexView) -> Parsed
    decreases measure(l), 5nat,
{
    let (l1, r) = spec_expression(l);
    match r {
        Err(e) => (l1, Err(e)),
        Ok(f) => if measure(l1) <= measure(l) {
            proposition_outcome(spec_proposition_rest(l1, seq![f]))
        } else {
            (l1, Ok(f))
        },
    }
}

/// The repetition `{ '->' expression }` after the expressions `acc`.
pub open spec fn spec_proposition_rest(l: LexView, acc: Seq<Formula>) -> (LexView, Result<Seq<Formula>, ErrorView>)
    decreases measure(l), 0nat,
{
    match l.2 {
        Some(TokenView::Implies) => {
            let (l1, r) = lex_advance(l);
            match r {
                Err(e) => (l1, Err(e)),
                Ok(()) => {
                    proof {
                        lemma_advance_measure(l);
                    }
                    let (l2, g) = spec_expression(l1);
                    match g {
                        Err(e) => (l2, Err(e)),
                        Ok(g) => if measure(l2) < measure(l) {
                            spec_proposition_rest(l2, acc.push(g))
                        } else {
                            (l2, Ok(acc.push(g)))
                        },
                    }
                },
            }
        },
        _ => (l, Ok(acc)),
    }
}

/// `top_level ::= proposition EOI`
pub open spec fn spec_top_level(l: LexView) -> Parsed {
    let (l1, r) = spec_proposition(l);
    match r {
        Err(e) => (l1, Err(e)),
        Ok(p) => match l1.2 {
            Some(TokenView::EndOfInput) => {
                let (l2, r) = lex_advance(l1);
                match r {
                    Ok(()) => (l2, Ok(p)),
                    Err(e) => (l2, Err(e)),
                }
            },
            _ => (l1, Err((l1.1, "unexpected input"@))),
        },
    }
}

/// The lexer at the start of `text`, or the error on its first token.
pub open spec fn spec_lexer_start(text: Seq<char>) -> Result<LexView, ErrorView> {
    let (state, result) = token_step((text, 0));
    match result {
        Ok(Next::Value(offset, token)) => Ok((state, offset, Some(token))),
        Ok(Next::End(offset)) => Ok((state, offset, None)),
        Err(e) => Err(e),
    }
}

/// The proposition that `text` describes, or the error in it.
pub open spec fn spec_parse(text: Seq<char>) -> Result<Formula, ErrorView> {
    match spec_lexer_start(text) {
        Err(e) => Err(e),
        Ok(l) => spec_top_level(l).1,
    }
}

/// The view of the outcome of a parsing function.
pub open spec fn parsed_view(r: Result<Prop, Error>) -> Result<Formula, ErrorView> {
    match r {
        Ok(p) => Ok(p@),
        Err(e) => Err(e@),
    }
}

/// The formulas of a sequence of propositions.
pub open spec fn formulas_of(props: Seq<Prop>) -> Seq<Formula> {
    props.map_values(|p: Prop| p@)
}

/// The outcome of a proposition from the outcome of its repetition.
pub open spec fn proposition_outcome(rest: (LexView, Result<Seq<Formula>, ErrorView>)) -> Parsed {
    match rest.1 {
        Err(e) => (rest.0, Err(e)),
        Ok(fs) => (rest.0, Ok(implications(fs))),
    }
}

/// Parser for propositions.
pub struct Parser<'source, Src> where Src: Source<Item = Token<'source>> {
    lexer: Lexer<Src>,
}

impl<'source> View for Parser<'source, TokenSource<'source>> {
    type V = LexView;

    closed spec fn view(&self) -> LexView {
        self.lexer@
    }
}

impl<'source> Parser<'source, TokenSource<'source>> {
    /// The internal invariant of the parser.
    pub closed spec fn wf(&self) -> bool {
        self.lexer.wf()
    }

    /// Create a parser that reads the tokens of `lexer`.
    pub fn new(lexer: Lexer<TokenSource<'source>>) -> (parser: Self)
        requires
            lexer.wf(),
        ensures
            parser.wf(),
            parser@ == lexer@,
    {
        Parser { lexer }
    }

    /// Parse a proposition with the help of a lexer.
    pub fn parse(lexer: Lexer<TokenSource<'source>>) -> (r: Result<Prop, Error>)
        requires
            lexer.wf(),
        ensures
            parsed_view(r) == spec_top_level(lexer@).1,
    {
        Parser { lexer }.top_level()
    }

    /// Advance the lexer past the current token.
    fn advance(&mut self) -> (r: Result<(), Error>)
        requires
            old(self).wf(),
        ensures
            final(self).wf(),
            lex_advance(old(self)@) == (final(self)@, unit_view(r)),
            measure(final(self)@) <= measure(old(self)@),
    {
        proof {
            lemma_advance_measure(self@);
        }
        self.lexer.advance()
    }

    /// `top_level ::= proposition EOI`
    pub fn top_level(&mut self) -> (r: Result<Prop, Error>)
        requires
            old(self).wf(),
        ensures
            final(self).wf(),
            spec_top_level(old(self)@) == (final(self)@, parsed_view(r)),
    {
        let proposition = match self.proposition() {
            Ok(p) => p,
            Err(e) => {
                return Err(e);
            },
        };
        // expect EOI
        let Some(Token::EndOfInput) = self.lexer.item() else {
            return reject(self.lexer.offset(), "unexpected input");
        };
        match self.advance() {
            Ok(()) => {},
            Err(e) => {
                return Err(e);
            },
        }
        accept(proposition)
    }

    /// `proposition ::= expression { '->' expression }`
    pub fn proposition(&mut self) -> (r: Result<Prop, Error>)
        requires
            old(self).wf(),
        ensures
            final(self).wf(),
            spec_proposition(old(self)@) == (final(self)@, parsed_view(r)),
            measure(final(self)@) <= measure(old(self)@),
        decreases measure(old(self)@), 5nat,
    {
        let ghost l0 = self@;
        let expression = match self.expression() {
            Ok(p) => p,
            Err(e) => {
                return Err(e);
            },
        };
        let mut rest: Vec<Prop> = Vec::new();
        assert(seq![expression@] + formulas_of(rest@) =~= seq![expression@]);
        // { '->' expression }
        loop
            invariant
                self.wf(),
                l0 == old(self)@,
                measure(self@) <= measure(l0),
                spec_proposition(l0) == proposition_outcome(
                    spec_proposition_rest(self@, seq![expression@] + formulas_of(rest@)),
                ),
            ensures
                self.wf(),
                l0 == old(self)@,
                measure(self@) <= measure(l0),
                spec_proposition(l0) == (self@, Ok::<Formula, ErrorView>(
                    implications(seq![expression@] + formulas_of(rest@)),
                )),
            decreases measure(self@),
        {
            let ghost before = self@;
            let ghost all = seq![expression@] + formulas_of(rest@);
            match self.lexer.item() {
                Some(Token::Implies) => {},
                _ => {
                    break ;
                },
            }
            match self.advance() {
                Ok(()) => {},
                Err(e) => {
                    return Err(e);
                },
            }
            proof {
                lemma_advance_measure(before);
            }
            let f = match self.expression() {
                Ok(p) => p,
                Err(e) => {
                    return Err(e);
                },
            };
            let ghost rest_before = rest@;
            rest.push(f);
            assert(seq![expression@] + formulas_of(rest@) =~= all.push(f@)) by {
                assert(formulas_of(rest@) =~= formulas_of(rest_before).push(f@));
            }
        }
        // Implications are right-associative: a -> (b -> c)
        let ghost fs = formulas_of(rest@);
        let mut conclusion: Option<Prop> = None;
        loop
            invariant
                rest@.len() <= fs.len(),
                formulas_of(rest@) == fs.take(rest@.len() as int),
                match conclusion {
                    None => rest@.len() == fs.len(),
                    Some(c) => rest@.len() < fs.len() && c@ == implications(fs.skip(rest@.len() as int)),
                },
            ensures
                match conclusion {
                    None => fs.len() == 0,
                    Some(c) => fs.len() > 0 && c@ == implications(fs),
                },
            decreases rest@.len(),
        {
            let ghost rest_before = rest@;
            match rest.pop() {
                None => {
                    assert(fs.skip(0) =~= fs);
                    break ;
                },
                Some(a) => {
                    let ghost k = rest@.len() as int;
                    assert(formulas_of(rest_before)[k] == a@);
                    assert(formulas_of(rest@) =~= fs.take(k)) by {
                        assert(formulas_of(rest@) =~= formulas_of(rest_before).take(k));
                    }
                    assert(fs[k] == a@);
                    assert(fs.skip(k).drop_first() =~= fs.skip(k + 1));
                    conclusion = Some(
                        match conclusion {
                            None => a,
                            Some(b) => a.implies(&b),
                        },
                    );
                },
            }
        }
        let ghost all = seq![expression@] + fs;
        assert(all.drop_first() =~= fs);
        let result = match conclusion {
            None => expression,
            Some(conclusion) => expression.implies(&conclusion),
        };
        assert(result@ == implications(all));
        accept(result)
    }

    /// `expression ::= term { '|' term }`
    pub fn expression(&mut self) -> (r: Result<Prop, Error>)
        requires
            old(self).wf(),
        ensures
            final(self).wf(),
            spec_expression(old(self)@) == (final(self)@, parsed_view(r)),
            measure(final(self)@) <= measure(old(self)@),
        decreases measure(old(self)@), 4nat,
    {
        let ghost l0 = self@;
        let mut term = match self.term() {
            Ok(p) => p,
            Err(e) => {
                return Err(e);
            },
        };
        loop
            invariant
                self.wf(),
                l0 == old(self)@,
                measure(self@) <= measure(l0),
                spec_expression(l0) == spec_expression_rest(self@, term@),
            ensures
                self.wf(),
                l0 == old(self)@,
                measure(self@) <= measure(l0),
                spec_expression(l0) == (self@, Ok::<Formula, ErrorView>(term@)),
            decreases measure(self@),
        {
            let ghost before = self@;
            match self.lexer.item() {
                Some(Token::Or) => {},
                _ => {
                    break ;
                },
            }
            match self.advance() {
                Ok(()) => {},
                Err(e) => {
                    return Err(e);
                },
            }
            proof {
                lemma_advance_measure(before);
            }
            let f = match self.term() {
                Ok(p) => p,
                Err(e) => {
                    return Err(e);
                },
            };
            term = term.or(&f);
        }
        accept(term)
    }

    /// `term ::= factor { '&' factor }`
    pub fn term(&mut self) -> (r: Result<Prop, Error>)
        requires
            old(self).wf(),
        ensures
            final(self).wf(),
            spec_term(old(self)@) == (final(self)@, parsed_view(r)),
            measure(final(self)@) <= measure(old(self)@),
        decreases measure(old(self)@), 3nat,
    {
        let ghost l0 = self@;
        let mut factor = match self.factor() {
            Ok(p) => p,
            Err(e) => {
                return Err(e);
            },
        };
        loop
            invariant
                self.wf(),
                l0 == old(self)@,
                measure(self@) <= measure(l0),
                spec_term(l0) == spec_term_rest(self@, factor@),
            ensures
                self.wf(),
                l0 == old(self)@,
                measure(self@) <= measure(l0),
                spec_term(l0) == (self@, Ok::<Formula, ErrorView>(factor@)),
            decreases measure(self@),
        {
            let ghost before = self@;
            match self.lexer.item() {
                Some(Token::And) => {},
                _ => {
                    break ;
                },
            }
            match self.advance() {
                Ok(()) => {},
                Err(e) => {
                    return Err(e);
                },
            }
            proof {
                lemma_advance_measure(before);
            }
            let f = match self.factor() {
                Ok(p) => p,
                Err(e) => {
                    return Err(e);
                },
            };
            factor = factor.and(&f);
        }
        accept(factor)
    }

    /// `factor ::= atom | negation | parentheses`
    pub fn factor(&mut self) -> (r: Result<Prop, Error>)
        requires
            old(self).wf(),
        ensures
            final(self).wf(),
            spec_factor(old(self)@) == (final(self)@, parsed_view(r)),
            measure(final(self)@) <= measure(old(self)@),
        decreases measure(old(self)@), 2nat,
    {
        match self.lexer.item() {
            Some(Token::Name(_)) => self.atom(),
            Some(Token::Not) => self.negation(),
            Some(Token::Open) => self.parentheses(),
            _ => reject(self.lexer.offset(), "expected proposition"),
        }
    }

    /// `atom ::= word`
    pub fn atom(&mut self) -> (r: Result<Prop, Error>)
        requires
            old(self).wf(),
        ensures
            final(self).wf(),
            spec_atom(old(self)@) == (final(self)@, parsed_view(r)),
            measure(final(self)@) <= measure(old(self)@),
    {
        // expect a name
        let Some(Token::Name(name)) = self.lexer.item() else {
            return reject(self.lexer.offset(), "expected atom");
        };
        match self.advance() {
            Ok(()) => {},
            Err(e) => {
                return Err(e);
            },
        }
        accept(Prop::atom(name))
    }

    /// `negation ::= '~' factor`
    pub fn negation(&mut self) -> (r: Result<Prop, Error>)
        requires
            old(self).wf(),
        ensures
            final(self).wf(),
            spec_negation(old(self)@) == (final(self)@, parsed_view(r)),
            measure(final(self)@) <= measure(old(self)@),
        decreases measure(old(self)@), 1nat,
    {
        let ghost l0 = self@;
        // expect '~'
        let Some(Token::Not) = self.lexer.item() else {
            return reject(self.lexer.offset(), "expected ~");
        };
        match self.advance() {
            Ok(()) => {},
            Err(e) => {
                return Err(e);
            },
        }
        proof {
            lemma_advance_measure(l0);
        }
        let prop = match self.factor() {
            Ok(p) => p,
            Err(e) => {
                return Err(e);
            },
        };
        accept(Prop::not(&prop))
    }

    /// `parentheses ::= '(' proposition ')'`
    pub fn parentheses(&mut self) -> (r: Result<Prop, Error>)
        requires
            old(self).wf(),
        ensures
            final(self).wf(),
            spec_parentheses(old(self)@) == (final(self)@, parsed_view(r)),
            measure(final(self)@) <= measure(old(self)@),
        decreases measure(old(self)@), 1nat,
    {
        let ghost l0 = self@;
        // expect '('
        let Some(Token::Open) = self.lexer.item() else {
            return reject(self.lexer.offset(), "expected (");
        };
        match self.advance() {
            Ok(()) => {},
            Err(e) => {
                return Err(e);
            },
        }
        proof {
            lemma_advance_measure(l0);
        }
        let prop = match self.proposition() {
            Ok(p) => p,
            Err(e) => {
                return Err(e);
            },
        };
        // expect ')'
        let Some(Token::Close) = self.lexer.item() else {
            return reject(self.lexer.offset(), "expected )");
        };
        match self.advance() {
            Ok(()) => {},
            Err(e) => {
                return Err(e);
            },
        }
        accept(prop)
    }
}

impl Prop {
    /// Parse a proposition from `s`.
    pub fn from_str(s: &str) -> (r: Result<Prop, Error>)
        ensures
            parsed_view(r) == spec_parse(s@),
    {
        proof {
            lemma_scanner_start(s@);
        }
        let scanner = match Scanner::try_from(CharSource::new(s)) {
            Ok(scanner) => scanner,
            Err(e) => {
                return Err(e);
            },
        };
        let lexer = match Lexer::try_from(TokenSource::new(scanner)) {
            Ok(lexer) => lexer,
            Err(e) => {
                return Err(e);
            },
        };
        Parser::parse(lexer)
    }
}

impl std::str::FromStr for Prop {
    type Err = Error;

    /// Parse a proposition from `s`, as `Prop::from_str` does.
    fn from_str(s: &str) -> (r: Result<Self, Self::Err>)
        ensures
            parsed_view(r) == spec_parse(s@),
    {
        Prop::from_str(s)
    }
}

} // verus!
