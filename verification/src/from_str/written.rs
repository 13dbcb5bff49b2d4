//! Propositions written in the syntax that the parser reads, and the law
//! that the parser reads every one of them back as what it stands for:
//! `&` binds tighter than `|`, `|` tighter than `->`; `&` and `|` group to
//! the left, `->` to the right; `~` applies to the factor after it.

use vstd::prelude::*;

use super::{
    implications, is_letter, is_space, lex_advance, measure, proposition_outcome, skip_spaces,
    spec_expression, spec_expression_rest, spec_factor, spec_parse, spec_proposition,
    spec_proposition_rest, spec_term, spec_term_rest, word_end, LexView, Parsed, TokenView,
};
use super::parse::Next;
use crate::formula::Formula;

verus! {

/// A proposition as it is written: names, `~`, `&`, `|` and `->`.
pub enum Syntax {
    Name(Seq<char>),
    Neg(Box<Syntax>),
    Conj(Box<Syntax>, Box<Syntax>),
    Disj(Box<Syntax>, Box<Syntax>),
    Imp(Box<Syntax>, Box<Syntax>),
}

/// What a written proposition stands for; `a -> b` is `¬a ∨ b`.
pub open spec fn meaning(s: Syntax) -> Formula
    decreases s,
{
    match s {
        Syntax::Name(n) => Formula::Atom(n),
        Syntax::Neg(a) => Formula::Not(Box::new(meaning(*a))),
        Syntax::Conj(a, b) => Formula::And(Box::new(meaning(*a)), Box::new(meaning(*b))),
        Syntax::Disj(a, b) => Formula::Or(Box::new(meaning(*a)), Box::new(meaning(*b))),
        Syntax::Imp(a, b) => Formula::Or(
            Box::new(Formula::Not(Box::new(meaning(*a)))),
            Box::new(meaning(*b)),
        ),
    }
}

/// A name: one or more ASCII letters, lower or upper case.
pub open spec fn valid_name(n: Seq<char>) -> bool {
    &&& n.len() > 0
    &&& forall|i: int|
        0 <= i < n.len() ==> (97 <= #[trigger] n[i] as u32 <= 122) || (65 <= n[i] as u32 <= 90)
}

/// Every name in the proposition is a valid name.
pub open spec fn well_named(s: Syntax) -> bool
    decreases s,
{
    match s {
        Syntax::Name(n) => valid_name(n),
        Syntax::Neg(a) => well_named(*a),
        Syntax::Conj(a, b) => well_named(*a) && well_named(*b),
        Syntax::Disj(a, b) => well_named(*a) && well_named(*b),
        Syntax::Imp(a, b) => well_named(*a) && well_named(*b),
    }
}

/// How tightly the operator at the root binds.
pub open spec fn binding(s: Syntax) -> nat {
    match s {
        Syntax::Imp(_, _) => 0,
        Syntax::Disj(_, _) => 1,
        Syntax::Conj(_, _) => 2,
        _ => 3,
    }
}

/// The tokens of `s` written where an operand binding at least as tightly
/// as `context` is expected, in parentheses where it binds less tightly.
/// The left operand of `->`, `|` and `&` is written with their own binding
/// and the right one with the next tighter (`->` with its own: it groups
/// to the right).
pub open spec fn tokens(s: Syntax, context: nat) -> Seq<TokenView>
    decreases s,
{
    let inner = match s {
        Syntax::Name(n) => seq![TokenView::Name(n)],
        Syntax::Neg(a) => seq![TokenView::Not] + tokens(*a, 3),
        Syntax::Conj(a, b) => tokens(*a, 2) + seq![TokenView::And] + tokens(*b, 3),
        Syntax::Disj(a, b) => tokens(*a, 1) + seq![TokenView::Or] + tokens(*b, 2),
        Syntax::Imp(a, b) => tokens(*a, 1) + seq![TokenView::Implies] + tokens(*b, 0),
    };
    if binding(s) < context {
        seq![TokenView::Open] + inner + seq![TokenView::Close]
    } else {
        inner
    }
}

/// The characters of a token.
pub open spec fn token_text(t: TokenView) -> Seq<char> {
    match t {
        TokenView::Name(n) => n,
        TokenView::Or => seq!['|'],
        TokenView::And => seq!['&'],
        TokenView::Not => seq!['~'],
        TokenView::Implies => seq!['-', '>'],
        TokenView::Open => seq!['('],
        TokenView::Close => seq![')'],
        TokenView::EndOfInput => Seq::empty(),
    }
}

/// Tokens written one after the other, each after a space.
pub open spec fn spell(ts: Seq<TokenView>) -> Seq<char>
    decreases ts.len(),
{
    if ts.len() == 0 {
        Seq::empty()
    } else {
        seq![' '] + token_text(ts[0]) + spell(ts.drop_first())
    }
}

/// The text of a written proposition.
pub open spec fn written(s: Syntax) -> Seq<char> {
    spell(tokens(s, 0))
}

/// The parser reads the text of every written proposition back as what
/// it stands for.
pub proof fn lemma_parse_written(s: Syntax)
    requires
        well_named(s),
    ensures
        spec_parse(written(s)) == Ok::<Formula, (usize, Seq<char>)>(meaning(s)),
{
    let ts = tokens(s, 0);
    lemma_tokens_good(s, 0);
    lemma_tokens_nonempty(s, 0);
    let l0 = lemma_start(written(s), ts);
    assert(ts + Seq::<TokenView>::empty() =~= ts);
    lemma_proposition(s, l0, Seq::empty());
    lemma_read(l0, ts, Seq::empty());
    let l1 = advance_n(l0, ts.len() as nat);
    lemma_at_current(l1, Seq::empty());
    lemma_at_end(l1);
}

/// The lexer starts at the first of the tokens that a text spells.
proof fn lemma_start(text: Seq<char>, ts: Seq<TokenView>) -> (l: LexView)
    requires
        text == spell(ts),
        good(ts),
        ts.len() > 0,
    ensures
        super::spec_lexer_start(text) == Ok::<LexView, (usize, Seq<char>)>(l),
        at(l, ts),
{
    reveal(at);
    assert(text.subrange(0, text.len() as int) =~= text);
    lemma_token_step_spelled(text, 0, ts);
    let (state, result) = super::token_step((text, 0));
    (state, result->Ok_0->Value_0, Some(ts[0]))
}

/// At the end of the input the lexer reads the end of the input again.
proof fn lemma_at_end(l: LexView)
    requires
        at(l, Seq::empty()),
    ensures
        lex_advance(l).1 == Ok::<(), (usize, Seq<char>)>(()),
{
    reveal(at);
    reveal(good);
    assert(l.0.0.subrange(l.0.1 as int, l.0.0.len() as int) =~= Seq::<char>::empty());
    lemma_token_step_spelled(l.0.0, l.0.1, Seq::empty());
}

/// No token is the end of the input, and names are valid.
#[verifier::opaque]
pub open spec fn good(ts: Seq<TokenView>) -> bool {
    forall|i: int|
        #![trigger ts[i]]
        0 <= i < ts.len() ==> ts[i] != TokenView::EndOfInput && (ts[i] matches TokenView::Name(n) ==> valid_name(n))
}

/// The lexer `l` is at the tokens `ts`: its current token is the first of
/// them and the rest are spelled after its position; at the end of the
/// input where there are none.
#[verifier::opaque]
pub open spec fn at(l: LexView, ts: Seq<TokenView>) -> bool {
    let (text, p) = l.0;
    &&& p <= text.len()
    &&& if ts.len() == 0 {
        l.2 == Some(TokenView::EndOfInput) && p == text.len()
    } else {
        l.2 == Some(ts[0]) && text.subrange(p as int, text.len() as int) == spell(ts.drop_first())
    }
}

/// The lexer after `n` advances.
pub open spec fn advance_n(l: LexView, n: nat) -> LexView
    decreases n,
{
    if n == 0 {
        l
    } else {
        advance_n(lex_advance(l).0, (n - 1) as nat)
    }
}

proof fn lemma_tokens_good(s: Syntax, context: nat)
    requires
        well_named(s),
    ensures
        good(tokens(s, context)),
    decreases s,
{
    reveal(good);
    match s {
        Syntax::Name(_) => {},
        Syntax::Neg(a) => lemma_tokens_good(*a, 3),
        Syntax::Conj(a, b) => {
            lemma_tokens_good(*a, 2);
            lemma_tokens_good(*b, 3);
        },
        Syntax::Disj(a, b) => {
            lemma_tokens_good(*a, 1);
            lemma_tokens_good(*b, 2);
        },
        Syntax::Imp(a, b) => {
            lemma_tokens_good(*a, 1);
            lemma_tokens_good(*b, 0);
        },
    }
    let inner = match s {
        Syntax::Name(n) => seq![TokenView::Name(n)],
        Syntax::Neg(a) => seq![TokenView::Not] + tokens(*a, 3),
        Syntax::Conj(a, b) => tokens(*a, 2) + seq![TokenView::And] + tokens(*b, 3),
        Syntax::Disj(a, b) => tokens(*a, 1) + seq![TokenView::Or] + tokens(*b, 2),
        Syntax::Imp(a, b) => tokens(*a, 1) + seq![TokenView::Implies] + tokens(*b, 0),
    };
    assert(good(inner));
    assert(good(seq![TokenView::Open] + inner + seq![TokenView::Close]));
}

proof fn lemma_tokens_nonempty(s: Syntax, context: nat)
    ensures
        tokens(s, context).len() > 0,
    decreases s,
{
    match s {
        Syntax::Name(_) => {},
        Syntax::Neg(a) => lemma_tokens_nonempty(*a, 3),
        Syntax::Conj(a, b) => lemma_tokens_nonempty(*a, 2),
        Syntax::Disj(a, b) => lemma_tokens_nonempty(*a, 1),
        Syntax::Imp(a, b) => lemma_tokens_nonempty(*a, 1),
    }
}

proof fn lemma_spell_concat(a: Seq<TokenView>, b: Seq<TokenView>)
    ensures
        spell(a + b) == spell(a) + spell(b),
    decreases a.len(),
{
    if a.len() == 0 {
        assert(a + b =~= b);
        assert(Seq::<char>::empty() + spell(b) =~= spell(b));
    } else {
        lemma_spell_concat(a.drop_first(), b);
        assert((a + b).drop_first() =~= a.drop_first() + b);
        assert((a + b)[0] == a[0]);
        assert(seq![' '] + token_text(a[0]) + (spell(a.drop_first()) + spell(b)) =~= seq![' '] + token_text(
            a[0],
        ) + spell(a.drop_first()) + spell(b));
    }
}

proof fn lemma_word_end_run(text: Seq<char>, k: nat, e: nat)
    requires
        k <= e <= text.len(),
        forall|j: int| k <= j < e ==> is_letter(#[trigger] text[j]),
        e == text.len() || !is_letter(text[e as int]),
    ensures
        word_end(text, k) == e,
    decreases e - k,
{
    if k < e {
        lemma_word_end_run(text, k + 1, e);
    }
}

/// The lexer reads the tokens of a spelled text one by one, and the end of
/// the input after them.
proof fn lemma_token_step_spelled(text: Seq<char>, p: nat, us: Seq<TokenView>)
    requires
        p <= text.len(),
        text.subrange(p as int, text.len() as int) == spell(us),
        good(us),
    ensures
        ({
            let (state, result) = super::token_step((text, p));
            &&& state.0 == text
            &&& state.1 <= text.len()
            &&& result matches Ok(Next::Value(_, t)) && t == (if us.len() == 0 {
                TokenView::EndOfInput
            } else {
                us[0]
            })
            &&& if us.len() == 0 {
                state.1 == text.len()
            } else {
                text.subrange(state.1 as int, text.len() as int) == spell(us.drop_first())
            }
        }),
{
    reveal(at);
    reveal(good);
    let sub = text.subrange(p as int, text.len() as int);
    if us.len() == 0 {
        assert(sub.len() == 0);
        assert(p == text.len());
    } else {
        let t = us[0];
        let tt = token_text(t);
        let rest = spell(us.drop_first());
        assert(spell(us) == seq![' '] + tt + rest);
        assert(tt.len() > 0) by {
            if let TokenView::Name(n) = t {
                assert(valid_name(n));
            }
        }
        assert(text[p as int] == sub[0]);
        assert(sub[0] == ' ');
        assert(is_space(text[p as int]));
        assert(text[p + 1int] == sub[1]);
        assert(sub[1] == tt[0]);
        let c = tt[0];
        assert(!is_space(c)) by {
            if let TokenView::Name(n) = t {
                assert(valid_name(n));
                assert(97 <= n[0] as u32 <= 122 || 65 <= n[0] as u32 <= 90);
            }
        }
        assert(skip_spaces(text, p + 1) == p + 1);
        assert(skip_spaces(text, p) == p + 1);
        let e = p + 1 + tt.len();
        assert(e <= text.len());
        assert(text.subrange(e as int, text.len() as int) =~= rest) by {
            assert forall|j: int| 0 <= j < rest.len() implies text.subrange(e as int, text.len() as int)[j]
                == rest[j] by {
                assert(text[e + j] == sub[1 + tt.len() + j]);
            }
        }
        assert forall|j: int| 0 <= j < tt.len() implies text[p + 1 + j] == #[trigger] tt[j] by {
            assert(text[p + 1 + j] == sub[1 + j]);
        }
        match t {
            TokenView::Name(n) => {
                assert(valid_name(n));
                assert forall|j: int| p + 1 <= j < e implies is_letter(#[trigger] text[j]) by {
                    assert(text[j] == tt[j - p - 1]);
                    assert(97 <= n[j - p - 1] as u32 <= 122 || 65 <= n[j - p - 1] as u32 <= 90);
                }
                if e < text.len() {
                    assert(rest.len() > 0);
                    assert(rest[0] == ' ');
                    assert(text[e as int] == rest[0]);
                }
                lemma_word_end_run(text, p + 2, e);
                assert(is_letter(c));
                assert(text.subrange(p + 1int, e as int) =~= n);
            },
            TokenView::Implies => {
                assert(text[p + 1int] == '-');
                assert(text[p + 2int] == '>');
            },
            _ => {
                assert(!is_letter(c));
            },
        }
    }
}

/// Advancing a lexer that is at some tokens moves it to the next one.
proof fn lemma_advance_at(l: LexView, ts: Seq<TokenView>)
    requires
        at(l, ts),
        good(ts),
        ts.len() > 0,
    ensures
        lex_advance(l).1 == Ok::<(), (usize, Seq<char>)>(()),
        at(lex_advance(l).0, ts.drop_first()),
        lex_advance(l).0.0.0 == l.0.0,
{
    reveal(at);
    reveal(good);
    lemma_token_step_spelled(l.0.0, l.0.1, ts.drop_first());
}

proof fn lemma_advance_n(l: LexView, ts: Seq<TokenView>, k: nat)
    requires
        at(l, ts),
        good(ts),
        k <= ts.len(),
    ensures
        at(advance_n(l, k), ts.skip(k as int)),
        advance_n(l, k).0.0 == l.0.0,
    decreases k,
{
    if k == 0 {
        assert(ts.skip(0) =~= ts);
    } else {
        lemma_advance_at(l, ts);
        assert(ts =~= seq![ts[0]] + ts.drop_first());
        lemma_good_split(seq![ts[0]], ts.drop_first());
        lemma_advance_n(lex_advance(l).0, ts.drop_first(), (k - 1) as nat);
        assert(ts.drop_first().skip(k - 1) =~= ts.skip(k as int));
    }
}

proof fn lemma_advance_n_add(l: LexView, a: nat, b: nat)
    ensures
        advance_n(advance_n(l, a), b) == advance_n(l, a + b),
    decreases a,
{
    if a > 0 {
        lemma_advance_n_add(lex_advance(l).0, (a - 1) as nat, b);
    }
}

/// Consuming tokens consumes input.
proof fn lemma_measure_drop(l: LexView, ts: Seq<TokenView>, rest: Seq<TokenView>, l2: LexView)
    requires
        at(l, ts + rest),
        at(l2, rest),
        good(ts + rest),
        ts.len() > 0,
    ensures
        measure(l2) < measure(l),
{
    reveal(at);
    reveal(good);
    let all = ts + rest;
    assert(all.drop_first() =~= ts.drop_first() + rest);
    lemma_spell_concat(ts.drop_first(), rest);
    assert(all[0] == ts[0]);
    assert(l.0.0.subrange(l.0.1 as int, l.0.0.len() as int).len() == spell(all.drop_first()).len());
    if rest.len() > 0 {
        assert(rest[0] == all[ts.len() as int]);
        assert(spell(rest) == seq![' '] + token_text(rest[0]) + spell(rest.drop_first()));
        assert(l2.0.0.subrange(l2.0.1 as int, l2.0.0.len() as int).len() == spell(rest.drop_first()).len());
        assert(token_text(rest[0]).len() > 0) by {
            if let TokenView::Name(n) = rest[0] {
                assert(valid_name(n));
            }
        }
    }
}

proof fn step_factor_name(l: LexView, n: Seq<char>)
    requires
        l.2 == Some(TokenView::Name(n)),
        lex_advance(l).1 == Ok::<(), (usize, Seq<char>)>(()),
    ensures
        spec_factor(l) == (lex_advance(l).0, Ok::<Formula, (usize, Seq<char>)>(Formula::Atom(n))),
{
}

proof fn step_factor_not(l: LexView, l2: LexView, f: Formula)
    requires
        l.2 == Some(TokenView::Not),
        lex_advance(l).1 == Ok::<(), (usize, Seq<char>)>(()),
        spec_factor(lex_advance(l).0) == (l2, Ok::<Formula, (usize, Seq<char>)>(f)),
    ensures
        spec_factor(l) == (l2, Ok::<Formula, (usize, Seq<char>)>(Formula::Not(Box::new(f)))),
{
}

proof fn step_factor_open(l: LexView, l2: LexView, f: Formula)
    requires
        l.2 == Some(TokenView::Open),
        lex_advance(l).1 == Ok::<(), (usize, Seq<char>)>(()),
        spec_proposition(lex_advance(l).0) == (l2, Ok::<Formula, (usize, Seq<char>)>(f)),
        l2.2 == Some(TokenView::Close),
        lex_advance(l2).1 == Ok::<(), (usize, Seq<char>)>(()),
    ensures
        spec_factor(l) == (lex_advance(l2).0, Ok::<Formula, (usize, Seq<char>)>(f)),
{
}

proof fn step_term(l: LexView, l1: LexView, f: Formula)
    requires
        spec_factor(l) == (l1, Ok::<Formula, (usize, Seq<char>)>(f)),
        measure(l1) <= measure(l),
    ensures
        spec_term(l) == spec_term_rest(l1, f),
{
}

proof fn step_term_rest_and(l: LexView, acc: Formula, l2: LexView, g: Formula)
    requires
        l.2 == Some(TokenView::And),
        lex_advance(l).1 == Ok::<(), (usize, Seq<char>)>(()),
        spec_factor(lex_advance(l).0) == (l2, Ok::<Formula, (usize, Seq<char>)>(g)),
        measure(l2) < measure(l),
    ensures
        spec_term_rest(l, acc) == spec_term_rest(l2, Formula::And(Box::new(acc), Box::new(g))),
{
}

proof fn step_term_rest_stop(l: LexView, acc: Formula)
    requires
        l.2 != Some(TokenView::And),
    ensures
        spec_term_rest(l, acc) == (l, Ok::<Formula, (usize, Seq<char>)>(acc)),
{
}

proof fn step_expression(l: LexView, l1: LexView, f: Formula)
    requires
        spec_term(l) == (l1, Ok::<Formula, (usize, Seq<char>)>(f)),
        measure(l1) <= measure(l),
    ensures
        spec_expression(l) == spec_expression_rest(l1, f),
{
}

proof fn step_expression_rest_or(l: LexView, acc: Formula, l2: LexView, g: Formula)
    requires
        l.2 == Some(TokenView::Or),
        lex_advance(l).1 == Ok::<(), (usize, Seq<char>)>(()),
        spec_term(lex_advance(l).0) == (l2, Ok::<Formula, (usize, Seq<char>)>(g)),
        measure(l2) < measure(l),
    ensures
        spec_expression_rest(l, acc) == spec_expression_rest(l2, Formula::Or(Box::new(acc), Box::new(g))),
{
}

proof fn step_expression_rest_stop(l: LexView, acc: Formula)
    requires
        l.2 != Some(TokenView::Or),
    ensures
        spec_expression_rest(l, acc) == (l, Ok::<Formula, (usize, Seq<char>)>(acc)),
{
}

proof fn step_proposition(l: LexView, l1: LexView, f: Formula)
    requires
        spec_expression(l) == (l1, Ok::<Formula, (usize, Seq<char>)>(f)),
        measure(l1) <= measure(l),
    ensures
        spec_proposition(l) == proposition_outcome(spec_proposition_rest(l1, seq![f])),
{
}

proof fn step_proposition_rest_implies(l: LexView, acc: Seq<Formula>, l2: LexView, g: Formula)
    requires
        l.2 == Some(TokenView::Implies),
        lex_advance(l).1 == Ok::<(), (usize, Seq<char>)>(()),
        spec_expression(lex_advance(l).0) == (l2, Ok::<Formula, (usize, Seq<char>)>(g)),
        measure(l2) < measure(l),
    ensures
        spec_proposition_rest(l, acc) == spec_proposition_rest(l2, acc.push(g)),
{
}

proof fn step_proposition_rest_stop(l: LexView, acc: Seq<Formula>)
    requires
        l.2 != Some(TokenView::Implies),
    ensures
        spec_proposition_rest(l, acc) == (l, Ok::<Seq<Formula>, (usize, Seq<char>)>(acc)),
{
}

/// Which of the mutually inductive parsing lemmas may call which on the
/// same proposition.
spec fn rank(lemma: nat, s: Syntax) -> nat {
    // lemma: 0 factor, 1 term, 2 expression, 3 proposition, 4 implications
    match s {
        Syntax::Conj(_, _) => if lemma == 0 {
            3
        } else if lemma == 1 {
            0
        } else if lemma == 2 {
            1
        } else {
            2
        },
        Syntax::Disj(_, _) => if lemma == 0 {
            2
        } else if lemma == 1 {
            3
        } else if lemma == 2 {
            0
        } else {
            1
        },
        Syntax::Imp(_, _) => if lemma == 0 {
            1
        } else if lemma == 1 {
            2
        } else if lemma == 2 {
            3
        } else {
            0
        },
        _ => if lemma <= 2 {
            lemma
        } else {
            3
        },
    }
}

/// The expressions of a chain of implications.
pub open spec fn chain(s: Syntax) -> Seq<Formula>
    decreases s,
{
    match s {
        Syntax::Imp(a, b) => seq![meaning(*a)] + chain(*b),
        _ => seq![meaning(s)],
    }
}

proof fn lemma_chain(s: Syntax)
    ensures
        chain(s).len() > 0,
        implications(chain(s)) == meaning(s),
    decreases s,
{
    if let Syntax::Imp(a, b) = s {
        lemma_chain(*b);
        let c = chain(s);
        assert(c.drop_first() =~= chain(*b));
    }
}

proof fn lemma_good_split(a: Seq<TokenView>, b: Seq<TokenView>)
    requires
        good(a + b),
    ensures
        good(a),
        good(b),
{
    reveal(good);
    assert forall|i: int| 0 <= i < a.len() implies #[trigger] a[i] == (a + b)[i] by {}
    assert forall|i: int| 0 <= i < b.len() implies #[trigger] b[i] == (a + b)[i + a.len()] by {}
}

proof fn lemma_good_join(a: Seq<TokenView>, b: Seq<TokenView>)
    requires
        good(a),
        good(b),
    ensures
        good(a + b),
{
    reveal(good);
    assert forall|i: int| 0 <= i < (a + b).len() implies #[trigger] (a + b)[i] != TokenView::EndOfInput
        && ((a + b)[i] matches TokenView::Name(n) ==> valid_name(n)) by {
        if i < a.len() {
            assert((a + b)[i] == a[i]);
        } else {
            assert((a + b)[i] == b[i - a.len()]);
        }
    }
}

proof fn lemma_good_symbol(t: TokenView)
    requires
        !(t is Name),
        t != TokenView::EndOfInput,
    ensures
        good(seq![t]),
{
    reveal(good);
}

/// The current token of a lexer at some tokens is the first of them.
proof fn lemma_at_current(l: LexView, ts: Seq<TokenView>)
    requires
        at(l, ts),
    ensures
        ts.len() > 0 ==> l.2 == Some(ts[0]),
        ts.len() == 0 ==> l.2 == Some(TokenView::EndOfInput),
{
    reveal(at);
}

proof fn lemma_advance_one(l: LexView)
    ensures
        advance_n(l, 1) == lex_advance(l).0,
{
    assert(advance_n(lex_advance(l).0, 0) == lex_advance(l).0);
}

/// After reading the tokens `ts` from a lexer at `ts + rest`, the lexer is
/// at `rest`, having consumed input.
proof fn lemma_read(l: LexView, ts: Seq<TokenView>, rest: Seq<TokenView>)
    requires
        at(l, ts + rest),
        good(ts + rest),
        ts.len() > 0,
    ensures
        at(advance_n(l, ts.len() as nat), rest),
        measure(advance_n(l, ts.len() as nat)) < measure(l),
{
    lemma_advance_n(l, ts + rest, ts.len() as nat);
    assert((ts + rest).skip(ts.len() as int) =~= rest);
    lemma_measure_drop(l, ts, rest, advance_n(l, ts.len() as nat));
}

/// A factor is read as what it stands for.
#[verifier::rlimit(50)]
#[verifier::spinoff_prover]
proof fn lemma_factor(s: Syntax, l: LexView, rest: Seq<TokenView>)
    requires
        well_named(s),
        at(l, tokens(s, 3) + rest),
        good(tokens(s, 3) + rest),
    ensures
        spec_factor(l) == (advance_n(l, tokens(s, 3).len()), Ok::<Formula, (usize, Seq<char>)>(meaning(s))),
    decreases s, rank(0, s),
{
    let ts = tokens(s, 3);
    let all = ts + rest;
    lemma_advance_at(l, all);
    let l1 = lex_advance(l).0;
    match s {
        Syntax::Name(n) => {
            assert(ts =~= seq![TokenView::Name(n)]);
            assert(all[0] == TokenView::Name(n));
            lemma_at_current(l, all);
            step_factor_name(l, n);
            lemma_advance_one(l);
        },
        Syntax::Neg(a) => {
            let ta = tokens(*a, 3);
            assert(ts =~= seq![TokenView::Not] + ta);
            assert(all[0] == TokenView::Not);
            lemma_at_current(l, all);
            assert(all.drop_first() =~= ta + rest);
            assert(all =~= seq![TokenView::Not] + (ta + rest));
            lemma_good_split(seq![TokenView::Not], ta + rest);
            lemma_factor(*a, l1, rest);
            step_factor_not(l, advance_n(l1, ta.len() as nat), meaning(*a));
        },
        _ => {
            let inner = tokens(s, 0);
            assert(ts =~= seq![TokenView::Open] + inner + seq![TokenView::Close]);
            assert(all[0] == TokenView::Open);
            let r2 = seq![TokenView::Close] + rest;
            assert(all.drop_first() =~= inner + r2);
            lemma_at_current(l, all);
            assert(all =~= seq![TokenView::Open] + (inner + r2));
            lemma_good_split(seq![TokenView::Open], inner + r2);
            lemma_good_split(inner, r2);
            lemma_tokens_nonempty(s, 0);
            lemma_proposition(s, l1, r2);
            let l2 = advance_n(l1, inner.len() as nat);
            lemma_read(l1, inner, r2);
            lemma_at_current(l2, r2);
            lemma_advance_at(l2, r2);
            step_factor_open(l, l2, meaning(s));
            lemma_advance_n_add(l1, inner.len() as nat, 1);
            lemma_advance_one(l2);
        },
    }
}

/// A term is read as what it stands for, and what follows is read on as
/// the rest of the term.
proof fn lemma_term(s: Syntax, l: LexView, rest: Seq<TokenView>)
    requires
        well_named(s),
        at(l, tokens(s, 2) + rest),
        good(tokens(s, 2) + rest),
    ensures
        spec_term(l) == spec_term_rest(advance_n(l, tokens(s, 2).len()), meaning(s)),
    decreases s, rank(1, s),
{
    let ts = tokens(s, 2);
    lemma_tokens_nonempty(s, 2);
    if let Syntax::Conj(a, b) = s {
        let ta = tokens(*a, 2);
        let tb = tokens(*b, 3);
        let r1 = seq![TokenView::And] + tb + rest;
        assert(ts + rest =~= ta + r1);
        lemma_tokens_nonempty(*a, 2);
        lemma_tokens_nonempty(*b, 3);
        lemma_good_split(ta, r1);
        assert(r1 =~= seq![TokenView::And] + (tb + rest));
        lemma_good_split(seq![TokenView::And], tb + rest);
        lemma_term(*a, l, r1);
        lemma_read(l, ta, r1);
        let la = advance_n(l, ta.len() as nat);
        assert(r1[0] == TokenView::And);
        lemma_at_current(la, r1);
        lemma_advance_at(la, r1);
        let l1 = lex_advance(la).0;
        assert(r1.drop_first() =~= tb + rest);
        lemma_factor(*b, l1, rest);
        lemma_read(l1, tb, rest);
        let lb = advance_n(l1, tb.len() as nat);
        assert(r1 =~= (seq![TokenView::And] + tb) + rest);
        lemma_read(la, seq![TokenView::And] + tb, rest);
        lemma_advance_n_add(la, 1, tb.len() as nat);
        lemma_advance_one(la);
        step_term_rest_and(la, meaning(*a), lb, meaning(*b));
        lemma_advance_n_add(l, ta.len() as nat, 1 + tb.len());
        assert(ts.len() == ta.len() + (1 + tb.len()));
    } else {
        assert(ts == tokens(s, 3));
        lemma_factor(s, l, rest);
        lemma_read(l, ts, rest);
        step_term(l, advance_n(l, ts.len() as nat), meaning(s));
    }
}

/// An expression is read as what it stands for, and what follows is read
/// on as the rest of the expression.
proof fn lemma_expression(s: Syntax, l: LexView, rest: Seq<TokenView>)
    requires
        well_named(s),
        at(l, tokens(s, 1) + rest),
        good(tokens(s, 1) + rest),
        rest.len() == 0 || rest[0] != TokenView::And,
    ensures
        spec_expression(l) == spec_expression_rest(advance_n(l, tokens(s, 1).len()), meaning(s)),
    decreases s, rank(2, s),
{
    let ts = tokens(s, 1);
    lemma_tokens_nonempty(s, 1);
    if let Syntax::Disj(a, b) = s {
        let ta = tokens(*a, 1);
        let tb = tokens(*b, 2);
        let r1 = seq![TokenView::Or] + tb + rest;
        assert(ts + rest =~= ta + r1);
        lemma_tokens_nonempty(*a, 1);
        lemma_tokens_nonempty(*b, 2);
        assert(r1[0] == TokenView::Or);
        lemma_good_split(ta, r1);
        assert(r1 =~= seq![TokenView::Or] + (tb + rest));
        lemma_good_split(seq![TokenView::Or], tb + rest);
        lemma_expression(*a, l, r1);
        lemma_read(l, ta, r1);
        let la = advance_n(l, ta.len() as nat);
        lemma_at_current(la, r1);
        lemma_advance_at(la, r1);
        let l1 = lex_advance(la).0;
        assert(r1.drop_first() =~= tb + rest);
        lemma_term(*b, l1, rest);
        lemma_read(l1, tb, rest);
        let lb = advance_n(l1, tb.len() as nat);
        lemma_at_current(lb, rest);
        step_term_rest_stop(lb, meaning(*b));
        assert(r1 =~= (seq![TokenView::Or] + tb) + rest);
        lemma_read(la, seq![TokenView::Or] + tb, rest);
        lemma_advance_n_add(la, 1, tb.len() as nat);
        lemma_advance_one(la);
        step_expression_rest_or(la, meaning(*a), lb, meaning(*b));
        lemma_advance_n_add(l, ta.len() as nat, 1 + tb.len());
        assert(ts.len() == ta.len() + (1 + tb.len()));
    } else {
        assert(ts == tokens(s, 2));
        lemma_term(s, l, rest);
        lemma_read(l, ts, rest);
        let ls = advance_n(l, ts.len() as nat);
        lemma_at_current(ls, rest);
        step_term_rest_stop(ls, meaning(s));
        step_expression(l, ls, meaning(s));
    }
}

/// A proposition is read as what it stands for.
proof fn lemma_proposition(s: Syntax, l: LexView, rest: Seq<TokenView>)
    requires
        well_named(s),
        at(l, tokens(s, 0) + rest),
        good(tokens(s, 0) + rest),
        rest.len() == 0 || (rest[0] != TokenView::And && rest[0] != TokenView::Or && rest[0]
            != TokenView::Implies),
    ensures
        spec_proposition(l) == (advance_n(l, tokens(s, 0).len()), Ok::<Formula, (usize, Seq<char>)>(meaning(s))),
    decreases s, rank(3, s),
{
    let ts = tokens(s, 0);
    lemma_tokens_nonempty(s, 0);
    lemma_chain(s);
    if let Syntax::Imp(a, b) = s {
        let ta = tokens(*a, 1);
        let tb = tokens(*b, 0);
        let r1 = seq![TokenView::Implies] + tb + rest;
        assert(ts + rest =~= ta + r1);
        lemma_tokens_nonempty(*a, 1);
        assert(r1[0] == TokenView::Implies);
        lemma_good_split(ta, r1);
        lemma_expression(*a, l, r1);
        lemma_read(l, ta, r1);
        let la = advance_n(l, ta.len() as nat);
        lemma_at_current(la, r1);
        step_expression_rest_stop(la, meaning(*a));
        step_proposition(l, la, meaning(*a));
        lemma_implications(*b, la, rest, seq![meaning(*a)]);
        lemma_advance_n_add(l, ta.len() as nat, 1 + tb.len());
        assert(ts.len() == ta.len() + (1 + tb.len()));
        assert(seq![meaning(*a)] + chain(*b) =~= chain(s));
    } else {
        assert(ts == tokens(s, 1));
        lemma_expression(s, l, rest);
        lemma_read(l, ts, rest);
        let ls = advance_n(l, ts.len() as nat);
        lemma_at_current(ls, rest);
        step_expression_rest_stop(ls, meaning(s));
        step_proposition(l, ls, meaning(s));
        step_proposition_rest_stop(ls, seq![meaning(s)]);
        assert(seq![meaning(s)] =~= chain(s));
    }
}

/// A chain of implications after `->` is read as its expressions, one
/// after the other.
#[verifier::rlimit(50)]
proof fn lemma_implications(s: Syntax, l: LexView, rest: Seq<TokenView>, acc: Seq<Formula>)
    requires
        well_named(s),
        at(l, seq![TokenView::Implies] + tokens(s, 0) + rest),
        good(seq![TokenView::Implies] + tokens(s, 0) + rest),
        rest.len() == 0 || (rest[0] != TokenView::And && rest[0] != TokenView::Or && rest[0]
            != TokenView::Implies),
    ensures
        spec_proposition_rest(l, acc) == (
            advance_n(l, 1 + tokens(s, 0).len()),
            Ok::<Seq<Formula>, (usize, Seq<char>)>(acc + chain(s)),
        ),
    decreases s, rank(4, s),
{
    let ts = tokens(s, 0);
    let all = seq![TokenView::Implies] + ts + rest;
    lemma_tokens_nonempty(s, 0);
    assert(all[0] == TokenView::Implies);
    lemma_at_current(l, all);
    lemma_advance_at(l, all);
    let l1 = lex_advance(l).0;
    assert(all.drop_first() =~= ts + rest);
    assert(all =~= seq![TokenView::Implies] + (ts + rest));
    lemma_good_split(seq![TokenView::Implies], ts + rest);
    if let Syntax::Imp(a, b) = s {
        let ta = tokens(*a, 1);
        let tb = tokens(*b, 0);
        let r1 = seq![TokenView::Implies] + tb + rest;
        assert(ts + rest =~= ta + r1);
        lemma_tokens_nonempty(*a, 1);
        assert(r1[0] == TokenView::Implies);
        lemma_good_split(ta, r1);
        lemma_expression(*a, l1, r1);
        lemma_read(l1, ta, r1);
        let la = advance_n(l1, ta.len() as nat);
        lemma_at_current(la, r1);
        step_expression_rest_stop(la, meaning(*a));
        assert(all =~= (seq![TokenView::Implies] + ta) + r1);
        lemma_read(l, seq![TokenView::Implies] + ta, r1);
        lemma_advance_n_add(l, 1, ta.len() as nat);
        lemma_advance_one(l);
        lemma_advance_n_add(l1, 0, ta.len() as nat);
        step_proposition_rest_implies(l, acc, la, meaning(*a));
        lemma_implications(*b, la, rest, acc.push(meaning(*a)));
        lemma_advance_n_add(l1, ta.len() as nat, 1 + tb.len());
        assert(ts.len() == ta.len() + (1 + tb.len()));
        assert(acc.push(meaning(*a)) + chain(*b) =~= acc + chain(s));
    } else {
        assert(ts == tokens(s, 1));
        lemma_expression(s, l1, rest);
        lemma_read(l1, ts, rest);
        let ls = advance_n(l1, ts.len() as nat);
        lemma_at_current(ls, rest);
        step_expression_rest_stop(ls, meaning(s));
        assert(all =~= (seq![TokenView::Implies] + ts) + rest);
        lemma_read(l, seq![TokenView::Implies] + ts, rest);
        lemma_advance_n_add(l, 1, ts.len() as nat);
        lemma_advance_one(l);
        step_proposition_rest_implies(l, acc, ls, meaning(s));
        step_proposition_rest_stop(ls, acc.push(meaning(s)));
        assert(acc.push(meaning(s)) =~= acc + chain(s));
    }
}

} // verus!
