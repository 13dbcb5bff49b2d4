//! Displaying propositions.

pub mod plain;
pub mod pretty;

use vstd::prelude::*;

use crate::formula::Formula;
use crate::types::{Prop, Term};
use pretty::{
    block_text, break_text, flat, flat_items, lemma_flat_block, lemma_print_fits, spec_print, string_text,
    sum_lengths, views, well_indented, wf_text, Text, TextView,
};
use vstd::string::StringExecFns;

verus! {

/// The parentheses around an operator of binding `level` in a context of
/// binding `precedence`: none where the operator binds at least as tightly.
pub open spec fn parens(precedence: nat, level: nat) -> (Seq<char>, Seq<char>) {
    if precedence <= level {
        (Seq::empty(), Seq::empty())
    } else {
        (seq!['('], seq![')'])
    }
}

/// A binary operation written on one line: the operands `a` and `b`
/// around the operator `op`, in parentheses where needed.
pub open spec fn binary_line(a: Seq<char>, op: Seq<char>, b: Seq<char>, level: nat, precedence: nat) -> Seq<char> {
    let (left, right) = parens(precedence, level);
    left + a + seq![' '] + op + seq![' '] + b + right
}

/// A formula written on one line, in a context of binding `precedence`:
/// negation binds tightest, then conjunction, then disjunction.
pub open spec fn show(f: Formula, precedence: nat) -> Seq<char>
    decreases f,
{
    match f {
        Formula::Atom(name) => name,
        Formula::Not(p) => seq!['¬'] + show(*p, 2),
        Formula::And(a, b) => binary_line(show(*a, 1), seq!['∧'], show(*b, 1), 1, precedence),
        Formula::Or(a, b) => binary_line(show(*a, 0), seq!['∨'], show(*b, 0), 0, precedence),
    }
}

/// The text to pretty-print for a binary operation: a block indented by
/// the width of the left parenthesis, which may break only after the
/// operator.
pub open spec fn binary_text(a: TextView, op: Seq<char>, b: TextView, level: nat, precedence: nat) -> TextView {
    let (left, right) = parens(precedence, level);
    block_text(
        left.len(),
        seq![
            string_text(left),
            a,
            string_text(seq![' ']),
            string_text(op),
            break_text(seq![' ']),
            b,
            string_text(right),
        ],
    )
}

/// The text to pretty-print for a formula in a context of binding `precedence`.
pub open spec fn text_of(f: Formula, precedence: nat) -> TextView
    decreases f,
{
    match f {
        Formula::Atom(name) => string_text(name),
        Formula::Not(p) => block_text(1, seq![string_text(seq!['¬']), text_of(*p, 2)]),
        Formula::And(a, b) => binary_text(text_of(*a, 1), seq!['∧'], text_of(*b, 1), 1, precedence),
        Formula::Or(a, b) => binary_text(text_of(*a, 0), seq!['∨'], text_of(*b, 0), 0, precedence),
    }
}

/// Pretty-printing a formula prints the same characters as writing it on
/// one line, where no line is broken.
pub proof fn lemma_text_flat(f: Formula, precedence: nat)
    ensures
        flat(text_of(f, precedence)) == show(f, precedence),
    decreases f,
{
    reveal_with_fuel(flat_items, 8);
    match f {
        Formula::Atom(_) => {},
        Formula::Not(p) => {
            lemma_text_flat(*p, 2);
            let items = seq![string_text(seq!['¬']), text_of(*p, 2)];
            lemma_flat_block(1, items);
            assert(items.drop_first().drop_first() =~= Seq::<TextView>::empty());
            assert(flat_items(items) =~= seq!['¬'] + show(*p, 2));
        },
        Formula::And(a, b) => {
            lemma_text_flat(*a, 1);
            lemma_text_flat(*b, 1);
            lemma_binary_flat(text_of(*a, 1), seq!['∧'], text_of(*b, 1), 1, precedence);
        },
        Formula::Or(a, b) => {
            lemma_text_flat(*a, 0);
            lemma_text_flat(*b, 0);
            lemma_binary_flat(text_of(*a, 0), seq!['∨'], text_of(*b, 0), 0, precedence);
        },
    }
}

proof fn lemma_binary_flat(a: TextView, op: Seq<char>, b: TextView, level: nat, precedence: nat)
    ensures
        flat(binary_text(a, op, b, level, precedence)) == binary_line(flat(a), op, flat(b), level, precedence),
{
    let (left, right) = parens(precedence, level);
    let items = seq![
        string_text(left),
        a,
        string_text(seq![' ']),
        string_text(op),
        break_text(seq![' ']),
        b,
        string_text(right),
    ];
    lemma_flat_block(left.len(), items);
    reveal_with_fuel(flat_items, 8);
    assert(items.drop_first().drop_first().drop_first().drop_first().drop_first().drop_first().drop_first()
        =~= Seq::<TextView>::empty());
    assert(flat_items(items) =~= binary_line(flat(a), op, flat(b), level, precedence));
}

/// The text of a proposition in a context of binding `precedence`.
pub fn term<'prop>(prop: &'prop Prop, precedence: usize) -> (t: Text<'prop>)
    requires
        show(prop@, precedence as nat).len() <= usize::MAX,
    ensures
        t@ == text_of(prop@, precedence as nat),
        wf_text(t@),
        well_indented(t@),
        t@.length <= show(prop@, precedence as nat).len(),
    decreases prop@.size(), 1nat,
{
    proof {
        reveal_strlit("¬");
        reveal_strlit("∧");
        reveal_strlit("∨");
        assert("∧"@ =~= seq!['∧']);
        assert("∨"@ =~= seq!['∨']);
    }
    match prop.term() {
        Term::Atom(name) => Text::string(name.as_str()),
        Term::Negation(p) => {
            // Wrap negated propositions in a block with indentation 1
            // to account for the "¬" character.
            let sign = Text::string("¬");
            let inner = term(p, 2);
            let ghost parts = seq![sign@, inner@];
            let items = [sign, inner];
            proof {
                assert(views(items@) =~= parts);
                assert("¬"@ =~= seq!['¬']);
                assert(parts =~= seq![string_text(seq!['¬']), text_of(p@, 2)]);
                reveal_with_fuel(sum_lengths, 3);
            }
            Text::block(1, items)
        },
        Term::Conjunction(a, b) => binary(a, "∧", b, 1, precedence),
        Term::Disjunction(a, b) => binary(a, "∨", b, 0, precedence),
    }
}

/// The text of the binary operation `op` on `a` and `b`, whose operator
/// binds at `level`, in a context of binding `precedence`.
pub fn binary<'prop>(a: &'prop Prop, op: &'prop str, b: &'prop Prop, level: usize, precedence: usize) -> (t: Text<'prop>)
    requires
        binary_line(show(a@, level as nat), op@, show(b@, level as nat), level as nat, precedence as nat).len()
            <= usize::MAX,
    ensures
        t@ == binary_text(text_of(a@, level as nat), op@, text_of(b@, level as nat), level as nat, precedence as nat),
        wf_text(t@),
        well_indented(t@),
        t@.length <= binary_line(show(a@, level as nat), op@, show(b@, level as nat), level as nat, precedence as nat).len(),
    decreases a@.size() + b@.size() + 1, 0nat,
{
    proof {
        reveal_strlit("");
        reveal_strlit("(");
        reveal_strlit(")");
        reveal_strlit(" ");
    }
    let (left, right) = if precedence <= level {
        ("", "")
    } else {
        ("(", ")")
    };
    proof {
        vstd::string::is_ascii_spec_bytes(left);
    }
    let ghost (l, r) = parens(precedence as nat, level as nat);
    assert(left@ == l && right@ == r);
    assert(left.len() == l.len());
    let first = Text::string(left);
    let arg_a = term(a, level);
    let space = Text::string(" ");
    let operator = Text::string(op);
    let brk = Text::string_or_break(" ");
    let arg_b = term(b, level);
    let last = Text::string(right);
    let ghost parts = seq![first@, arg_a@, space@, operator@, brk@, arg_b@, last@];
    // Wrap the binary operator in a block.
    let items = [
        first,
        arg_a,
        space,
        operator,
        // Permit line-breaks only between the binary operator
        // and the right argument.
        brk,
        arg_b,
        last,
    ];
    proof {
        assert(views(items@) =~= parts);
        assert(" "@ =~= seq![' ']);
        assert(parts =~= seq![
            string_text(l),
            text_of(a@, level as nat),
            string_text(seq![' ']),
            string_text(op@),
            break_text(seq![' ']),
            text_of(b@, level as nat),
            string_text(r),
        ]);
        reveal_with_fuel(sum_lengths, 8);
    }
    // Indent by the width of the optional left parenthesis,
    // so that the right argument aligns with the left one
    // if there is a link-break.
    Text::block(left.len(), items)
}

/// The width of the lines that propositions are printed into.
pub const LINE_WIDTH: usize = 60;

/// Lines joined by line feeds.
pub open spec fn join_lines(lines: Seq<Seq<char>>) -> Seq<char>
    decreases lines.len(),
{
    if lines.len() == 0 {
        Seq::empty()
    } else if lines.len() == 1 {
        lines[0]
    } else {
        join_lines(lines.drop_last()) + seq!['\n'] + lines.last()
    }
}

/// `lines` joined by line feeds.
fn join(lines: &Vec<String>) -> (s: String)
    ensures
        s@ == join_lines(lines@.map_values(|l: String| l@)),
{
    let ghost all = lines@.map_values(|l: String| l@);
    let mut s = String::new();
    let mut i: usize = 0;
    proof {
        reveal_strlit("\n");
        assert(all.take(0) =~= Seq::<Seq<char>>::empty());
    }
    while i < lines.len()
        invariant
            i <= lines.len(),
            all == lines@.map_values(|l: String| l@),
            s@ == join_lines(all.take(i as int)),
            "\n"@ == seq!['\n'],
        decreases lines.len() - i,
    {
        let ghost before = s@;
        if i > 0 {
            s.append("\n");
        }
        s.append(lines[i].as_str());
        i = i + 1;
        proof {
            assert(all.take(i as int).drop_last() =~= all.take(i - 1));
            if i == 1 {
                assert(before =~= Seq::<char>::empty());
                assert(s@ =~= all[0]);
            } else {
                assert(s@ =~= before + seq!['\n'] + all[i - 1]);
            }
        }
    }
    assert(all.take(i as int) =~= all);
    s
}

impl Prop {
    /// The proposition pretty-printed into lines of `LINE_WIDTH` characters,
    /// joined by line feeds.
    pub fn to_pretty_string(&self) -> (s: String)
        requires
            show(self@, 0).len() <= usize::MAX,
            spec_print(text_of(self@, 0), LINE_WIDTH as nat) is Some,
        ensures
            s@ == join_lines(spec_print(text_of(self@, 0), LINE_WIDTH as nat)->0),
            text_of(self@, 0).length <= LINE_WIDTH ==> s@ == show(self@, 0),
    {
        let text = term(self, 0);
        proof {
            if text@.length <= LINE_WIDTH {
                lemma_print_fits(text@, LINE_WIDTH as nat);
                lemma_text_flat(self@, 0);
                assert(join_lines(seq![show(self@, 0)]) == show(self@, 0));
            }
        }
        let lines = pretty::print(text, LINE_WIDTH);
        join(&lines)
    }

    /// The proposition pretty-printed as `to_pretty_string` prints it, where
    /// it can be printed: `None` where it is longer than a `usize` holds, or
    /// where a block would be indented past the end of its line.
    pub fn try_to_pretty_string(&self) -> (s: Option<String>)
        ensures
            match s {
                Some(s) => {
                    &&& show(self@, 0).len() <= usize::MAX
                    &&& spec_print(text_of(self@, 0), LINE_WIDTH as nat) is Some
                    &&& s@ == join_lines(spec_print(text_of(self@, 0), LINE_WIDTH as nat)->0)
                },
                None => show(self@, 0).len() > usize::MAX || spec_print(text_of(self@, 0), LINE_WIDTH as nat) is None,
            },
    {
        match plain::length(self, 0) {
            None => None,
            Some(_) => {
                let text = term(self, 0);
                if pretty::try_print(&text, LINE_WIDTH).is_some() {
                    Some(self.to_pretty_string())
                } else {
                    None
                }
            },
        }
    }

    /// The proposition written on one line.
    pub fn to_string(&self) -> (s: String)
        ensures
            s@ == show(self@, 0),
    {
        let mut s = String::new();
        plain::term(self, 0, &mut s);
        s
    }
}

} // verus!
