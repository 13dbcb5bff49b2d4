//! Writing propositions on one line, without a width to fit into.

use vstd::prelude::*;
use vstd::string::{StrSliceExecFns, StringExecFns};

use super::{binary_line, show};
use crate::types::{Prop, Term};

verus! {

/// Write `prop`, in a context of binding `precedence`, at the end of `out`.
pub fn term(prop: &Prop, precedence: usize, out: &mut String)
    ensures
        final(out)@ == old(out)@ + show(prop@, precedence as nat),
    decreases prop@.size(), 1nat,
{
    proof {
        reveal_strlit("¬");
        reveal_strlit("∧");
        reveal_strlit("∨");
        assert("¬"@ =~= seq!['¬']);
        assert("∧"@ =~= seq!['∧']);
        assert("∨"@ =~= seq!['∨']);
    }
    match prop.term() {
        Term::Atom(name) => out.append(name.as_str()),
        Term::Negation(p) => {
            let ghost before = out@;
            out.append("¬");
            term(p, 2, out);
            assert(out@ =~= before + show(prop@, precedence as nat));
        },
        Term::Conjunction(a, b) => binary(a, "∧", b, 1, precedence, out),
        Term::Disjunction(a, b) => binary(a, "∨", b, 0, precedence, out),
    }
}

/// Write the binary operation `op` on `a` and `b`, whose operator binds
/// at `level`, in a context of binding `precedence`, at the end of `out`.
pub fn binary(a: &Prop, op: &str, b: &Prop, level: usize, precedence: usize, out: &mut String)
    ensures
        final(out)@ == old(out)@ + binary_line(
            show(a@, level as nat),
            op@,
            show(b@, level as nat),
            level as nat,
            precedence as nat,
        ),
    decreases a@.size() + b@.size() + 1, 0nat,
{
    proof {
        reveal_strlit("");
        reveal_strlit("(");
        reveal_strlit(")");
        reveal_strlit(" ");
        assert(""@ =~= Seq::<char>::empty());
        assert("("@ =~= seq!['(']);
        assert(")"@ =~= seq![')']);
        assert(" "@ =~= seq![' ']);
    }
    let ghost before = out@;
    let (left, right) = if precedence <= level {
        ("", "")
    } else {
        ("(", ")")
    };
    out.append(left);
    term(a, level, out);
    out.append(" ");
    out.append(op);
    out.append(" ");
    term(b, level, out);
    out.append(right);
    assert(out@ =~= before + binary_line(
        show(a@, level as nat),
        op@,
        show(b@, level as nat),
        level as nat,
        precedence as nat,
    ));
}

/// The number of characters of `prop` written on one line in a context
/// of binding `precedence`: `None` where that is more than a `usize` holds.
pub fn length(prop: &Prop, precedence: usize) -> (n: Option<usize>)
    ensures
        match n {
            Some(n) => n as nat == show(prop@, precedence as nat).len(),
            None => show(prop@, precedence as nat).len() > usize::MAX,
        },
    decreases prop@.size(), 1nat,
{
    match prop.term() {
        Term::Atom(name) => Some(name.as_str().unicode_len()),
        Term::Negation(p) => match length(p, 2) {
            Some(n) => n.checked_add(1),
            None => None,
        },
        Term::Conjunction(a, b) => {
            let n = binary_length(a, b, 1, precedence);
            assert(show(prop@, precedence as nat).len()
                == binary_line(show(a@, 1), seq!['∧'], show(b@, 1), 1, precedence as nat).len());
            n
        },
        Term::Disjunction(a, b) => {
            let n = binary_length(a, b, 0, precedence);
            assert(show(prop@, precedence as nat).len()
                == binary_line(show(a@, 0), seq!['∨'], show(b@, 0), 0, precedence as nat).len());
            n
        },
    }
}

/// The number of characters of a binary operation on `a` and `b` with a
/// one-character operator binding at `level`, written on one line in a
/// context of binding `precedence`: `None` where that is more than a
/// `usize` holds.
fn binary_length(a: &Prop, b: &Prop, level: usize, precedence: usize) -> (n: Option<usize>)
    ensures
        forall|op: Seq<char>| op.len() == 1 ==> match n {
            Some(n) => n as nat == #[trigger] binary_line(
                show(a@, level as nat),
                op,
                show(b@, level as nat),
                level as nat,
                precedence as nat,
            ).len(),
            None => binary_line(show(a@, level as nat), op, show(b@, level as nat), level as nat, precedence as nat).len()
                > usize::MAX,
        },
    decreases a@.size() + b@.size() + 1, 0nat,
{
    let parentheses: usize = if precedence <= level {
        0
    } else {
        2
    };
    let la = match length(a, level) {
        Some(n) => n,
        None => return None,
    };
    let lb = match length(b, level) {
        Some(n) => n,
        None => return None,
    };
    match la.checked_add(lb) {
        Some(n) => match n.checked_add(3) {
            Some(n) => n.checked_add(parentheses),
            None => None,
        },
        None => None,
    }
}

} // verus!
