//! Tautology checking by conversion to conjunctive normal form.

use vstd::prelude::*;

use crate::cnf::{cnf_of, lemma_cnf_eval, lemma_cnf_idempotent, lemma_cnf_is_cnf};
use crate::formula::Formula;
use crate::nnf::{lemma_nnf_eval, lemma_nnf_idempotent, lemma_nnf_is_nnf, nnf_positive};
use crate::types::{Prop, Term};

verus! {

/// The decision that the checker makes on a formula in conjunctive normal
/// form: every clause contains an atom both unnegated and negated.
pub open spec fn cnf_tautology(f: Formula) -> bool
    decreases f,
{
    match f {
        Formula::And(a, b) => cnf_tautology(*a) && cnf_tautology(*b),
        _ => has_complementary_literals(f),
    }
}

/// Some atom occurs in the clause both unnegated and negated.
pub open spec fn has_complementary_literals(clause: Formula) -> bool {
    exists|name: Seq<char>|
        #![trigger clause.positive_atoms().contains(name)]
        clause.positive_atoms().contains(name) && clause.negative_atoms().contains(name)
}

/// The names of the strings in a sequence of string references.
pub open spec fn names(v: Seq<&String>) -> Set<Seq<char>> {
    Set::new(|n: Seq<char>| exists|i: int| 0 <= i < v.len() && #[trigger] v[i]@ == n)
}

/// Pushing a string onto a sequence adds its name to the names.
pub proof fn lemma_names_push(v: Seq<&String>, s: &String)
    ensures
        names(v.push(s)) == names(v).insert(s@),
{
    assert forall|n: Seq<char>| names(v.push(s)).contains(n) <==> names(v).insert(s@).contains(n) by {
        if names(v.push(s)).contains(n) {
            let i = choose|i: int| 0 <= i < v.push(s).len() && #[trigger] v.push(s)[i]@ == n;
            if i < v.len() {
                assert(v[i]@ == n);
            }
        }
        if names(v).contains(n) {
            let i = choose|i: int| 0 <= i < v.len() && #[trigger] v[i]@ == n;
            assert(v.push(s)[i]@ == n);
        }
        if n == s@ {
            assert(v.push(s)[v.len() as int]@ == n);
        }
    }
    assert(names(v.push(s)) =~= names(v).insert(s@));
}

/// Every formula in conjunctive normal form is in negation normal form.
proof fn lemma_cnf_is_nnf(f: Formula)
    requires
        f.is_cnf(),
    ensures
        f.is_nnf(),
    decreases f,
{
    match f {
        Formula::And(a, b) => {
            lemma_cnf_is_nnf(*a);
            lemma_cnf_is_nnf(*b);
        },
        _ => lemma_clause_is_nnf(f),
    }
}

proof fn lemma_clause_is_nnf(f: Formula)
    requires
        f.is_clause(),
    ensures
        f.is_nnf(),
    decreases f,
{
    match f {
        Formula::Or(a, b) => {
            lemma_clause_is_nnf(*a);
            lemma_clause_is_nnf(*b);
        },
        _ => {},
    }
}

/// A clause is true under a valuation that makes one of its unnegated atoms true.
proof fn lemma_clause_true_by_positive(c: Formula, name: Seq<char>, true_atoms: Set<Seq<char>>)
    requires
        c.positive_atoms().contains(name),
        true_atoms.contains(name),
    ensures
        c.eval(true_atoms),
    decreases c,
{
    match c {
        Formula::Or(a, b) => {
            if a.positive_atoms().contains(name) {
                lemma_clause_true_by_positive(*a, name, true_atoms);
            } else {
                lemma_clause_true_by_positive(*b, name, true_atoms);
            }
        },
        _ => {},
    }
}

/// A clause is true under a valuation that makes one of its negated atoms false.
proof fn lemma_clause_true_by_negative(c: Formula, name: Seq<char>, true_atoms: Set<Seq<char>>)
    requires
        c.negative_atoms().contains(name),
        !true_atoms.contains(name),
    ensures
        c.eval(true_atoms),
    decreases c,
{
    match c {
        Formula::Or(a, b) => {
            if a.negative_atoms().contains(name) {
                lemma_clause_true_by_negative(*a, name, true_atoms);
                assert(a.eval(true_atoms));
            } else {
                lemma_clause_true_by_negative(*b, name, true_atoms);
                assert(b.eval(true_atoms));
            }
            assert(c.eval(true_atoms));
        },
        Formula::Not(p) => {
            if let Formula::Atom(n) = *p {
                assert(c.negative_atoms() == set![n]);
                assert(n == name);
                assert((*p).eval(true_atoms) == true_atoms.contains(n));
                assert(c.eval(true_atoms) == !(*p).eval(true_atoms));
            } else {
                assert(c.negative_atoms() == Set::<Seq<char>>::empty());
                assert(false);
            }
        },
        Formula::Atom(_) => {
            assert(false);
        },
        Formula::And(_, _) => {
            assert(false);
        },
    }
}

/// A clause is false under a valuation that makes all its unnegated atoms
/// false and all its negated atoms true.
proof fn lemma_clause_false(c: Formula, true_atoms: Set<Seq<char>>)
    requires
        c.is_clause(),
        forall|n: Seq<char>| c.positive_atoms().contains(n) ==> !true_atoms.contains(n),
        forall|n: Seq<char>| c.negative_atoms().contains(n) ==> true_atoms.contains(n),
    ensures
        !c.eval(true_atoms),
    decreases c,
{
    match c {
        Formula::Or(a, b) => {
            lemma_clause_false(*a, true_atoms);
            lemma_clause_false(*b, true_atoms);
        },
        Formula::Atom(name) => {
            assert(c.positive_atoms().contains(name));
            assert(c.eval(true_atoms) == true_atoms.contains(name));
        },
        Formula::Not(p) => {
            if let Formula::Atom(name) = *p {
                assert(c.negative_atoms() == set![name]);
                assert(c.negative_atoms().contains(name));
                assert((*p).eval(true_atoms) == true_atoms.contains(name));
            }
        },
        _ => {},
    }
}

/// A clause is valid exactly when it contains some atom both unnegated and
/// negated.
pub proof fn lemma_clause_valid(c: Formula)
    requires
        c.is_clause(),
    ensures
        c.is_valid() <==> has_complementary_literals(c),
{
    if has_complementary_literals(c) {
        let name = choose|name: Seq<char>|
            c.positive_atoms().contains(name) && c.negative_atoms().contains(name);
        assert forall|true_atoms: Set<Seq<char>>| #[trigger] c.eval(true_atoms) by {
            if true_atoms.contains(name) {
                lemma_clause_true_by_positive(c, name, true_atoms);
            } else {
                lemma_clause_true_by_negative(c, name, true_atoms);
            }
        }
    } else {
        let falsifying = c.negative_atoms();
        assert forall|n: Seq<char>| c.positive_atoms().contains(n) implies !falsifying.contains(n) by {
            if falsifying.contains(n) {
                assert(has_complementary_literals(c));
            }
        }
        lemma_clause_false(c, falsifying);
    }
}

/// The checker's decision on a formula in conjunctive normal form is
/// exactly validity: it is true if and only if the formula is true under
/// every valuation.
pub proof fn lemma_cnf_tautology_iff_valid(f: Formula)
    requires
        f.is_cnf(),
    ensures
        cnf_tautology(f) <==> f.is_valid(),
    decreases f,
{
    match f {
        Formula::And(a, b) => {
            lemma_cnf_tautology_iff_valid(*a);
            lemma_cnf_tautology_iff_valid(*b);
            if f.is_valid() {
                assert forall|v: Set<Seq<char>>| #[trigger] a.eval(v) by {
                    assert(f.eval(v));
                }
                assert forall|v: Set<Seq<char>>| #[trigger] b.eval(v) by {
                    assert(f.eval(v));
                }
            }
            if a.is_valid() && b.is_valid() {
                assert forall|v: Set<Seq<char>>| #[trigger] f.eval(v) by {
                    assert(a.eval(v) && b.eval(v));
                }
            }
        },
        _ => lemma_clause_valid(f),
    }
}

/// A proposition is a tautology exactly when its conjunctive normal form,
/// computed from its negation normal form, passes the checker.
pub proof fn lemma_tautology_of_normal_form(f: Formula)
    ensures
        cnf_of(nnf_positive(f)).is_cnf(),
        cnf_tautology(cnf_of(nnf_positive(f))) <==> f.is_valid(),
{
    let g = cnf_of(nnf_positive(f));
    lemma_nnf_is_nnf(f);
    lemma_cnf_is_cnf(nnf_positive(f));
    lemma_cnf_tautology_iff_valid(g);
    assert forall|v: Set<Seq<char>>| g.eval(v) == f.eval(v) by {
        lemma_cnf_eval(nnf_positive(f), v);
        lemma_nnf_eval(f, v);
    }
    if g.is_valid() {
        assert forall|v: Set<Seq<char>>| #[trigger] f.eval(v) by {
            assert(g.eval(v));
        }
    }
    if f.is_valid() {
        assert forall|v: Set<Seq<char>>| #[trigger] g.eval(v) by {
            assert(f.eval(v));
        }
    }
}

impl Prop {
    /// Is the proposition true under every assignment of truth values to
    /// its atoms?
    pub fn is_tautology(&self) -> (b: bool)
        ensures
            b == self@.is_valid(),
        decreases cnf_of(nnf_positive(self@)).size(), 1nat,
    {
        proof {
            lemma_tautology_of_normal_form(self@);
        }
        is_tautology(&self.nnf().cnf())
    }
}

fn is_tautology(prop: &Prop) -> (b: bool)
    requires
        prop@.is_cnf(),
    ensures
        b == cnf_tautology(prop@),
        b == prop@.is_valid(),
    decreases prop@.size(), 0nat,
{
    proof {
        lemma_cnf_tautology_iff_valid(prop@);
    }
    match prop.term() {
        Term::Conjunction(a, b) => {
            proof {
                lemma_cnf_is_nnf(a@);
                lemma_nnf_idempotent(a@);
                lemma_cnf_idempotent(a@);
                lemma_cnf_is_nnf(b@);
                lemma_nnf_idempotent(b@);
                lemma_cnf_idempotent(b@);
                lemma_cnf_tautology_iff_valid(a@);
                lemma_cnf_tautology_iff_valid(b@);
            }
            a.is_tautology() && b.is_tautology()
        },
        _ => {
            let mut positive: Vec<&String> = Vec::new();
            let mut negative: Vec<&String> = Vec::new();
            proof {
                assert(names(positive@) =~= Set::empty());
                assert(names(negative@) =~= Set::empty());
            }
            collect_atoms(prop, &mut positive, &mut negative);
            assert(names(positive@) =~= prop@.positive_atoms());
            assert(names(negative@) =~= prop@.negative_atoms());
            !is_disjoint(&positive, &negative)
        },
    }
}

fn collect_atoms<'a>(prop: &'a Prop, positive: &mut Vec<&'a String>, negative: &mut Vec<&'a String>)
    requires
        prop@.is_clause(),
    ensures
        names(final(positive)@) == names(old(positive)@).union(prop@.positive_atoms()),
        names(final(negative)@) == names(old(negative)@).union(prop@.negative_atoms()),
    decreases prop@.size(),
{
    match prop.term() {
        Term::Atom(name) => {
            proof {
                lemma_names_push(positive@, name);
            }
            positive.push(name);
            assert(names(positive@) =~= names(old(positive)@).union(prop@.positive_atoms()));
            assert(names(negative@) =~= names(old(negative)@).union(prop@.negative_atoms()));
        },
        Term::Negation(p) => {
            if let Term::Atom(name) = p.term() {
                proof {
                    lemma_names_push(negative@, name);
                }
                negative.push(name);
            }
            assert(names(positive@) =~= names(old(positive)@).union(prop@.positive_atoms()));
            assert(names(negative@) =~= names(old(negative)@).union(prop@.negative_atoms()));
        },
        Term::Disjunction(a, b) => {
            collect_atoms(a, positive, negative);
            collect_atoms(b, positive, negative);
            assert(names(positive@) =~= names(old(positive)@).union(prop@.positive_atoms()));
            assert(names(negative@) =~= names(old(negative)@).union(prop@.negative_atoms()));
        },
        Term::Conjunction(_, _) => {
            // Not a clause: excluded by the precondition.
            assert(false);
        },
    }
}

/// Do the two collections of names have no name in common?
fn is_disjoint(a: &Vec<&String>, b: &Vec<&String>) -> (r: bool)
    ensures
        r == !(exists|n: Seq<char>| #[trigger] names(a@).contains(n) && names(b@).contains(n)),
{
    let mut i: usize = 0;
    while i < a.len()
        invariant
            0 <= i <= a.len(),
            forall|k: int, j: int| 0 <= k < i && 0 <= j < b.len() ==> a@[k]@ != b@[j]@,
        decreases a.len() - i,
    {
        let mut j: usize = 0;
        while j < b.len()
            invariant
                0 <= i < a.len(),
                0 <= j <= b.len(),
                forall|k: int, l: int| 0 <= k < i && 0 <= l < b.len() ==> a@[k]@ != b@[l]@,
                forall|l: int| 0 <= l < j ==> a@[i as int]@ != b@[l]@,
            decreases b.len() - j,
        {
            if *a[i] == *b[j] {
                assert(names(a@).contains(a@[i as int]@));
                assert(names(b@).contains(b@[j as int]@));
                return false;
            }
            j = j + 1;
        }
        i = i + 1;
    }
    proof {
        assert forall|n: Seq<char>| !(#[trigger] names(a@).contains(n) && names(b@).contains(n)) by {
            if names(a@).contains(n) && names(b@).contains(n) {
                let k = choose|k: int| 0 <= k < a@.len() && #[trigger] a@[k]@ == n;
                let l = choose|l: int| 0 <= l < b@.len() && #[trigger] b@[l]@ == n;
                assert(a@[k]@ != b@[l]@);
            }
        }
    }
    true
}

} // verus!
