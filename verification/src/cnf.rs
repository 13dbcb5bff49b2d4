//! Conjunctive normal form.

use vstd::prelude::*;

use crate::formula::Formula;
use crate::types::{Prop, Term};

verus! {

/// The conjunctive normal form of a formula in negation normal form:
/// conjunctions are kept and disjunctions are distributed over them.
pub open spec fn cnf_of(f: Formula) -> Formula
    decreases f,
{
    match f {
        Formula::And(a, b) => Formula::And(Box::new(cnf_of(*a)), Box::new(cnf_of(*b))),
        Formula::Or(a, b) => distribute_of(cnf_of(*a), cnf_of(*b)),
        _ => f,
    }
}

/// The disjunction `p ∨ q` with the disjunction distributed into the
/// conjunctions of `q` first, then into those of `p`:
/// `p ∨ (q ∧ r)` becomes `(p ∨ q) ∧ (p ∨ r)` and
/// `(p ∧ r) ∨ q` becomes `(p ∨ q) ∧ (r ∨ q)`.
pub open spec fn distribute_of(p: Formula, q: Formula) -> Formula
    decreases p.size() + q.size(),
{
    match q {
        Formula::And(q1, q2) => Formula::And(
            Box::new(distribute_of(p, *q1)),
            Box::new(distribute_of(p, *q2)),
        ),
        _ => match p {
            Formula::And(p1, p2) => Formula::And(
                Box::new(distribute_of(*p1, q)),
                Box::new(distribute_of(*p2, q)),
            ),
            _ => Formula::Or(Box::new(p), Box::new(q)),
        },
    }
}

/// Distribution keeps the truth value of the disjunction.
pub proof fn lemma_distribute_eval(p: Formula, q: Formula, true_atoms: Set<Seq<char>>)
    ensures
        distribute_of(p, q).eval(true_atoms) == (p.eval(true_atoms) || q.eval(true_atoms)),
    decreases p.size() + q.size(),
{
    match q {
        Formula::And(q1, q2) => {
            lemma_distribute_eval(p, *q1, true_atoms);
            lemma_distribute_eval(p, *q2, true_atoms);
        },
        _ => match p {
            Formula::And(p1, p2) => {
                lemma_distribute_eval(*p1, q, true_atoms);
                lemma_distribute_eval(*p2, q, true_atoms);
            },
            _ => {},
        },
    }
}

/// Distributing one formula in conjunctive normal form into another gives
/// a formula in conjunctive normal form.
pub proof fn lemma_distribute_is_cnf(p: Formula, q: Formula)
    requires
        p.is_cnf(),
        q.is_cnf(),
    ensures
        distribute_of(p, q).is_cnf(),
    decreases p.size() + q.size(),
{
    match q {
        Formula::And(q1, q2) => {
            lemma_distribute_is_cnf(p, *q1);
            lemma_distribute_is_cnf(p, *q2);
        },
        _ => match p {
            Formula::And(p1, p2) => {
                lemma_distribute_is_cnf(*p1, q);
                lemma_distribute_is_cnf(*p2, q);
            },
            _ => {},
        },
    }
}

/// The conjunctive normal form keeps the truth value under every valuation.
pub proof fn lemma_cnf_eval(f: Formula, true_atoms: Set<Seq<char>>)
    ensures
        cnf_of(f).eval(true_atoms) == f.eval(true_atoms),
    decreases f,
{
    match f {
        Formula::And(a, b) => {
            lemma_cnf_eval(*a, true_atoms);
            lemma_cnf_eval(*b, true_atoms);
        },
        Formula::Or(a, b) => {
            lemma_cnf_eval(*a, true_atoms);
            lemma_cnf_eval(*b, true_atoms);
            lemma_distribute_eval(cnf_of(*a), cnf_of(*b), true_atoms);
        },
        _ => {},
    }
}

/// A formula in negation normal form is brought into conjunctive normal form.
pub proof fn lemma_cnf_is_cnf(f: Formula)
    requires
        f.is_nnf(),
    ensures
        cnf_of(f).is_cnf(),
    decreases f,
{
    match f {
        Formula::And(a, b) => {
            lemma_cnf_is_cnf(*a);
            lemma_cnf_is_cnf(*b);
        },
        Formula::Or(a, b) => {
            lemma_cnf_is_cnf(*a);
            lemma_cnf_is_cnf(*b);
            lemma_distribute_is_cnf(cnf_of(*a), cnf_of(*b));
        },
        _ => {},
    }
}

/// A clause is left unchanged by distribution.
proof fn lemma_clause_unchanged(f: Formula)
    requires
        f.is_clause(),
    ensures
        cnf_of(f) == f,
    decreases f,
{
    match f {
        Formula::Or(a, b) => {
            lemma_clause_unchanged(*a);
            lemma_clause_unchanged(*b);
            reveal_with_fuel(Formula::is_clause, 2);
        },
        _ => {},
    }
}

/// A formula that is already in conjunctive normal form is left unchanged.
pub proof fn lemma_cnf_idempotent(f: Formula)
    requires
        f.is_cnf(),
    ensures
        cnf_of(f) == f,
    decreases f,
{
    match f {
        Formula::And(a, b) => {
            lemma_cnf_idempotent(*a);
            lemma_cnf_idempotent(*b);
        },
        _ => lemma_clause_unchanged(f),
    }
}

impl Prop {
    /// Calculate the conjunctive normal form of a proposition.
    /// The proposition must be in negated normal form.
    pub fn cnf(&self) -> (p: Prop)
        ensures
            p@ == cnf_of(self@),
        decreases self@.size(),
    {
        match self.term() {
            Term::Conjunction(a, b) => a.cnf().and(&b.cnf()),
            Term::Disjunction(a, b) => distribute(&a.cnf(), &b.cnf()),
            _ => self.clone(),
        }
    }
}

/// Distribute disjunction
/// p ∨ (q ∧ r) => (p ∨ q) ∧ (p ∨ r)
/// (p ∧ r) ∨ q => (p ∨ q) ∧ (r ∨ q)
pub fn distribute(p: &Prop, q: &Prop) -> (r: Prop)
    ensures
        r@ == distribute_of(p@, q@),
    decreases p@.size() + q@.size(),
{
    match (p.term(), q.term()) {
        (_p, Term::Conjunction(q, r)) => distribute(p, q).and(&distribute(p, r)),
        (Term::Conjunction(p, r), _q) => distribute(p, q).and(&distribute(r, q)),
        _ => p.or(q),
    }
}

} // verus!
