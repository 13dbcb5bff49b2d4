//! Negation normal form.

use vstd::prelude::*;

use crate::formula::Formula;
use crate::types::{Prop, Term};

verus! {

/// The negation normal form of `f`: negations are pushed inwards with
/// De Morgan's laws and double negations are removed.
pub open spec fn nnf_positive(f: Formula) -> Formula
    decreases f, 0nat,
{
    match f {
        Formula::Atom(_) => f,
        Formula::Not(p) => nnf_negative(*p),
        Formula::And(a, b) => Formula::And(Box::new(nnf_positive(*a)), Box::new(nnf_positive(*b))),
        Formula::Or(a, b) => Formula::Or(Box::new(nnf_positive(*a)), Box::new(nnf_positive(*b))),
    }
}

/// The negation normal form of the negation of `f`.
pub open spec fn nnf_negative(f: Formula) -> Formula
    decreases f, 1nat,
{
    match f {
        Formula::Atom(_) => Formula::Not(Box::new(f)),
        Formula::Not(p) => nnf_positive(*p),
        Formula::And(a, b) => Formula::Or(Box::new(nnf_negative(*a)), Box::new(nnf_negative(*b))),
        Formula::Or(a, b) => Formula::And(Box::new(nnf_negative(*a)), Box::new(nnf_negative(*b))),
    }
}

/// The negation normal form keeps the truth value under every valuation,
/// and the negated form inverts it.
pub proof fn lemma_nnf_eval(f: Formula, true_atoms: Set<Seq<char>>)
    ensures
        nnf_positive(f).eval(true_atoms) == f.eval(true_atoms),
        nnf_negative(f).eval(true_atoms) == !f.eval(true_atoms),
    decreases f,
{
    match f {
        Formula::Atom(_) => {},
        Formula::Not(p) => lemma_nnf_eval(*p, true_atoms),
        Formula::And(a, b) => {
            lemma_nnf_eval(*a, true_atoms);
            lemma_nnf_eval(*b, true_atoms);
        },
        Formula::Or(a, b) => {
            lemma_nnf_eval(*a, true_atoms);
            lemma_nnf_eval(*b, true_atoms);
        },
    }
}

/// The result of the transformation is in negation normal form.
pub proof fn lemma_nnf_is_nnf(f: Formula)
    ensures
        nnf_positive(f).is_nnf(),
        nnf_negative(f).is_nnf(),
    decreases f,
{
    match f {
        Formula::Atom(_) => {},
        Formula::Not(p) => lemma_nnf_is_nnf(*p),
        Formula::And(a, b) => {
            lemma_nnf_is_nnf(*a);
            lemma_nnf_is_nnf(*b);
        },
        Formula::Or(a, b) => {
            lemma_nnf_is_nnf(*a);
            lemma_nnf_is_nnf(*b);
        },
    }
}

/// A formula that is already in negation normal form is left unchanged.
pub proof fn lemma_nnf_idempotent(f: Formula)
    requires
        f.is_nnf(),
    ensures
        nnf_positive(f) == f,
    decreases f,
{
    match f {
        Formula::Atom(_) => {},
        Formula::Not(p) => {
            assert(nnf_negative(*p) == Formula::Not(Box::new(*p)));
        },
        Formula::And(a, b) => {
            lemma_nnf_idempotent(*a);
            lemma_nnf_idempotent(*b);
        },
        Formula::Or(a, b) => {
            lemma_nnf_idempotent(*a);
            lemma_nnf_idempotent(*b);
        },
    }
}

impl Prop {
    /// Calculate the negated normal form of a proposition.
    pub fn nnf(&self) -> (p: Prop)
        ensures
            p@ == nnf_positive(self@),
    {
        positive(self)
    }
}

/// The negation normal form of `prop`.
pub fn positive(prop: &Prop) -> (p: Prop)
    ensures
        p@ == nnf_positive(prop@),
    decreases prop@.size(), 0nat,
{
    match prop.term() {
        Term::Atom(_) => prop.clone(),
        Term::Negation(prop) => negative(prop),
        Term::Conjunction(a, b) => positive(a).and(&positive(b)),
        Term::Disjunction(a, b) => positive(a).or(&positive(b)),
    }
}

/// The negation normal form of the negation of `prop`.
fn negative(prop: &Prop) -> (p: Prop)
    ensures
        p@ == nnf_negative(prop@),
    decreases prop@.size(), 1nat,
{
    match prop.term() {
        Term::Atom(_) => prop.not(),
        Term::Negation(prop) => positive(prop),
        Term::Conjunction(a, b) => negative(a).or(&negative(b)),
        Term::Disjunction(a, b) => negative(a).and(&negative(b)),
    }
}

} // verus!
