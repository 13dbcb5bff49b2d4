//! Propositions: a directed acyclic graph of shared terms.

use std::rc::Rc;
use vstd::prelude::*;

use crate::formula::Formula;

verus! {

/// Propositions.
pub struct Prop {
    prop: Rc<Term>,  // Directed acyclic graph of terms.
}

/// The shape of a proposition.
pub enum Term {
    Atom(String),
    Negation(Prop),
    Conjunction(Prop, Prop),
    Disjunction(Prop, Prop),
}

impl View for Prop {
    type V = Formula;

    closed spec fn view(&self) -> Formula
        decreases self, 1nat,
    {
        (*self.prop).view()
    }
}

impl View for Term {
    type V = Formula;

    open spec fn view(&self) -> Formula
        decreases self, 0nat,
    {
        match self {
            Term::Atom(name) => Formula::Atom(name@),
            Term::Negation(p) => Formula::Not(Box::new(p.view())),
            Term::Conjunction(a, b) => Formula::And(Box::new(a.view()), Box::new(b.view())),
            Term::Disjunction(a, b) => Formula::Or(Box::new(a.view()), Box::new(b.view())),
        }
    }
}

/// `Rc::clone`: a second handle on the same shared term.
#[verifier::external_body]
fn share(rc: &Rc<Term>) -> (r: Rc<Term>)
    ensures
        r == *rc,
{
    Rc::clone(rc)
}

impl Clone for Prop {
    fn clone(&self) -> (p: Self)
        ensures
            p@ == self@,
    {
        let Prop { prop } = self;
        let prop = share(prop);
        Prop { prop }
    }
}

impl Prop {
    /// Create an atom from `name`.
    pub fn atom(name: &str) -> (p: Prop)
        ensures
            p@ == Formula::Atom(name@),
    {
        Prop::new(Term::Atom(name.to_owned()))
    }

    /// Negate a proposition.
    pub fn not(&self) -> (p: Prop)
        ensures
            p@ == Formula::Not(Box::new(self@)),
    {
        Prop::new(Term::Negation(self.clone()))
    }

    /// Join a proposition with another one `p` in a conjuction.
    pub fn and(&self, p: &Prop) -> (q: Prop)
        ensures
            q@ == Formula::And(Box::new(self@), Box::new(p@)),
    {
        Prop::new(Term::Conjunction(self.clone(), p.clone()))
    }

    /// Join a proposition with another one `p` in a disjunction.
    pub fn or(&self, p: &Prop) -> (q: Prop)
        ensures
            q@ == Formula::Or(Box::new(self@), Box::new(p@)),
    {
        Prop::new(Term::Disjunction(self.clone(), p.clone()))
    }

    /// Form an implication from this proposition to the conclusion `p`.
    pub fn implies(&self, p: &Prop) -> (q: Prop)
        ensures
            q@ == Formula::Or(Box::new(Formula::Not(Box::new(self@))), Box::new(p@)),
    {
        self.not().or(p)
    }

    fn new(p: Term) -> (q: Prop)
        ensures
            q@ == p@,
    {
        Prop { prop: Rc::new(p) }
    }

    /// The term at the root of the proposition.
    pub fn term(&self) -> (t: &Term)
        ensures
            t@ == self@,
    {
        let Prop { prop } = self;
        &**prop
    }
}

} // verus!
