//! The mathematical model of propositions: formulas over named atoms,
//! their truth value under a valuation, and the normal forms that the
//! tautology checker works with.

use vstd::prelude::*;

verus! {

/// A propositional formula. Atoms are named by character sequences.
pub enum Formula {
    Atom(Seq<char>),
    Not(Box<Formula>),
    And(Box<Formula>, Box<Formula>),
    Or(Box<Formula>, Box<Formula>),
}

impl Formula {
    /// The number of connectives and atoms in the formula.
    pub open spec fn size(self) -> nat
        decreases self,
    {
        match self {
            Formula::Atom(_) => 1,
            Formula::Not(p) => 1 + p.size(),
            Formula::And(a, b) => 1 + a.size() + b.size(),
            Formula::Or(a, b) => 1 + a.size() + b.size(),
        }
    }

    /// The truth value of the formula when exactly the atoms named in
    /// `true_atoms` are true.
    pub open spec fn eval(self, true_atoms: Set<Seq<char>>) -> bool
        decreases self,
    {
        match self {
            Formula::Atom(name) => true_atoms.contains(name),
            Formula::Not(p) => !p.eval(true_atoms),
            Formula::And(a, b) => a.eval(true_atoms) && b.eval(true_atoms),
            Formula::Or(a, b) => a.eval(true_atoms) || b.eval(true_atoms),
        }
    }

    /// The formula is true under every valuation.
    pub open spec fn is_valid(self) -> bool {
        forall|true_atoms: Set<Seq<char>>| #[trigger] self.eval(true_atoms)
    }

    /// An atom or a negated atom.
    pub open spec fn is_literal(self) -> bool {
        match self {
            Formula::Atom(_) => true,
            Formula::Not(p) => *p is Atom,
            _ => false,
        }
    }

    /// Negation normal form: negations are applied to atoms only.
    pub open spec fn is_nnf(self) -> bool
        decreases self,
    {
        match self {
            Formula::Atom(_) => true,
            Formula::Not(p) => *p is Atom,
            Formula::And(a, b) => a.is_nnf() && b.is_nnf(),
            Formula::Or(a, b) => a.is_nnf() && b.is_nnf(),
        }
    }

    /// A disjunction of literals.
    pub open spec fn is_clause(self) -> bool
        decreases self,
    {
        match self {
            Formula::Or(a, b) => a.is_clause() && b.is_clause(),
            _ => self.is_literal(),
        }
    }

    /// Conjunctive normal form: a conjunction of clauses.
    pub open spec fn is_cnf(self) -> bool
        decreases self,
    {
        match self {
            Formula::And(a, b) => a.is_cnf() && b.is_cnf(),
            _ => self.is_clause(),
        }
    }

    /// The names of the atoms that occur unnegated as literals of a clause.
    pub open spec fn positive_atoms(self) -> Set<Seq<char>>
        decreases self,
    {
        match self {
            Formula::Atom(name) => set![name],
            Formula::Or(a, b) => a.positive_atoms().union(b.positive_atoms()),
            _ => Set::empty(),
        }
    }

    /// The names of the atoms that occur negated as literals of a clause.
    pub open spec fn negative_atoms(self) -> Set<Seq<char>>
        decreases self,
    {
        match self {
            Formula::Not(p) => match *p {
                Formula::Atom(name) => set![name],
                _ => Set::empty(),
            },
            Formula::Or(a, b) => a.negative_atoms().union(b.negative_atoms()),
            _ => Set::empty(),
        }
    }
}

} // verus!
