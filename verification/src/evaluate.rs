//! Evaluation of propositions under an assignment of truth values.

use vstd::prelude::*;

use crate::formula::Formula;
use crate::tautology::{lemma_names_push, names};
use crate::types::{Prop, Term};

verus! {

/// The names of the atoms among `props`; the other propositions name nothing.
pub open spec fn atom_names(props: Seq<Formula>) -> Set<Seq<char>> {
    Set::new(
        |name: Seq<char>|
            exists|i: int| 0 <= i < props.len() && #[trigger] props[i] == Formula::Atom(name),
    )
}

/// The formulas of a sequence of proposition references.
pub open spec fn formulas(props: Seq<&Prop>) -> Seq<Formula> {
    props.map_values(|p: &Prop| p@)
}

impl Prop {
    /// Evaluate a proposition under the assumption that the atoms in
    /// `true_atoms` are true.
    pub fn evaluate(&self, true_atoms: &[&Prop]) -> (b: bool)
        ensures
            b == self@.eval(atom_names(formulas(true_atoms@))),
    {
        let true_atoms = get_atoms(true_atoms);
        eval(self, &true_atoms)
    }
}

fn eval(prop: &Prop, true_atoms: &Vec<&String>) -> (b: bool)
    ensures
        b == prop@.eval(names(true_atoms@)),
    decreases prop@.size(),
{
    match prop.term() {
        Term::Atom(name) => contains(true_atoms, name),
        Term::Negation(prop) => !eval(prop, true_atoms),
        Term::Conjunction(a, b) => eval(a, true_atoms) && eval(b, true_atoms),
        Term::Disjunction(a, b) => eval(a, true_atoms) || eval(b, true_atoms),
    }
}

/// Is `name` among the `atoms`?
fn contains(atoms: &Vec<&String>, name: &String) -> (b: bool)
    ensures
        b == names(atoms@).contains(name@),
{
    let mut i: usize = 0;
    while i < atoms.len()
        invariant
            0 <= i <= atoms.len(),
            forall|k: int| 0 <= k < i ==> atoms@[k]@ != name@,
        decreases atoms.len() - i,
    {
        if *atoms[i] == *name {
            assert(names(atoms@).contains(atoms@[i as int]@));
            return true;
        }
        i = i + 1;
    }
    proof {
        if names(atoms@).contains(name@) {
            let k = choose|k: int| 0 <= k < atoms@.len() && #[trigger] atoms@[k]@ == name@;
            assert(atoms@[k]@ == name@);
        }
    }
    false
}

/// Extract the names from atomic propositions.
fn get_atoms<'a>(props: &'a [&Prop]) -> (atoms: Vec<&'a String>)
    ensures
        names(atoms@) == atom_names(formulas(props@)),
{
    let ghost fs = formulas(props@);
    let mut atoms: Vec<&'a String> = Vec::new();
    let mut i: usize = 0;
    assert(names(atoms@) =~= atom_names(fs.take(0)));
    while i < props.len()
        invariant
            0 <= i <= props.len(),
            fs == formulas(props@),
            names(atoms@) == atom_names(fs.take(i as int)),
        decreases props.len() - i,
    {
        let prop: &'a Prop = props[i];
        let ghost before = atoms@;
        assert(fs[i as int] == prop@);
        if let Term::Atom(name) = prop.term() {
            atoms.push(name);
            proof {
                lemma_names_push(before, name);
            }
        }
        proof {
            lemma_atom_names_push(fs.take(i as int), fs[i as int]);
            assert(fs.take(i + 1) =~= fs.take(i as int).push(fs[i as int]));
        }
        i = i + 1;
    }
    assert(fs.take(props.len() as int) =~= fs);
    atoms
}

proof fn lemma_atom_names_push(props: Seq<Formula>, p: Formula)
    ensures
        atom_names(props.push(p)) == match p {
            Formula::Atom(name) => atom_names(props).insert(name),
            _ => atom_names(props),
        },
{
    let rhs = match p {
        Formula::Atom(name) => atom_names(props).insert(name),
        _ => atom_names(props),
    };
    assert forall|n: Seq<char>| atom_names(props.push(p)).contains(n) <==> rhs.contains(n) by {
        if atom_names(props.push(p)).contains(n) {
            let k = choose|k: int| 0 <= k < props.push(p).len() && #[trigger] props.push(p)[k] == Formula::Atom(n);
            if k < props.len() {
                assert(props[k] == Formula::Atom(n));
            }
        }
        if atom_names(props).contains(n) {
            let k = choose|k: int| 0 <= k < props.len() && #[trigger] props[k] == Formula::Atom(n);
            assert(props.push(p)[k] == Formula::Atom(n));
        }
        if p == Formula::Atom(n) {
            assert(props.push(p)[props.len() as int] == Formula::Atom(n));
        }
    }
    assert(atom_names(props.push(p)) =~= rhs);
}

/// The atom `name` occurs in `f`.
pub open spec fn occurs(f: Formula, name: Seq<char>) -> bool
    decreases f,
{
    match f {
        Formula::Atom(n) => n == name,
        Formula::Not(p) => occurs(*p, name),
        Formula::And(a, b) => occurs(*a, name) || occurs(*b, name),
        Formula::Or(a, b) => occurs(*a, name) || occurs(*b, name),
    }
}

/// The atoms of `f` that are true in `true_atoms`, as a list of atoms.
pub open spec fn true_atoms_of(f: Formula, true_atoms: Set<Seq<char>>) -> Seq<Formula>
    decreases f,
{
    match f {
        Formula::Atom(name) => if true_atoms.contains(name) {
            seq![f]
        } else {
            Seq::empty()
        },
        Formula::Not(p) => true_atoms_of(*p, true_atoms),
        Formula::And(a, b) => true_atoms_of(*a, true_atoms) + true_atoms_of(*b, true_atoms),
        Formula::Or(a, b) => true_atoms_of(*a, true_atoms) + true_atoms_of(*b, true_atoms),
    }
}

/// The truth value of a formula depends only on the atoms that occur in it.
proof fn lemma_eval_occurring(f: Formula, v1: Set<Seq<char>>, v2: Set<Seq<char>>)
    requires
        forall|name: Seq<char>| occurs(f, name) ==> (v1.contains(name) <==> v2.contains(name)),
    ensures
        f.eval(v1) == f.eval(v2),
    decreases f,
{
    match f {
        Formula::Atom(name) => {
            assert(occurs(f, name));
        },
        Formula::Not(p) => lemma_eval_occurring(*p, v1, v2),
        Formula::And(a, b) => {
            lemma_eval_occurring(*a, v1, v2);
            lemma_eval_occurring(*b, v1, v2);
        },
        Formula::Or(a, b) => {
            lemma_eval_occurring(*a, v1, v2);
            lemma_eval_occurring(*b, v1, v2);
        },
    }
}

proof fn lemma_atom_names_concat(a: Seq<Formula>, b: Seq<Formula>)
    ensures
        atom_names(a + b) == atom_names(a).union(atom_names(b)),
{
    assert forall|n: Seq<char>| atom_names(a + b).contains(n) <==> atom_names(a).union(atom_names(b)).contains(n) by {
        if atom_names(a + b).contains(n) {
            let k = choose|k: int| 0 <= k < (a + b).len() && #[trigger] (a + b)[k] == Formula::Atom(n);
            if k < a.len() {
                assert(a[k] == Formula::Atom(n));
            } else {
                assert(b[k - a.len()] == Formula::Atom(n));
            }
        }
        if atom_names(a).contains(n) {
            let k = choose|k: int| 0 <= k < a.len() && #[trigger] a[k] == Formula::Atom(n);
            assert((a + b)[k] == Formula::Atom(n));
        }
        if atom_names(b).contains(n) {
            let k = choose|k: int| 0 <= k < b.len() && #[trigger] b[k] == Formula::Atom(n);
            assert((a + b)[k + a.len()] == Formula::Atom(n));
        }
    }
    assert(atom_names(a + b) =~= atom_names(a).union(atom_names(b)));
}

/// The list of the true atoms of `f` names exactly the atoms of `f` that
/// are true.
proof fn lemma_true_atoms_of(f: Formula, true_atoms: Set<Seq<char>>, name: Seq<char>)
    ensures
        atom_names(true_atoms_of(f, true_atoms)).contains(name) <==> (occurs(f, name) && true_atoms.contains(name)),
    decreases f,
{
    match f {
        Formula::Atom(n) => {
            if true_atoms.contains(n) {
                assert(true_atoms_of(f, true_atoms)[0] == Formula::Atom(n));
                if atom_names(true_atoms_of(f, true_atoms)).contains(name) {
                    let k = choose|k: int| 0 <= k < true_atoms_of(f, true_atoms).len()
                        && #[trigger] true_atoms_of(f, true_atoms)[k] == Formula::Atom(name);
                    assert(k == 0);
                }
            }
        },
        Formula::Not(p) => lemma_true_atoms_of(*p, true_atoms, name),
        Formula::And(a, b) => {
            lemma_true_atoms_of(*a, true_atoms, name);
            lemma_true_atoms_of(*b, true_atoms, name);
            lemma_atom_names_concat(true_atoms_of(*a, true_atoms), true_atoms_of(*b, true_atoms));
        },
        Formula::Or(a, b) => {
            lemma_true_atoms_of(*a, true_atoms, name);
            lemma_true_atoms_of(*b, true_atoms, name);
            lemma_atom_names_concat(true_atoms_of(*a, true_atoms), true_atoms_of(*b, true_atoms));
        },
    }
}

/// A proposition is a tautology exactly when it evaluates to true whichever
/// propositions are passed to `evaluate` as the true atoms.
pub proof fn lemma_valid_iff_true_for_all_atoms(f: Formula)
    ensures
        f.is_valid() <==> forall|props: Seq<Formula>| #[trigger] f.eval(atom_names(props)),
{
    if forall|props: Seq<Formula>| #[trigger] f.eval(atom_names(props)) {
        assert forall|v: Set<Seq<char>>| #[trigger] f.eval(v) by {
            let props = true_atoms_of(f, v);
            assert forall|name: Seq<char>| occurs(f, name) implies (v.contains(name) <==> atom_names(
                props,
            ).contains(name)) by {
                lemma_true_atoms_of(f, v, name);
            }
            lemma_eval_occurring(f, v, atom_names(props));
            assert(f.eval(atom_names(props)));
        }
    }
}

} // verus!
