//! The literal/clause/formula data model of the solver.

use vstd::prelude::*;

verus! {

/// A propositional literal: an atom together with an asserted polarity.
///
/// `Literal(a, true)` asserts the proposition `a`; `Literal(a, false)`
/// asserts its negation.  Equality is structural: same atom, same polarity.
#[derive(Debug, Copy, PartialEq, Hash, Eq)]
pub struct Literal<Atom>(pub Atom, pub bool);

/// A clause: a disjunction of literals.  Duplicates and complementary pairs
/// are permitted and are not pre-simplified.
pub type Clause<Atom> = Vec<Literal<Atom>>;

/// A formula in conjunctive normal form: a conjunction of clauses.
/// The empty formula is trivially satisfied.
pub type CNF<Atom> = Vec<Clause<Atom>>;

/// An ordered sequence of decided literals.
pub type Assignment<Atom> = Vec<Literal<Atom>>;

/// The negation of a literal: same atom, flipped polarity.
pub open spec fn negation_of<Atom>(l: Literal<Atom>) -> Literal<Atom> {
    Literal(l.0, !l.1)
}

/// Every way of duplicating an atom yields a value equal to the original.
///
/// The solver copies atoms freely while building new formulas and
/// assignments, so it asks its caller for an atom type whose `clone` is
/// faithful; for a type whose `clone` is hand written with that contract
/// this predicate is provable.
pub open spec fn atom_dup_exact<Atom: Clone>() -> bool {
    forall|x: Atom, y: Atom| #[trigger] vstd::pervasive::cloned::<Atom>(x, y) ==> y == x
}

/// The caller's side of the atom contract: `==` on atoms is a reliable test
/// of atom identity, and duplicating an atom preserves it.
pub open spec fn atom_reliable<Atom: PartialEq + Clone>() -> bool {
    &&& vstd::laws_eq::obeys_concrete_eq::<Atom>()
    &&& atom_dup_exact::<Atom>()
}

impl<Atom> Literal<Atom> {
    /// A positive literal over the given atom.
    pub fn new(atom: Atom) -> (r: Self)
        ensures
            r == (Literal(atom, true)),
    {
        Literal(atom, true)
    }

    /// A negative literal over the given atom.
    pub fn negated(atom: Atom) -> (r: Self)
        ensures
            r == (Literal(atom, false)),
    {
        Literal(atom, false)
    }

    /// The asserted polarity.
    pub fn value(&self) -> (r: bool)
        ensures
            r == self.1,
    {
        self.1
    }

    /// The underlying atom.
    pub fn atom(self) -> (r: Atom)
        ensures
            r == self.0,
    {
        self.0
    }
}

impl<Atom: Clone> core::ops::Not for Literal<Atom> {
    type Output = Literal<Atom>;

    /// A fresh literal over the same atom with the opposite polarity; the
    /// operand is left untouched.
    fn not(self) -> (r: Literal<Atom>) {
        let a = self.0.clone();
        proof {
            assert(vstd::pervasive::cloned::<Atom>(self.0, a));
        }
        Literal(a, !self.1)
    }
}

impl<Atom: Clone> vstd::std_specs::ops::NotSpecImpl for Literal<Atom> {
    open spec fn obeys_not_spec() -> bool {
        atom_dup_exact::<Atom>()
    }

    open spec fn not_req(self) -> bool {
        true
    }

    open spec fn not_spec(self) -> Literal<Atom> {
        negation_of(self)
    }
}

impl<'a, Atom: Clone> core::ops::Not for &'a Literal<Atom> {
    type Output = Literal<Atom>;

    /// A fresh literal over the same atom with the opposite polarity.
    fn not(self) -> (r: Literal<Atom>) {
        let a = self.0.clone();
        proof {
            assert(vstd::pervasive::cloned::<Atom>(self.0, a));
        }
        Literal(a, !self.1)
    }
}

impl<'a, Atom: Clone> vstd::std_specs::ops::NotSpecImpl for &'a Literal<Atom> {
    open spec fn obeys_not_spec() -> bool {
        atom_dup_exact::<Atom>()
    }

    open spec fn not_req(self) -> bool {
        true
    }

    open spec fn not_spec(self) -> Literal<Atom> {
        negation_of(*self)
    }
}

impl<Atom: Clone> Clone for Literal<Atom> {
    /// A duplicate of the literal; exact whenever the atom type duplicates
    /// exactly.
    fn clone(&self) -> (r: Self)
        ensures
            atom_dup_exact::<Atom>() ==> r == *self,
    {
        let a = self.0.clone();
        proof {
            assert(vstd::pervasive::cloned::<Atom>(self.0, a));
        }
        Literal(a, self.1)
    }
}

} // verus!
