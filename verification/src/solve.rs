//! The DPLL search procedure: unit propagation, pure-literal elimination
//! and recursive branch-and-backtrack, verified against the semantics of
//! propositional satisfaction.

pub use crate::repr::{Assignment, Clause, Literal, CNF};

use crate::repr::{atom_dup_exact, atom_reliable, negation_of};
use crate::semantics::{
    agrees, all_units_consistent, atom_in_cnf, atoms_within, clause_hit, clause_sat, cnf_sat,
    cnf_view,
    collect_units, count_lits, covers, drop_hit_clauses, has_atom, lemma_all_hit_propagate_empty,
    lemma_collect_units_agrees, lemma_collect_units_elem, lemma_collect_units_unique,
    lemma_concat_unique, lemma_contains_lift, lemma_drop_hit_member, lemma_propagate_count,
    lemma_propagate_count_strict, lemma_propagate_covers, lemma_propagate_fresh_atoms,
    lemma_propagate_none_unsat, lemma_propagate_origin, lemma_propagate_sat_forward,
    lemma_reduce_clause_member, lemma_sound_sat, lemma_units_hit_all, lit_in_cnf, lit_sat,
    propagate_model, pure_at, reduce_clause, satisfiable, unique_atoms,
};
use core::hash::Hash;
use vstd::pervasive::VecAdditionalExecFns;
use vstd::prelude::*;
use vstd::std_specs::cmp::PartialEqSpec;

verus! {

/// Literal equality, relying on the caller's guarantee that `==` on atoms
/// decides atom identity.
fn lit_eq<Atom: PartialEq + Clone>(x: &Literal<Atom>, y: &Literal<Atom>) -> (r: bool)
    requires
        atom_reliable::<Atom>(),
    ensures
        r == (*x == *y),
{
    proof {
        reveal(vstd::laws_eq::obeys_concrete_eq);
    }
    x.0 == y.0 && x.1 == y.1
}

/// Atom equality under the same guarantee.
fn atom_eq<Atom: PartialEq + Clone>(x: &Atom, y: &Atom) -> (r: bool)
    requires
        atom_reliable::<Atom>(),
    ensures
        r == (*x == *y),
{
    proof {
        reveal(vstd::laws_eq::obeys_concrete_eq);
    }
    x == y
}

/// Whether the assignment holds the literal verbatim.
fn contains_lit<Atom: PartialEq + Clone>(asg: &Assignment<Atom>, l: &Literal<Atom>) -> (r: bool)
    requires
        atom_reliable::<Atom>(),
    ensures
        r == asg@.contains(*l),
{
    let mut k: usize = 0;
    while k < asg.len()
        invariant
            atom_reliable::<Atom>(),
            k <= asg.len(),
            forall|k2: int| 0 <= k2 < k ==> asg@[k2] != *l,
        decreases asg.len() - k,
    {
        if lit_eq(&asg[k], l) {
            proof {
                assert(asg@[k as int] == *l);
            }
            return true;
        }
        k += 1;
    }
    false
}

/// Whether the assignment decides the given atom.
fn contains_atom<Atom: PartialEq + Clone>(asg: &Assignment<Atom>, a: &Atom) -> (r: bool)
    requires
        atom_reliable::<Atom>(),
    ensures
        r == has_atom(asg@, *a),
{
    let mut k: usize = 0;
    while k < asg.len()
        invariant
            atom_reliable::<Atom>(),
            k <= asg.len(),
            forall|k2: int| 0 <= k2 < k ==> asg@[k2].0 != *a,
        decreases asg.len() - k,
    {
        if atom_eq(&asg[k].0, a) {
            return true;
        }
        k += 1;
    }
    false
}

/// A fresh literal with the same atom and the opposite polarity.
fn complement<Atom: Clone>(l: &Literal<Atom>) -> (r: Literal<Atom>)
    requires
        atom_dup_exact::<Atom>(),
    ensures
        r == negation_of(*l),
{
    let a = l.0.clone();
    proof {
        assert(vstd::pervasive::cloned::<Atom>(l.0, a));
    }
    Literal(a, !l.1)
}

/// A duplicate of the literal, equal to the original.
fn dup_lit<Atom: Clone>(l: &Literal<Atom>) -> (r: Literal<Atom>)
    requires
        atom_dup_exact::<Atom>(),
    ensures
        r == *l,
{
    let a = l.0.clone();
    proof {
        assert(vstd::pervasive::cloned::<Atom>(l.0, a));
    }
    Literal(a, l.1)
}

/// A duplicate of the clause, equal to the original.
fn dup_clause<Atom: Clone>(c: &Clause<Atom>) -> (r: Clause<Atom>)
    requires
        atom_dup_exact::<Atom>(),
    ensures
        r@ == c@,
{
    let mut r: Clause<Atom> = Vec::new();
    let mut i: usize = 0;
    while i < c.len()
        invariant
            atom_dup_exact::<Atom>(),
            i <= c.len(),
            r@ == c@.subrange(0, i as int),
        decreases c.len() - i,
    {
        r.push(dup_lit(&c[i]));
        proof {
            assert(r@ =~= c@.subrange(0, i + 1));
        }
        i += 1;
    }
    proof {
        assert(c@.subrange(0, c.len() as int) =~= c@);
    }
    r
}

/// Whether the clause holds a literal of the assignment.
fn clause_hit_exec<Atom: PartialEq + Clone>(c: &Clause<Atom>, asg: &Assignment<Atom>) -> (r: bool)
    requires
        atom_reliable::<Atom>(),
    ensures
        r == clause_hit(c@, asg@),
{
    let mut i: usize = 0;
    while i < c.len()
        invariant
            atom_reliable::<Atom>(),
            i <= c.len(),
            forall|i2: int| 0 <= i2 < i ==> !asg@.contains(c@[i2]),
        decreases c.len() - i,
    {
        if contains_lit(asg, &c[i]) {
            return true;
        }
        i += 1;
    }
    false
}

/// The clause with its falsified literals removed.
fn reduce_clause_exec<Atom: PartialEq + Clone>(c: &Clause<Atom>, asg: &Assignment<Atom>) -> (r:
    Clause<Atom>)
    requires
        atom_reliable::<Atom>(),
    ensures
        r@ == reduce_clause(c@, asg@),
{
    let mut r: Clause<Atom> = Vec::new();
    let mut i: usize = 0;
    while i < c.len()
        invariant
            atom_reliable::<Atom>(),
            i <= c.len(),
            r@ == reduce_clause(c@.subrange(0, i as int), asg@),
        decreases c.len() - i,
    {
        let nl = complement(&c[i]);
        proof {
            assert(c@.subrange(0, i + 1).drop_last() =~= c@.subrange(0, i as int));
            assert(c@.subrange(0, i + 1).last() == c@[i as int]);
        }
        if !contains_lit(asg, &nl) {
            r.push(dup_lit(&c[i]));
        }
        i += 1;
    }
    proof {
        assert(c@.subrange(0, c.len() as int) =~= c@);
    }
    r
}

/// One propagation pass of the assignment over the formula (the
/// simplification primitive of the solver): drops satisfied clauses,
/// removes falsified literals, and reports a conflict when a clause
/// becomes empty.
fn propagate_literals<Atom: PartialEq + Eq + Clone>(
    cnf: &CNF<Atom>,
    assignment: &Assignment<Atom>,
) -> (r: Option<CNF<Atom>>)
    requires
        atom_reliable::<Atom>(),
    ensures
        match r {
            Some(g) => propagate_model(cnf_view(cnf@), assignment@) == Some(cnf_view(g@)),
            None => propagate_model(cnf_view(cnf@), assignment@) is None,
        },
{
    let ghost f = cnf_view(cnf@);
    let mut updated: CNF<Atom> = Vec::new();
    let mut j: usize = 0;
    while j < cnf.len()
        invariant
            atom_reliable::<Atom>(),
            j <= cnf.len(),
            f == cnf_view(cnf@),
            propagate_model(f.subrange(0, j as int), assignment@) == Some(cnf_view(updated@)),
        decreases cnf.len() - j,
    {
        proof {
            assert(f.subrange(0, j + 1).drop_last() =~= f.subrange(0, j as int));
            assert(f.subrange(0, j + 1).last() == f[j as int]);
            assert(f[j as int] == cnf@[j as int]@);
        }
        if !clause_hit_exec(&cnf[j], assignment) {
            let rc = reduce_clause_exec(&cnf[j], assignment);
            if rc.len() == 0 {
                proof {
                    assert(propagate_model(f.subrange(0, j + 1), assignment@) is None);
                    lemma_propagate_none_prefix(f, assignment@, j + 1);
                }
                return None;
            }
            let ghost g0 = updated@;
            updated.push(rc);
            proof {
                assert(cnf_view(updated@) =~= cnf_view(g0).push(rc@));
            }
        }
        j += 1;
    }
    proof {
        assert(f.subrange(0, cnf.len() as int) =~= f);
    }
    Some(updated)
}

/// Collects the forced literal of every singleton clause, first occurrence
/// per atom, then runs one propagation pass with them over the original
/// formula.
fn propagate_units<Atom: Hash + PartialEq + Eq + Clone>(cnf: &CNF<Atom>) -> (r: Option<
    (CNF<Atom>, Assignment<Atom>),
>)
    requires
        atom_reliable::<Atom>(),
    ensures
        match r {
            Some(p) => p.1@ == collect_units(cnf_view(cnf@)) && propagate_model(
                cnf_view(cnf@),
                p.1@,
            ) == Some(cnf_view(p.0@)),
            None => propagate_model(cnf_view(cnf@), collect_units(cnf_view(cnf@))) is None,
        },
{
    let ghost f = cnf_view(cnf@);
    let mut units: Assignment<Atom> = Vec::new();
    let mut j: usize = 0;
    while j < cnf.len()
        invariant
            atom_reliable::<Atom>(),
            j <= cnf.len(),
            f == cnf_view(cnf@),
            units@ == collect_units(f.subrange(0, j as int)),
        decreases cnf.len() - j,
    {
        proof {
            assert(f.subrange(0, j + 1).drop_last() =~= f.subrange(0, j as int));
            assert(f.subrange(0, j + 1).last() == f[j as int]);
            assert(f[j as int] == cnf@[j as int]@);
        }
        if cnf[j].len() == 1 {
            if !contains_atom(&units, &cnf[j][0].0) {
                units.push(dup_lit(&cnf[j][0]));
            }
        }
        j += 1;
    }
    proof {
        assert(f.subrange(0, cnf.len() as int) =~= f);
    }
    match propagate_literals(cnf, &units) {
        Some(g) => Some((g, units)),
        None => None,
    }
}

/// The scan of the pure-literal pass has reached clause `j`, literal `i`;
/// `(j2, i2)` is an occurrence already looked at.
spec fn scanned<A>(f: Seq<Seq<Literal<A>>>, j: int, i: int, j2: int, i2: int) -> bool {
    &&& 0 <= j2 < f.len()
    &&& 0 <= i2 < f[j2].len()
    &&& (j2 < j || (j2 == j && i2 < i))
}

/// The candidate table of the pure-literal scan: one literal per atom seen
/// so far, in first-occurrence order, still alive exactly while every
/// occurrence seen so far has carried its polarity.
spec fn pass1_inv<A>(
    f: Seq<Seq<Literal<A>>>,
    cands: Seq<Literal<A>>,
    alive: Seq<bool>,
    occ: Seq<(int, int)>,
    j: int,
    i: int,
) -> bool {
    &&& alive.len() == cands.len()
    &&& occ.len() == cands.len()
    &&& unique_atoms(cands)
    &&& forall|k: int|
        #![trigger occ[k]]
        0 <= k < cands.len() ==> scanned(f, j, i, occ[k].0, occ[k].1) && f[occ[k].0][occ[k].1]
            == cands[k]
    &&& forall|j2: int, i2: int| #[trigger]
        scanned(f, j, i, j2, i2) ==> has_atom(cands, f[j2][i2].0)
    &&& forall|k: int, j2: int, i2: int|
        #![trigger scanned(f, j, i, j2, i2), cands[k]]
        0 <= k < cands.len() && alive[k] && scanned(f, j, i, j2, i2) && f[j2][i2].0 == cands[k].0
            ==> f[j2][i2] == cands[k]
    &&& forall|k: int|
        #![trigger alive[k]]
        0 <= k < cands.len() && (forall|j2: int, i2: int|
            #![trigger f[j2][i2]]
            scanned(f, j, i, j2, i2) && f[j2][i2].0 == cands[k].0 ==> f[j2][i2].1 == cands[k].1)
            ==> alive[k]
}

/// Finds the candidate entry for the given atom.
fn find_atom<Atom: PartialEq + Clone>(cands: &Vec<Literal<Atom>>, a: &Atom) -> (r: Option<usize>)
    requires
        atom_reliable::<Atom>(),
    ensures
        match r {
            Some(k) => 0 <= k < cands@.len() && cands@[k as int].0 == *a,
            None => !has_atom(cands@, *a),
        },
{
    let mut k: usize = 0;
    while k < cands.len()
        invariant
            atom_reliable::<Atom>(),
            k <= cands.len(),
            forall|k2: int| 0 <= k2 < k ==> cands@[k2].0 != *a,
        decreases cands.len() - k,
    {
        if atom_eq(&cands[k].0, a) {
            return Some(k);
        }
        k += 1;
    }
    None
}

/// Finds every pure atom of the formula (an atom occurring with only one
/// polarity), removes each clause holding a pure literal, and returns the
/// reduced formula together with one literal per pure atom in that atom's
/// pure polarity.  This step cannot conflict.
fn eliminate_pure_literals<Atom: Hash + PartialEq + Eq + Clone>(cnf: &CNF<Atom>) -> (r: (
    CNF<Atom>,
    Assignment<Atom>,
))
    requires
        atom_reliable::<Atom>(),
    ensures
        cnf_view(r.0@) == drop_hit_clauses(cnf_view(cnf@), r.1@),
        unique_atoms(r.1@),
        forall|k: int| 0 <= k < r.1@.len() ==> lit_in_cnf(#[trigger] r.1@[k], cnf_view(cnf@)),
        forall|k: int, j: int, i: int|
            #![trigger cnf_view(cnf@)[j][i], r.1@[k]]
            0 <= k < r.1@.len() && 0 <= j < cnf_view(cnf@).len() && 0 <= i < cnf_view(cnf@)[j].len()
                && cnf_view(cnf@)[j][i].0 == r.1@[k].0 ==> cnf_view(cnf@)[j][i] == r.1@[k],
        forall|j: int, i: int|
            #![trigger cnf_view(cnf@)[j][i]]
            0 <= j < cnf_view(cnf@).len() && 0 <= i < cnf_view(cnf@)[j].len() && pure_at(
                cnf_view(cnf@),
                j,
                i,
            ) ==> has_atom(r.1@, cnf_view(cnf@)[j][i].0),
{
    let ghost f = cnf_view(cnf@);
    let mut cands: Vec<Literal<Atom>> = Vec::new();
    let mut alive: Vec<bool> = Vec::new();
    let ghost mut occ: Seq<(int, int)> = Seq::empty();
    let mut j: usize = 0;
    while j < cnf.len()
        invariant
            atom_reliable::<Atom>(),
            j <= cnf.len(),
            f == cnf_view(cnf@),
            pass1_inv(f, cands@, alive@, occ, j as int, 0),
        decreases cnf.len() - j,
    {
        let clause_len = cnf[j].len();
        let mut i: usize = 0;
        while i < clause_len
            invariant
                atom_reliable::<Atom>(),
                j < cnf.len(),
                i <= clause_len,
                clause_len == f[j as int].len(),
                f == cnf_view(cnf@),
                pass1_inv(f, cands@, alive@, occ, j as int, i as int),
            decreases clause_len - i,
        {
            proof {
                assert(f[j as int] == cnf@[j as int]@);
            }
            match find_atom(&cands, &cnf[j][i].0) {
                None => {
                    let ghost c0 = cands@;
                    let ghost a0 = alive@;
                    let ghost o0 = occ;
                    cands.push(dup_lit(&cnf[j][i]));
                    alive.push(true);
                    proof {
                        occ = occ.push((j as int, i as int));
                        assert(cands@.drop_last() =~= c0);
                        assert(alive@.drop_last() =~= a0);
                        assert(occ.drop_last() =~= o0);
                        lemma_pass1_step_new(f, cands@, alive@, occ, j as int, i as int);
                    }
                },
                Some(k) => {
                    let ghost a0 = alive@;
                    let same = cnf[j][i].1 == cands[k].1;
                    if !same {
                        alive.set(k, false);
                    }
                    proof {
                        if f[j as int][i as int].1 != cands@[k as int].1 {
                            assert(alive@ == a0.update(k as int, false));
                            assert(pass1_inv(f, cands@, a0, occ, j as int, i as int));
                        }
                        lemma_pass1_step_seen(f, cands@, alive@, occ, j as int, i as int, k as int);
                    }
                },
            }
            i += 1;
        }
        proof {
            lemma_pass1_row_done(f, cands@, alive@, occ, j as int);
        }
        j += 1;
    }
    let ghost done_j = cnf.len() as int;
    let mut pures: Assignment<Atom> = Vec::new();
    let ghost mut idxs: Seq<int> = Seq::empty();
    let mut k: usize = 0;
    while k < cands.len()
        invariant
            atom_reliable::<Atom>(),
            k <= cands.len(),
            idxs.len() == pures@.len(),
            forall|k2: int|
                0 <= k2 < idxs.len() ==> 0 <= #[trigger] idxs[k2] < k && alive@[idxs[k2]]
                    && cands@[idxs[k2]] == pures@[k2],
            forall|a: int, b: int| 0 <= a < b < idxs.len() ==> idxs[a] < idxs[b],
            forall|k2: int|
                0 <= k2 < k && alive@[k2] ==> has_atom(pures@, (#[trigger] cands@[k2]).0),
            alive@.len() == cands@.len(),
        decreases cands.len() - k,
    {
        if alive[k] {
            let ghost p0 = pures@;
            pures.push(dup_lit(&cands[k]));
            proof {
                idxs = idxs.push(k as int);
                assert forall|k2: int| 0 <= k2 < k + 1 && alive@[k2] implies has_atom(
                    pures@,
                    (#[trigger] cands@[k2]).0,
                ) by {
                    if k2 < k {
                        let p = choose|p: int| 0 <= p < p0.len() && p0[p].0 == cands@[k2].0;
                        assert(pures@[p] == p0[p]);
                    } else {
                        assert(pures@[pures@.len() - 1] == cands@[k2]);
                    }
                }
            }
        }
        k += 1;
    }
    proof {
        lemma_pures_from_cands(f, cands@, alive@, occ, pures@, idxs, done_j);
    }
    let mut kept: CNF<Atom> = Vec::new();
    let mut j2: usize = 0;
    while j2 < cnf.len()
        invariant
            atom_reliable::<Atom>(),
            j2 <= cnf.len(),
            f == cnf_view(cnf@),
            cnf_view(kept@) == drop_hit_clauses(f.subrange(0, j2 as int), pures@),
        decreases cnf.len() - j2,
    {
        proof {
            assert(f.subrange(0, j2 + 1).drop_last() =~= f.subrange(0, j2 as int));
            assert(f.subrange(0, j2 + 1).last() == f[j2 as int]);
            assert(f[j2 as int] == cnf@[j2 as int]@);
        }
        if !clause_hit_exec(&cnf[j2], &pures) {
            let ghost g0 = kept@;
            kept.push(dup_clause(&cnf[j2]));
            proof {
                assert(cnf_view(kept@) =~= cnf_view(g0).push(f[j2 as int]));
            }
        }
        j2 += 1;
    }
    proof {
        assert(f.subrange(0, cnf.len() as int) =~= f);
    }
    (kept, pures)
}

/// Scan step: a fresh atom enters the candidate table alive.
proof fn lemma_pass1_step_new<A>(
    f: Seq<Seq<Literal<A>>>,
    cands: Seq<Literal<A>>,
    alive: Seq<bool>,
    occ: Seq<(int, int)>,
    j: int,
    i: int,
)
    requires
        0 <= j < f.len(),
        0 <= i < f[j].len(),
        cands.len() >= 1,
        alive.len() == cands.len(),
        occ.len() == cands.len(),
        cands.last() == f[j][i],
        alive.last() == true,
        occ.last() == (j, i),
        !has_atom(cands.drop_last(), f[j][i].0),
        pass1_inv(f, cands.drop_last(), alive.drop_last(), occ.drop_last(), j, i),
    ensures
        pass1_inv(f, cands, alive, occ, j, i + 1),
{
    let c0 = cands.drop_last();
    let a0 = alive.drop_last();
    let o0 = occ.drop_last();
    let n = c0.len();
    assert(forall|k: int|
        0 <= k < n ==> cands[k] == c0[k] && alive[k] == a0[k] && occ[k] == o0[k]);
    assert(unique_atoms(cands)) by {
        assert forall|k1: int, k2: int| 0 <= k1 < k2 < cands.len() implies cands[k1].0
            != cands[k2].0 by {
            if k2 == n {
                if cands[k1].0 == cands[k2].0 {
                    assert(has_atom(c0, f[j][i].0)) by {
                        assert(c0[k1].0 == f[j][i].0);
                    }
                }
            } else {
                assert(c0[k1].0 != c0[k2].0);
                assert(cands[k1] == c0[k1] && cands[k2] == c0[k2]);
            }
        }
    }
    assert forall|k: int| #![trigger occ[k]] 0 <= k < cands.len() implies scanned(
        f,
        j,
        i + 1,
        occ[k].0,
        occ[k].1,
    ) && f[occ[k].0][occ[k].1] == cands[k] by {
        if k < n {
            assert(scanned(f, j, i, o0[k].0, o0[k].1) && f[o0[k].0][o0[k].1] == c0[k]);
        } else {
            assert(occ[k] == (j, i) && cands[k] == f[j][i]);
            assert(scanned(f, j, i + 1, j, i));
        }
    }
    assert forall|j2: int, i2: int| #[trigger] scanned(f, j, i + 1, j2, i2) implies has_atom(
        cands,
        f[j2][i2].0,
    ) by {
        if scanned(f, j, i, j2, i2) {
            assert(has_atom(c0, f[j2][i2].0));
            let k = choose|k: int| 0 <= k < c0.len() && c0[k].0 == f[j2][i2].0;
            assert(cands[k].0 == f[j2][i2].0);
        } else {
            assert(j2 == j && i2 == i);
            assert(cands[n as int].0 == f[j2][i2].0);
        }
    }
    assert forall|k: int, j2: int, i2: int|
        #![trigger scanned(f, j, i + 1, j2, i2), cands[k]]
        0 <= k < cands.len() && alive[k] && scanned(f, j, i + 1, j2, i2) && f[j2][i2].0
            == cands[k].0 implies f[j2][i2] == cands[k] by {
        if j2 == j && i2 == i {
            if k < n {
                assert(has_atom(c0, f[j][i].0)) by {
                    assert(c0[k].0 == f[j][i].0);
                }
            } else {
                assert(cands[k] == f[j][i]);
            }
        } else {
            assert(scanned(f, j, i, j2, i2));
            if k < n {
            } else {
                assert(has_atom(c0, f[j2][i2].0));
                let k0 = choose|k0: int| 0 <= k0 < c0.len() && c0[k0].0 == f[j2][i2].0;
                assert(cands[k0].0 == cands[k].0);
                assert(has_atom(c0, f[j][i].0)) by {
                    assert(c0[k0].0 == f[j][i].0);
                }
            }
        }
    }
}

/// Scan step: a seen atom keeps its entry; an occurrence with the opposite
/// polarity kills it.
proof fn lemma_pass1_step_seen<A>(
    f: Seq<Seq<Literal<A>>>,
    cands: Seq<Literal<A>>,
    alive: Seq<bool>,
    occ: Seq<(int, int)>,
    j: int,
    i: int,
    k: int,
)
    requires
        0 <= j < f.len(),
        0 <= i < f[j].len(),
        0 <= k < cands.len(),
        alive.len() == cands.len(),
        cands[k].0 == f[j][i].0,
        f[j][i].1 == cands[k].1 ==> pass1_inv(f, cands, alive, occ, j, i),
        f[j][i].1 != cands[k].1 ==> exists|a0: Seq<bool>|
            alive == a0.update(k, false) && #[trigger] pass1_inv(f, cands, a0, occ, j, i),
    ensures
        pass1_inv(f, cands, alive, occ, j, i + 1),
{
    if f[j][i].1 == cands[k].1 {
        assert(cands[k] == f[j][i]);
        assert forall|k2: int| #![trigger occ[k2]] 0 <= k2 < cands.len() implies scanned(
            f,
            j,
            i + 1,
            occ[k2].0,
            occ[k2].1,
        ) && f[occ[k2].0][occ[k2].1] == cands[k2] by {
            assert(scanned(f, j, i, occ[k2].0, occ[k2].1));
        }
        assert forall|j2: int, i2: int| #[trigger] scanned(f, j, i + 1, j2, i2) implies has_atom(
            cands,
            f[j2][i2].0,
        ) by {
            if scanned(f, j, i, j2, i2) {
            } else {
                assert(j2 == j && i2 == i);
                assert(cands[k].0 == f[j2][i2].0);
            }
        }
        assert forall|k2: int, j2: int, i2: int|
            #![trigger scanned(f, j, i + 1, j2, i2), cands[k2]]
            0 <= k2 < cands.len() && alive[k2] && scanned(f, j, i + 1, j2, i2)
                && f[j2][i2].0 == cands[k2].0 implies f[j2][i2] == cands[k2] by {
            if scanned(f, j, i, j2, i2) {
            } else {
                assert(j2 == j && i2 == i);
                if k2 != k {
                    assert(cands[k2].0 != cands[k].0);
                }
            }
        }
    } else {
        let a0 = choose|a0: Seq<bool>|
            alive == a0.update(k, false) && #[trigger] pass1_inv(f, cands, a0, occ, j, i);
        assert(alive.len() == a0.len());
        assert(forall|k2: int| 0 <= k2 < alive.len() && k2 != k ==> alive[k2] == a0[k2]);
        assert(!alive[k]);
        assert forall|k2: int| #![trigger occ[k2]] 0 <= k2 < cands.len() implies scanned(
            f,
            j,
            i + 1,
            occ[k2].0,
            occ[k2].1,
        ) && f[occ[k2].0][occ[k2].1] == cands[k2] by {
            assert(scanned(f, j, i, occ[k2].0, occ[k2].1));
        }
        assert forall|j2: int, i2: int| #[trigger] scanned(f, j, i + 1, j2, i2) implies has_atom(
            cands,
            f[j2][i2].0,
        ) by {
            if scanned(f, j, i, j2, i2) {
            } else {
                assert(j2 == j && i2 == i);
                assert(cands[k].0 == f[j2][i2].0);
            }
        }
        assert forall|k2: int, j2: int, i2: int|
            #![trigger scanned(f, j, i + 1, j2, i2), cands[k2]]
            0 <= k2 < cands.len() && alive[k2] && scanned(f, j, i + 1, j2, i2)
                && f[j2][i2].0 == cands[k2].0 implies f[j2][i2] == cands[k2] by {
            assert(k2 != k);
            assert(a0[k2]);
            if scanned(f, j, i, j2, i2) {
            } else {
                assert(j2 == j && i2 == i);
                assert(cands[k2].0 != cands[k].0);
            }
        }
    }
}

/// Finishing a clause advances the scan to the head of the next one.
proof fn lemma_pass1_row_done<A>(
    f: Seq<Seq<Literal<A>>>,
    cands: Seq<Literal<A>>,
    alive: Seq<bool>,
    occ: Seq<(int, int)>,
    j: int,
)
    requires
        0 <= j < f.len(),
        pass1_inv(f, cands, alive, occ, j, f[j].len() as int),
    ensures
        pass1_inv(f, cands, alive, occ, j + 1, 0),
{
    let ilen = f[j].len() as int;
    assert forall|k: int| #![trigger occ[k]] 0 <= k < cands.len() implies scanned(
        f,
        j + 1,
        0,
        occ[k].0,
        occ[k].1,
    ) && f[occ[k].0][occ[k].1] == cands[k] by {
        assert(scanned(f, j, ilen, occ[k].0, occ[k].1));
    }
    assert forall|j2: int, i2: int| #[trigger] scanned(f, j + 1, 0, j2, i2) implies has_atom(
        cands,
        f[j2][i2].0,
    ) by {
        assert(scanned(f, j, ilen, j2, i2));
    }
    assert forall|k: int, j2: int, i2: int|
        #![trigger scanned(f, j + 1, 0, j2, i2), cands[k]]
        0 <= k < cands.len() && alive[k] && scanned(f, j + 1, 0, j2, i2) && f[j2][i2].0
            == cands[k].0 implies f[j2][i2] == cands[k] by {
        assert(scanned(f, j, ilen, j2, i2));
    }
}

/// After the full scan, the live candidates are exactly the pure literals;
/// the collected subsequence inherits occurrence, uniqueness and purity.
proof fn lemma_pures_from_cands<A>(
    f: Seq<Seq<Literal<A>>>,
    cands: Seq<Literal<A>>,
    alive: Seq<bool>,
    occ: Seq<(int, int)>,
    pures: Seq<Literal<A>>,
    idxs: Seq<int>,
    done_j: int,
)
    requires
        done_j == f.len(),
        pass1_inv(f, cands, alive, occ, done_j, 0),
        idxs.len() == pures.len(),
        forall|k2: int|
            0 <= k2 < idxs.len() ==> 0 <= #[trigger] idxs[k2] < cands.len() && alive[idxs[k2]]
                && cands[idxs[k2]] == pures[k2],
        forall|a: int, b: int| 0 <= a < b < idxs.len() ==> idxs[a] < idxs[b],
        forall|k2: int|
            0 <= k2 < cands.len() && alive[k2] ==> has_atom(pures, (#[trigger] cands[k2]).0),
    ensures
        unique_atoms(pures),
        forall|k: int| 0 <= k < pures.len() ==> lit_in_cnf(#[trigger] pures[k], f),
        forall|k: int, j: int, i: int|
            #![trigger f[j][i], pures[k]]
            0 <= k < pures.len() && 0 <= j < f.len() && 0 <= i < f[j].len() && f[j][i].0
                == pures[k].0 ==> f[j][i] == pures[k],
        forall|j: int, i: int|
            #![trigger f[j][i]]
            0 <= j < f.len() && 0 <= i < f[j].len() && pure_at(f, j, i) ==> has_atom(
                pures,
                f[j][i].0,
            ),
{
    reveal(crate::semantics::pure_at);
    assert forall|j: int, i: int|
        0 <= j < f.len() && 0 <= i < f[j].len() && pure_at(f, j, i) implies has_atom(
        pures,
        (#[trigger] f[j][i]).0,
    ) by {
        assert(scanned(f, done_j, 0, j, i));
        assert(has_atom(cands, f[j][i].0));
        let k = choose|k: int| 0 <= k < cands.len() && cands[k].0 == f[j][i].0;
        assert(scanned(f, done_j, 0, occ[k].0, occ[k].1) && f[occ[k].0][occ[k].1] == cands[k]);
        assert(f[occ[k].0][occ[k].1].1 == f[j][i].1);
        assert forall|j2: int, i2: int| #![trigger f[j2][i2]] scanned(f, done_j, 0, j2, i2)
            && f[j2][i2].0 == cands[k].0 implies f[j2][i2].1 == cands[k].1 by {
            assert(f[j2][i2].1 == f[j][i].1);
        }
        assert(alive[k]);
        assert(has_atom(pures, cands[k].0));
    }
    assert forall|k1: int, k2: int| 0 <= k1 < k2 < pures.len() implies pures[k1].0
        != pures[k2].0 by {
        assert(idxs[k1] < idxs[k2]);
        assert(cands[idxs[k1]].0 != cands[idxs[k2]].0);
    }
    assert forall|k: int| 0 <= k < pures.len() implies lit_in_cnf(#[trigger] pures[k], f) by {
        let kk = idxs[k];
        let j2 = occ[kk].0;
        let i2 = occ[kk].1;
        assert(scanned(f, done_j, 0, j2, i2) && f[j2][i2] == cands[kk]);
        assert(0 <= j2 < f.len() && 0 <= i2 < f[j2].len() && f[j2][i2] == pures[k]);
    }
    assert forall|k: int, j: int, i: int|
        #![trigger f[j][i], pures[k]]
        0 <= k < pures.len() && 0 <= j < f.len() && 0 <= i < f[j].len() && f[j][i].0
            == pures[k].0 implies f[j][i] == pures[k] by {
        let kk = idxs[k];
        assert(scanned(f, done_j, 0, j, i));
        assert(f[j][i] == cands[kk]);
    }
}

/// After unit propagation and pure-literal elimination: the collected
/// units and pures decide disjoint atoms drawn from the formula, and the
/// simplified formula mentions no decided atom.
proof fn lemma_prefix_facts<A>(
    f0: Seq<Seq<Literal<A>>>,
    units: Seq<Literal<A>>,
    pures: Seq<Literal<A>>,
    f1: Seq<Seq<Literal<A>>>,
)
    requires
        units == collect_units(f0),
        propagate_model(f0, units) == Some(f1),
        unique_atoms(pures),
        forall|k: int| 0 <= k < pures.len() ==> lit_in_cnf(#[trigger] pures[k], f1),
    ensures
        unique_atoms(units + pures),
        atoms_within(units + pures, f0),
        forall|j2: int, i2: int|
            #![trigger f1[j2][i2]]
            0 <= j2 < f1.len() && 0 <= i2 < f1[j2].len() ==> !has_atom(units, f1[j2][i2].0)
                && lit_in_cnf(f1[j2][i2], f0),
{
    lemma_collect_units_unique(f0);
    assert forall|j2: int, i2: int|
        #![trigger f1[j2][i2]]
        0 <= j2 < f1.len() && 0 <= i2 < f1[j2].len() implies !has_atom(units, f1[j2][i2].0)
        && lit_in_cnf(f1[j2][i2], f0) by {
        lemma_propagate_fresh_atoms(f0, units, f1, j2, i2);
    }
    assert forall|k1: int, k2: int|
        0 <= k1 < units.len() && 0 <= k2 < pures.len() implies #[trigger] units[k1].0
        != #[trigger] pures[k2].0 by {
        let (j2, i2) = choose|j2: int, i2: int|
            0 <= j2 < f1.len() && 0 <= i2 < f1[j2].len() && f1[j2][i2] == pures[k2];
        assert(!has_atom(units, f1[j2][i2].0));
        if units[k1].0 == pures[k2].0 {
            assert(has_atom(units, f1[j2][i2].0)) by {
                assert(units[k1].0 == f1[j2][i2].0);
            }
        }
    }
    lemma_concat_unique(units, pures);
    let asg_pre = units + pures;
    assert forall|k: int| 0 <= k < asg_pre.len() implies atom_in_cnf(
        (#[trigger] asg_pre[k]).0,
        f0,
    ) by {
        if k < units.len() {
            assert(asg_pre[k] == units[k]);
            lemma_collect_units_elem(f0, k);
            let j = choose|j: int|
                0 <= j < f0.len() && #[trigger] f0[j].len() == 1 && f0[j][0] == units[k];
            assert(atom_in_cnf(asg_pre[k].0, f0)) by {
                assert(f0[j][0].0 == asg_pre[k].0);
            }
        } else {
            let p = pures[k - units.len()];
            assert(asg_pre[k] == p);
            let (j2, i2) = choose|j2: int, i2: int|
                0 <= j2 < f1.len() && 0 <= i2 < f1[j2].len() && f1[j2][i2] == p;
            assert(lit_in_cnf(f1[j2][i2], f0));
            let (ja, ia) = choose|ja: int, ia: int|
                0 <= ja < f0.len() && 0 <= ia < f0[ja].len() && f0[ja][ia] == p;
            assert(atom_in_cnf(asg_pre[k].0, f0)) by {
                assert(f0[ja][ia].0 == asg_pre[k].0);
            }
        }
    }
}

/// Every occurrence in the formula left by pure-literal elimination avoids
/// both the unit atoms and the pure atoms, and comes from the formula it
/// was cut from.
proof fn lemma_f2_occurrences<A>(
    units: Seq<Literal<A>>,
    pures: Seq<Literal<A>>,
    f1: Seq<Seq<Literal<A>>>,
    f2: Seq<Seq<Literal<A>>>,
)
    requires
        f2 == drop_hit_clauses(f1, pures),
        forall|j2: int, i2: int|
            #![trigger f1[j2][i2]]
            0 <= j2 < f1.len() && 0 <= i2 < f1[j2].len() ==> !has_atom(units, f1[j2][i2].0),
        forall|k: int, j: int, i: int|
            #![trigger f1[j][i], pures[k]]
            0 <= k < pures.len() && 0 <= j < f1.len() && 0 <= i < f1[j].len() && f1[j][i].0
                == pures[k].0 ==> f1[j][i] == pures[k],
    ensures
        forall|j3: int, i3: int|
            #![trigger f2[j3][i3]]
            0 <= j3 < f2.len() && 0 <= i3 < f2[j3].len() ==> !has_atom(units, f2[j3][i3].0)
                && !has_atom(pures, f2[j3][i3].0) && lit_in_cnf(f2[j3][i3], f1),
{
    lemma_drop_hit_member(f1, pures);
    assert forall|j3: int, i3: int|
        #![trigger f2[j3][i3]]
        0 <= j3 < f2.len() && 0 <= i3 < f2[j3].len() implies !has_atom(units, f2[j3][i3].0)
        && !has_atom(pures, f2[j3][i3].0) && lit_in_cnf(f2[j3][i3], f1) by {
        let j2 = choose|j2: int|
            0 <= j2 < f1.len() && #[trigger] f2[j3] == f1[j2] && !clause_hit(f1[j2], pures);
        let x = f2[j3][i3];
        assert(f1[j2][i3] == x);
        assert(lit_in_cnf(x, f1)) by {
            assert(0 <= j2 < f1.len() && 0 <= i3 < f1[j2].len() && f1[j2][i3] == x);
        }
        assert(!has_atom(units, x.0));
        if has_atom(pures, x.0) {
            let k = choose|k: int| 0 <= k < pures.len() && pures[k].0 == x.0;
            assert(f1[j2][i3] == pures[k]);
            assert(clause_hit(f1[j2], pures)) by {
                assert(pures.contains(f1[j2][i3])) by {
                    assert(pures[k] == f1[j2][i3]);
                }
            }
        }
    }
}

/// Every atom of the recursive solution comes from the original formula
/// and avoids the units, the pures and the branch atom.
proof fn lemma_sol_facts<A>(
    f0: Seq<Seq<Literal<A>>>,
    units: Seq<Literal<A>>,
    pures: Seq<Literal<A>>,
    f1: Seq<Seq<Literal<A>>>,
    f2: Seq<Seq<Literal<A>>>,
    bl: Literal<A>,
    fb: Seq<Seq<Literal<A>>>,
    sol: Seq<Literal<A>>,
)
    requires
        propagate_model(f2, seq![bl]) == Some(fb),
        atoms_within(sol, fb),
        forall|j2: int, i2: int|
            #![trigger f1[j2][i2]]
            0 <= j2 < f1.len() && 0 <= i2 < f1[j2].len() ==> lit_in_cnf(f1[j2][i2], f0),
        forall|j3: int, i3: int|
            #![trigger f2[j3][i3]]
            0 <= j3 < f2.len() && 0 <= i3 < f2[j3].len() ==> !has_atom(units, f2[j3][i3].0)
                && !has_atom(pures, f2[j3][i3].0) && lit_in_cnf(f2[j3][i3], f1),
    ensures
        forall|k: int|
            0 <= k < sol.len() ==> !has_atom(units, (#[trigger] sol[k]).0) && !has_atom(
                pures,
                sol[k].0,
            ) && sol[k].0 != bl.0 && atom_in_cnf(sol[k].0, f0),
{
    let bs = seq![bl];
    assert forall|k: int| 0 <= k < sol.len() implies !has_atom(units, (#[trigger] sol[k]).0)
        && !has_atom(pures, sol[k].0) && sol[k].0 != bl.0 && atom_in_cnf(sol[k].0, f0) by {
        assert(atom_in_cnf(sol[k].0, fb));
        let (j4, i4) = choose|j4: int, i4: int|
            0 <= j4 < fb.len() && 0 <= i4 < fb[j4].len() && fb[j4][i4].0 == sol[k].0;
        lemma_propagate_fresh_atoms(f2, bs, fb, j4, i4);
        let x = fb[j4][i4];
        if x.0 == bl.0 {
            assert(has_atom(bs, x.0)) by {
                assert(bs[0].0 == x.0);
            }
        }
        let (j3, i3) = choose|j3: int, i3: int|
            0 <= j3 < f2.len() && 0 <= i3 < f2[j3].len() && f2[j3][i3] == x;
        assert(!has_atom(units, x.0) && !has_atom(pures, x.0) && lit_in_cnf(x, f1));
        let (j2a, i2a) = choose|j2: int, i2: int|
            0 <= j2 < f1.len() && 0 <= i2 < f1[j2].len() && f1[j2][i2] == x;
        assert(lit_in_cnf(f1[j2a][i2a], f0));
        let (ja, ia) = choose|jc: int, ic: int|
            0 <= jc < f0.len() && 0 <= ic < f0[jc].len() && f0[jc][ic] == x;
        assert(atom_in_cnf(sol[k].0, f0)) by {
            assert(f0[ja][ia].0 == sol[k].0);
        }
    }
}

/// Assembling units, pures, the branch literal and the recursive solution
/// keeps atoms unique.
proof fn lemma_branch_unique<A>(
    units: Seq<Literal<A>>,
    pures: Seq<Literal<A>>,
    bl: Literal<A>,
    sol: Seq<Literal<A>>,
)
    requires
        unique_atoms(units + pures),
        unique_atoms(sol),
        !has_atom(units, bl.0),
        !has_atom(pures, bl.0),
        forall|k: int|
            0 <= k < sol.len() ==> !has_atom(units, (#[trigger] sol[k]).0) && !has_atom(
                pures,
                sol[k].0,
            ) && sol[k].0 != bl.0,
    ensures
        unique_atoms(units + pures + seq![bl] + sol),
{
    let asg_pre = units + pures;
    let bs = seq![bl];
    assert(unique_atoms(bs));
    assert forall|k1: int, k2: int|
        0 <= k1 < asg_pre.len() && 0 <= k2 < bs.len() implies #[trigger] asg_pre[k1].0
        != #[trigger] bs[k2].0 by {
        if asg_pre[k1].0 == bl.0 {
            if k1 < units.len() {
                assert(has_atom(units, bl.0)) by {
                    assert(units[k1].0 == bl.0);
                }
            } else {
                assert(has_atom(pures, bl.0)) by {
                    assert(pures[k1 - units.len()].0 == bl.0);
                }
            }
        }
    }
    lemma_concat_unique(asg_pre, bs);
    assert forall|k1: int, k2: int|
        0 <= k1 < (asg_pre + bs).len() && 0 <= k2 < sol.len() implies #[trigger] (asg_pre
        + bs)[k1].0 != #[trigger] sol[k2].0 by {
        if (asg_pre + bs)[k1].0 == sol[k2].0 {
            if k1 < units.len() {
                assert(has_atom(units, sol[k2].0)) by {
                    assert(units[k1].0 == sol[k2].0);
                }
            } else if k1 < asg_pre.len() {
                assert(has_atom(pures, sol[k2].0)) by {
                    assert(pures[k1 - units.len()].0 == sol[k2].0);
                }
            } else {
                assert((asg_pre + bs)[k1] == bl);
            }
        }
    }
    lemma_concat_unique(asg_pre + bs, sol);
    assert(units + pures + bs + sol == (asg_pre + bs) + sol);
}

/// Assembling units, pures, the branch literal and the recursive solution
/// covers every original clause.
#[verifier::rlimit(30)]
proof fn lemma_branch_covers<A>(
    f0: Seq<Seq<Literal<A>>>,
    units: Seq<Literal<A>>,
    pures: Seq<Literal<A>>,
    f1: Seq<Seq<Literal<A>>>,
    f2: Seq<Seq<Literal<A>>>,
    bl: Literal<A>,
    fb: Seq<Seq<Literal<A>>>,
    sol: Seq<Literal<A>>,
)
    requires
        propagate_model(f0, units) == Some(f1),
        f2 == drop_hit_clauses(f1, pures),
        propagate_model(f2, seq![bl]) == Some(fb),
        covers(sol, fb),
    ensures
        covers(units + pures + seq![bl] + sol, f0),
{
    let asg_pre = units + pures;
    let bs = seq![bl];
    let fin = units + pures + bs + sol;
    lemma_drop_hit_member(f1, pures);
    assert forall|j: int| 0 <= j < f0.len() implies clause_hit(f0[j], fin) by {
        lemma_propagate_covers(f0, units, f1, j);
        lemma_reduce_clause_member(f0[j], units);
        if clause_hit(f0[j], units) {
            let i = choose|i: int| 0 <= i < f0[j].len() && units.contains(f0[j][i]);
            lemma_contains_lift(units, pures, f0[j][i]);
            lemma_contains_lift(asg_pre, bs, f0[j][i]);
            lemma_contains_lift(asg_pre + bs, sol, f0[j][i]);
            assert(fin.contains(f0[j][i]));
        } else {
            let j2 = choose|j2: int| 0 <= j2 < f1.len() && f1[j2] == reduce_clause(f0[j], units);
            if clause_hit(f1[j2], pures) {
                let i = choose|i: int| 0 <= i < f1[j2].len() && pures.contains(f1[j2][i]);
                let x = f1[j2][i];
                assert(reduce_clause(f0[j], units).contains(x)) by {
                    assert(reduce_clause(f0[j], units)[i] == x);
                }
                assert(f0[j].contains(x));
                lemma_contains_lift(units, pures, x);
                lemma_contains_lift(asg_pre, bs, x);
                lemma_contains_lift(asg_pre + bs, sol, x);
                let ii = choose|ii: int| 0 <= ii < f0[j].len() && f0[j][ii] == x;
                assert(fin.contains(f0[j][ii]));
            } else {
                let j3 = choose|j3: int| 0 <= j3 < f2.len() && #[trigger] f2[j3] == f1[j2];
                lemma_propagate_covers(f2, bs, fb, j3);
                lemma_reduce_clause_member(f2[j3], bs);
                if clause_hit(f2[j3], bs) {
                    let i = choose|i: int| 0 <= i < f2[j3].len() && bs.contains(f2[j3][i]);
                    let x = f2[j3][i];
                    assert(x == bl) by {
                        let kq = choose|kq: int| 0 <= kq < bs.len() && bs[kq] == x;
                    }
                    assert(reduce_clause(f0[j], units).contains(x)) by {
                        assert(f1[j2][i] == x);
                        assert(reduce_clause(f0[j], units)[i] == x);
                    }
                    assert(f0[j].contains(x));
                    lemma_contains_lift(asg_pre, bs, bl);
                    lemma_contains_lift(asg_pre + bs, sol, bl);
                    let ii = choose|ii: int| 0 <= ii < f0[j].len() && f0[j][ii] == x;
                    assert(fin.contains(f0[j][ii]));
                } else {
                    let j4 = choose|j4: int|
                        0 <= j4 < fb.len() && fb[j4] == reduce_clause(f2[j3], seq![bl]);
                    assert(clause_hit(fb[j4], sol));
                    let i = choose|i: int| 0 <= i < fb[j4].len() && sol.contains(fb[j4][i]);
                    let x = fb[j4][i];
                    assert(reduce_clause(f2[j3], bs).contains(x)) by {
                        assert(reduce_clause(f2[j3], bs)[i] == x);
                    }
                    assert(f2[j3].contains(x));
                    let i3 = choose|i3: int| 0 <= i3 < f2[j3].len() && f2[j3][i3] == x;
                    assert(reduce_clause(f0[j], units).contains(x)) by {
                        assert(f1[j2][i3] == x);
                        assert(reduce_clause(f0[j], units)[i3] == x);
                    }
                    assert(f0[j].contains(x));
                    lemma_contains_lift(asg_pre + bs, sol, x);
                    let ii = choose|ii: int| 0 <= ii < f0[j].len() && f0[j][ii] == x;
                    assert(fin.contains(f0[j][ii]));
                }
            }
        }
    }
}

/// Assembling units, pures, the branch literal and the recursive solution
/// decides only atoms of the original formula.
proof fn lemma_branch_atoms<A>(
    f0: Seq<Seq<Literal<A>>>,
    units: Seq<Literal<A>>,
    pures: Seq<Literal<A>>,
    bl: Literal<A>,
    sol: Seq<Literal<A>>,
)
    requires
        atoms_within(units + pures, f0),
        atom_in_cnf(bl.0, f0),
        forall|k: int| 0 <= k < sol.len() ==> atom_in_cnf((#[trigger] sol[k]).0, f0),
    ensures
        atoms_within(units + pures + seq![bl] + sol, f0),
{
    let asg_pre = units + pures;
    let bs = seq![bl];
    let fin = units + pures + bs + sol;
    assert forall|k: int| 0 <= k < fin.len() implies atom_in_cnf((#[trigger] fin[k]).0, f0) by {
        if k < asg_pre.len() {
            assert(fin[k] == asg_pre[k]);
        } else if k < asg_pre.len() + 1 {
            assert(fin[k] == bl);
        } else {
            assert(fin[k] == sol[k - asg_pre.len() - 1]);
        }
    }
}

/// A successful branch extends the accumulated assignment into an
/// atom-unique cover of the original formula.
proof fn lemma_branch_success<A>(
    f0: Seq<Seq<Literal<A>>>,
    units: Seq<Literal<A>>,
    pures: Seq<Literal<A>>,
    f1: Seq<Seq<Literal<A>>>,
    f2: Seq<Seq<Literal<A>>>,
    bl: Literal<A>,
    fb: Seq<Seq<Literal<A>>>,
    sol: Seq<Literal<A>>,
)
    requires
        units == collect_units(f0),
        propagate_model(f0, units) == Some(f1),
        f2 == drop_hit_clauses(f1, pures),
        unique_atoms(pures),
        forall|k: int| 0 <= k < pures.len() ==> lit_in_cnf(#[trigger] pures[k], f1),
        forall|k: int, j: int, i: int|
            #![trigger f1[j][i], pures[k]]
            0 <= k < pures.len() && 0 <= j < f1.len() && 0 <= i < f1[j].len() && f1[j][i].0
                == pures[k].0 ==> f1[j][i] == pures[k],
        f2.len() > 0,
        f2[0].len() > 0,
        bl.0 == f2[0][0].0,
        propagate_model(f2, seq![bl]) == Some(fb),
        unique_atoms(sol),
        covers(sol, fb),
        atoms_within(sol, fb),
    ensures
        unique_atoms(units + pures + seq![bl] + sol),
        covers(units + pures + seq![bl] + sol, f0),
        atoms_within(units + pures + seq![bl] + sol, f0),
{
    lemma_prefix_facts(f0, units, pures, f1);
    lemma_f2_occurrences(units, pures, f1, f2);
    // the branch literal's atom avoids the decided atoms and occurs in the
    // original formula
    let x0 = f2[0][0];
    assert(lit_in_cnf(x0, f1) && !has_atom(units, bl.0) && !has_atom(pures, bl.0)) by {
        assert(f2[0][0] == x0);
    }
    let (j2b, i2b) = choose|j2: int, i2: int|
        0 <= j2 < f1.len() && 0 <= i2 < f1[j2].len() && f1[j2][i2] == x0;
    assert(lit_in_cnf(f1[j2b][i2b], f0));
    let (jb, ib) = choose|ja: int, ia: int|
        0 <= ja < f0.len() && 0 <= ia < f0[ja].len() && f0[ja][ia] == x0;
    assert(atom_in_cnf(bl.0, f0)) by {
        assert(f0[jb][ib].0 == bl.0);
    }
    lemma_sol_facts(f0, units, pures, f1, f2, bl, fb, sol);
    lemma_branch_unique(units, pures, bl, sol);
    lemma_branch_covers(f0, units, pures, f1, f2, bl, fb, sol);
    lemma_branch_atoms(f0, units, pures, bl, sol);
}

/// A conflict on a prefix of the formula is a conflict on the whole.
proof fn lemma_propagate_none_prefix<A>(f: Seq<Seq<Literal<A>>>, asg: Seq<Literal<A>>, m: int)
    requires
        0 <= m <= f.len(),
        propagate_model(f.subrange(0, m), asg) is None,
    ensures
        propagate_model(f, asg) is None,
    decreases f.len() - m,
{
    if m == f.len() {
        assert(f.subrange(0, m) =~= f);
    } else {
        assert(f.subrange(0, m + 1).drop_last() =~= f.subrange(0, m));
        lemma_propagate_none_prefix(f, asg, m + 1);
    }
}


/// Decides satisfiability of the formula, combining unit propagation,
/// pure-literal elimination and recursive branch-and-backtrack.
///
/// Soundness: a returned assignment decides each atom at most once,
/// decides only atoms of the formula, and holds a literal of every clause,
/// so substituting it satisfies every original clause.  Completeness: when
/// no assignment is returned, no valuation satisfies the formula.  A
/// formula that is already a consistent conjunction of unit clauses yields
/// exactly its forced literals, first occurrence per atom.
#[verifier::rlimit(100)]
pub fn solve<Atom: Hash + PartialEq + Eq + Clone>(cnf: &CNF<Atom>) -> (r: Option<Assignment<Atom>>)
    requires
        atom_reliable::<Atom>(),
    ensures
        (match r {
            Some(asg) => unique_atoms(asg@) && covers(asg@, cnf_view(cnf@)) && atoms_within(
                asg@,
                cnf_view(cnf@),
            ) && satisfiable(cnf_view(cnf@)),
            None => !satisfiable(cnf_view(cnf@)),
        }),
        all_units_consistent(cnf_view(cnf@)) ==> (r matches Some(asg) && asg@ == collect_units(
            cnf_view(cnf@),
        )),
    decreases count_lits(cnf_view(cnf@)),
{
    let ghost f0 = cnf_view(cnf@);
    match propagate_units(cnf) {
        None => {
            proof {
                assert forall|v: spec_fn(Atom) -> bool| !cnf_sat(v, f0) by {
                    if cnf_sat(v, f0) {
                        lemma_collect_units_agrees(f0, v);
                        lemma_propagate_none_unsat(f0, collect_units(f0), v);
                    }
                }
                if all_units_consistent(f0) {
                    lemma_units_hit_all(f0);
                    lemma_all_hit_propagate_empty(f0, collect_units(f0));
                }
            }
            None
        },
        Some((cnf1, mut assignment)) => {
            let ghost units = assignment@;
            let ghost f1 = cnf_view(cnf1@);
            let (cnf2, mut assignment2) = eliminate_pure_literals(&cnf1);
            let ghost pures = assignment2@;
            let ghost f2 = cnf_view(cnf2@);
            assignment.append(&mut assignment2);
            proof {
                lemma_prefix_facts(f0, units, pures, f1);
                lemma_propagate_count(f0, units);
                lemma_drop_hit_member(f1, pures);
            }
            if cnf2.len() == 0 {
                proof {
                    assert(f2.len() == 0);
                    let asg_pre = units + pures;
                    assert(assignment@ == asg_pre);
                    assert forall|j: int| 0 <= j < f0.len() implies clause_hit(f0[j], asg_pre) by {
                        lemma_propagate_covers(f0, units, f1, j);
                        lemma_reduce_clause_member(f0[j], units);
                        if clause_hit(f0[j], units) {
                            let i = choose|i: int|
                                0 <= i < f0[j].len() && units.contains(f0[j][i]);
                            lemma_contains_lift(units, pures, f0[j][i]);
                            assert(asg_pre.contains(f0[j][i]));
                        } else {
                            let j2 = choose|j2: int|
                                0 <= j2 < f1.len() && f1[j2] == reduce_clause(f0[j], units);
                            assert(clause_hit(f1[j2], pures));
                            let i = choose|i: int|
                                0 <= i < f1[j2].len() && pures.contains(f1[j2][i]);
                            let x = f1[j2][i];
                            assert(reduce_clause(f0[j], units).contains(x)) by {
                                assert(reduce_clause(f0[j], units)[i] == x);
                            }
                            assert(f0[j].contains(x));
                            lemma_contains_lift(units, pures, x);
                            let ii = choose|ii: int| 0 <= ii < f0[j].len() && f0[j][ii] == x;
                            assert(asg_pre.contains(f0[j][ii]));
                        }
                    }
                    lemma_sound_sat(assignment@, f0);
                    if all_units_consistent(f0) {
                        lemma_units_hit_all(f0);
                        lemma_all_hit_propagate_empty(f0, units);
                        assert(f1 == Seq::<Seq<Literal<Atom>>>::empty());
                        assert(pures.len() == 0) by {
                            if pures.len() > 0 {
                                assert(lit_in_cnf(pures[0], f1));
                            }
                        }
                        assert(assignment@ =~= units);
                    }
                }
                return Some(assignment);
            }
            proof {
                let j2x = choose|j2: int|
                    0 <= j2 < f1.len() && #[trigger] f2[0] == f1[j2] && !clause_hit(f1[j2], pures);
                lemma_propagate_origin(f0, units, f1, j2x);
                assert(f2[0].len() > 0);
                assert(cnf2@[0]@.len() > 0);
                if all_units_consistent(f0) {
                    lemma_units_hit_all(f0);
                    lemma_all_hit_propagate_empty(f0, units);
                    assert(f1 == Seq::<Seq<Literal<Atom>>>::empty());
                    assert(f2.len() == 0);
                }
                assert(!all_units_consistent(f0));
            }
            let b = dup_lit(&cnf2[0][0]);
            let ghost bs = seq![b];
            let mut assignment_true: Assignment<Atom> = Vec::new();
            assignment_true.push(dup_lit(&b));
            proof {
                assert(assignment_true@ =~= bs);
                assert(b == f2[0][0]);
            }
            match propagate_literals(&cnf2, &assignment_true) {
                Some(cnf3) => {
                    let ghost f3 = cnf_view(cnf3@);
                    proof {
                        assert(bs.contains(f2[0][0])) by {
                            assert(bs[0] == f2[0][0]);
                        }
                        lemma_propagate_count_strict(f2, bs, 0, 0);
                    }
                    match solve(&cnf3) {
                        Some(mut solution) => {
                            let ghost sol = solution@;
                            assignment.push(b);
                            assignment.append(&mut solution);
                            proof {
                                assert(assignment@ =~= units + pures + bs + sol);
                                lemma_branch_success(f0, units, pures, f1, f2, b, f3, sol);
                                lemma_sound_sat(assignment@, f0);
                            }
                            return Some(assignment);
                        },
                        None => {
                            proof {
                                assert forall|v: spec_fn(Atom) -> bool|
                                    agrees(v, bs) implies !cnf_sat(v, f2) by {
                                    if cnf_sat(v, f2) {
                                        lemma_propagate_sat_forward(f2, bs, v);
                                        assert(satisfiable(f3));
                                    }
                                }
                            }
                        },
                    }
                },
                None => {
                    proof {
                        assert forall|v: spec_fn(Atom) -> bool|
                            agrees(v, bs) implies !cnf_sat(v, f2) by {
                            lemma_propagate_none_unsat(f2, bs, v);
                        }
                    }
                },
            }
            proof {
                assert(forall|v: spec_fn(Atom) -> bool| agrees(v, bs) ==> !cnf_sat(v, f2));
            }
            let nb = complement(&cnf2[0][0]);
            let ghost nbs = seq![nb];
            let mut assignment_false: Assignment<Atom> = Vec::new();
            assignment_false.push(dup_lit(&nb));
            proof {
                assert(assignment_false@ =~= nbs);
                assert(nb == negation_of(f2[0][0]));
            }
            match propagate_literals(&cnf2, &assignment_false) {
                Some(cnf4) => {
                    let ghost f4 = cnf_view(cnf4@);
                    proof {
                        assert(nbs.contains(negation_of(f2[0][0]))) by {
                            assert(nbs[0] == negation_of(f2[0][0]));
                        }
                        lemma_propagate_count_strict(f2, nbs, 0, 0);
                    }
                    match solve(&cnf4) {
                        Some(mut solution) => {
                            let ghost sol = solution@;
                            assignment.push(nb);
                            assignment.append(&mut solution);
                            proof {
                                assert(assignment@ =~= units + pures + nbs + sol);
                                lemma_branch_success(f0, units, pures, f1, f2, nb, f4, sol);
                                lemma_sound_sat(assignment@, f0);
                            }
                            return Some(assignment);
                        },
                        None => {
                            proof {
                                assert forall|v: spec_fn(Atom) -> bool|
                                    agrees(v, nbs) implies !cnf_sat(v, f2) by {
                                    if cnf_sat(v, f2) {
                                        lemma_propagate_sat_forward(f2, nbs, v);
                                        assert(satisfiable(f4));
                                    }
                                }
                            }
                        },
                    }
                },
                None => {
                    proof {
                        assert forall|v: spec_fn(Atom) -> bool|
                            agrees(v, nbs) implies !cnf_sat(v, f2) by {
                            lemma_propagate_none_unsat(f2, nbs, v);
                        }
                    }
                },
            }
            proof {
                assert(forall|v: spec_fn(Atom) -> bool| agrees(v, nbs) ==> !cnf_sat(v, f2));
                assert forall|v: spec_fn(Atom) -> bool| !cnf_sat(v, f0) by {
                    if cnf_sat(v, f0) {
                        lemma_collect_units_agrees(f0, v);
                        lemma_propagate_sat_forward(f0, units, v);
                        assert(cnf_sat(v, f2)) by {
                            assert forall|j3: int| 0 <= j3 < f2.len() implies clause_sat(
                                v,
                                f2[j3],
                            ) by {
                                let j2 = choose|j2: int|
                                    0 <= j2 < f1.len() && #[trigger] f2[j3] == f1[j2]
                                        && !clause_hit(f1[j2], pures);
                                assert(clause_sat(v, f1[j2]));
                            }
                        }
                        if lit_sat(v, b) {
                            assert(agrees(v, bs)) by {
                                assert(bs[0] == b);
                            }
                        } else {
                            assert(lit_sat(v, nb)) by {
                                assert(nb == negation_of(b));
                            }
                            assert(agrees(v, nbs)) by {
                                assert(nbs[0] == nb);
                            }
                        }
                    }
                }
            }
            None
        },
    }
}

} // verus!

