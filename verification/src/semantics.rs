//! The mathematical model of propositional satisfaction, together with the
//! lemmas relating the solver's simplification steps to it.
//!
//! A valuation assigns a truth value to every atom.  A literal is satisfied
//! when the valuation gives its atom the asserted polarity; a clause when
//! some literal of it is satisfied; a formula when every clause is.

use crate::repr::{negation_of, Literal};
use vstd::prelude::*;

verus! {

/// A literal is satisfied when the valuation maps its atom to its polarity.
pub open spec fn lit_sat<A>(v: spec_fn(A) -> bool, l: Literal<A>) -> bool {
    v(l.0) == l.1
}

/// A clause (disjunction) is satisfied when some literal of it is.
pub open spec fn clause_sat<A>(v: spec_fn(A) -> bool, c: Seq<Literal<A>>) -> bool {
    exists|i: int| 0 <= i < c.len() && lit_sat(v, c[i])
}

/// A formula (conjunction) is satisfied when every clause of it is.
pub open spec fn cnf_sat<A>(v: spec_fn(A) -> bool, f: Seq<Seq<Literal<A>>>) -> bool {
    forall|j: int| 0 <= j < f.len() ==> clause_sat(v, f[j])
}

/// A formula is satisfiable when some valuation satisfies it.
pub open spec fn satisfiable<A>(f: Seq<Seq<Literal<A>>>) -> bool {
    exists|v: spec_fn(A) -> bool| cnf_sat(v, f)
}

/// The valuation agrees with every decided literal of the assignment.
pub open spec fn agrees<A>(v: spec_fn(A) -> bool, asg: Seq<Literal<A>>) -> bool {
    forall|k: int| 0 <= k < asg.len() ==> lit_sat(v, asg[k])
}

/// Some literal of the assignment has the given atom.
pub open spec fn has_atom<A>(asg: Seq<Literal<A>>, a: A) -> bool {
    exists|k: int| 0 <= k < asg.len() && asg[k].0 == a
}

/// No atom is decided twice.  In particular no atom is decided with both
/// polarities, so some valuation agrees with the whole assignment.
pub open spec fn unique_atoms<A>(asg: Seq<Literal<A>>) -> bool {
    forall|k1: int, k2: int| 0 <= k1 < k2 < asg.len() ==> asg[k1].0 != asg[k2].0
}

/// The clause holds a literal that appears verbatim in the assignment.
pub open spec fn clause_hit<A>(c: Seq<Literal<A>>, asg: Seq<Literal<A>>) -> bool {
    exists|i: int| 0 <= i < c.len() && asg.contains(c[i])
}

/// Every clause of the formula holds a literal of the assignment, so
/// substituting the assignment satisfies every clause.
pub open spec fn covers<A>(asg: Seq<Literal<A>>, f: Seq<Seq<Literal<A>>>) -> bool {
    forall|j: int| 0 <= j < f.len() ==> clause_hit(f[j], asg)
}

/// The atom occurs somewhere in the formula.
pub open spec fn atom_in_cnf<A>(a: A, f: Seq<Seq<Literal<A>>>) -> bool {
    exists|j: int, i: int| 0 <= j < f.len() && 0 <= i < f[j].len() && f[j][i].0 == a
}

/// The literal occurs somewhere in the formula.
pub open spec fn lit_in_cnf<A>(l: Literal<A>, f: Seq<Seq<Literal<A>>>) -> bool {
    exists|j: int, i: int| 0 <= j < f.len() && 0 <= i < f[j].len() && f[j][i] == l
}

/// Every decided atom occurs in the formula.
pub open spec fn atoms_within<A>(asg: Seq<Literal<A>>, f: Seq<Seq<Literal<A>>>) -> bool {
    forall|k: int| 0 <= k < asg.len() ==> atom_in_cnf(asg[k].0, f)
}

/// The formula as a sequence of literal sequences.
pub open spec fn cnf_view<A>(f: Seq<Vec<Literal<A>>>) -> Seq<Seq<Literal<A>>> {
    f.map_values(|c: Vec<Literal<A>>| c@)
}

/// The total number of literal occurrences; the solver's termination measure.
pub open spec fn count_lits<A>(f: Seq<Seq<Literal<A>>>) -> nat
    decreases f.len(),
{
    if f.len() == 0 {
        0
    } else {
        count_lits(f.drop_last()) + f.last().len()
    }
}

/// The clause with its falsified literals removed: those whose negation is
/// decided by the assignment.
pub open spec fn reduce_clause<A>(c: Seq<Literal<A>>, asg: Seq<Literal<A>>) -> Seq<Literal<A>>
    decreases c.len(),
{
    if c.len() == 0 {
        Seq::empty()
    } else {
        let r = reduce_clause(c.drop_last(), asg);
        if asg.contains(negation_of(c.last())) {
            r
        } else {
            r.push(c.last())
        }
    }
}

/// One propagation pass: drop every clause holding a decided literal, shrink
/// the rest, and signal a conflict (`None`) when a clause becomes empty.
pub open spec fn propagate_model<A>(f: Seq<Seq<Literal<A>>>, asg: Seq<Literal<A>>) -> Option<
    Seq<Seq<Literal<A>>>,
>
    decreases f.len(),
{
    if f.len() == 0 {
        Some(Seq::empty())
    } else {
        match propagate_model(f.drop_last(), asg) {
            None => None,
            Some(g) => {
                let c = f.last();
                if clause_hit(c, asg) {
                    Some(g)
                } else if reduce_clause(c, asg).len() == 0 {
                    None
                } else {
                    Some(g.push(reduce_clause(c, asg)))
                }
            },
        }
    }
}

/// The forced literals of the formula: the first literal seen for each atom
/// that occurs in a singleton clause, in clause order.
pub open spec fn collect_units<A>(f: Seq<Seq<Literal<A>>>) -> Seq<Literal<A>>
    decreases f.len(),
{
    if f.len() == 0 {
        Seq::empty()
    } else {
        let prev = collect_units(f.drop_last());
        if f.last().len() == 1 && !has_atom(prev, f.last()[0].0) {
            prev.push(f.last()[0])
        } else {
            prev
        }
    }
}

/// The formula with every clause holding a literal of `asg` removed.
pub open spec fn drop_hit_clauses<A>(f: Seq<Seq<Literal<A>>>, asg: Seq<Literal<A>>) -> Seq<
    Seq<Literal<A>>,
>
    decreases f.len(),
{
    if f.len() == 0 {
        Seq::empty()
    } else {
        let r = drop_hit_clauses(f.drop_last(), asg);
        if clause_hit(f.last(), asg) {
            r
        } else {
            r.push(f.last())
        }
    }
}

/// The valuation read off an assignment: an atom is true exactly when the
/// assignment decides it positively.
pub open spec fn val_of<A>(asg: Seq<Literal<A>>) -> spec_fn(A) -> bool {
    |a: A| asg.contains(Literal(a, true))
}

/// The atom occurring at position `(j, i)` is pure: every occurrence of
/// it across the formula carries the same polarity.
#[verifier::opaque]
pub open spec fn pure_at<A>(f: Seq<Seq<Literal<A>>>, j: int, i: int) -> bool {
    forall|j2: int, i2: int|
        #![trigger f[j2][i2]]
        0 <= j2 < f.len() && 0 <= i2 < f[j2].len() && f[j2][i2].0 == f[j][i].0 ==> f[j2][i2].1
            == f[j][i].1
}

/// A conjunction of unit clauses no two of which are complementary.
pub open spec fn all_units_consistent<A>(f: Seq<Seq<Literal<A>>>) -> bool {
    &&& forall|j: int| 0 <= j < f.len() ==> f[j].len() == 1
    &&& forall|j1: int, j2: int|
        0 <= j1 < f.len() && 0 <= j2 < f.len() ==> f[j1][0] != negation_of(f[j2][0])
}

/// Appending a clause adds its length to the literal count.
pub proof fn lemma_count_lits_push<A>(f: Seq<Seq<Literal<A>>>, c: Seq<Literal<A>>)
    ensures
        count_lits(f.push(c)) == count_lits(f) + c.len(),
{
    assert(f.push(c).drop_last() =~= f);
    assert(f.push(c).last() == c);
}

/// Reduction keeps exactly the literals of the clause that are not
/// falsified, and never lengthens the clause.
pub proof fn lemma_reduce_clause_member<A>(c: Seq<Literal<A>>, asg: Seq<Literal<A>>)
    ensures
        reduce_clause(c, asg).len() <= c.len(),
        forall|x: Literal<A>|
            #[trigger] reduce_clause(c, asg).contains(x) ==> c.contains(x) && !asg.contains(
                negation_of(x),
            ),
        forall|i: int|
            0 <= i < c.len() && !asg.contains(negation_of(#[trigger] c[i]))
                ==> reduce_clause(c, asg).contains(c[i]),
    decreases c.len(),
{
    if c.len() > 0 {
        let d = c.drop_last();
        lemma_reduce_clause_member(d, asg);
        let r0 = reduce_clause(d, asg);
        let r = reduce_clause(c, asg);
        assert forall|x: Literal<A>| #[trigger] r.contains(x) implies c.contains(x)
            && !asg.contains(negation_of(x)) by {
            if r0.contains(x) {
                assert(c.contains(x)) by {
                    let i = choose|i: int| 0 <= i < d.len() && d[i] == x;
                    assert(c[i] == x);
                }
            } else {
                let i = choose|i: int| 0 <= i < r.len() && r[i] == x;
                assert(x == c.last());
                assert(c[c.len() - 1] == x);
            }
        }
        assert forall|i: int|
            0 <= i < c.len() && !asg.contains(negation_of(#[trigger] c[i])) implies r.contains(
            c[i],
        ) by {
            if i < c.len() - 1 {
                assert(d[i] == c[i]);
                assert(r0.contains(c[i]));
                let k = choose|k: int| 0 <= k < r0.len() && r0[k] == c[i];
                assert(r[k] == c[i]);
            } else {
                assert(c[i] == c.last());
                assert(r[r.len() - 1] == c.last());
            }
        }
    }
}

/// A clause with a falsified literal shrinks strictly under reduction.
pub proof fn lemma_reduce_clause_strict<A>(c: Seq<Literal<A>>, asg: Seq<Literal<A>>, i: int)
    requires
        0 <= i < c.len(),
        asg.contains(negation_of(c[i])),
    ensures
        reduce_clause(c, asg).len() < c.len(),
    decreases c.len(),
{
    let d = c.drop_last();
    lemma_reduce_clause_member(d, asg);
    if i < c.len() - 1 {
        assert(d[i] == c[i]);
        lemma_reduce_clause_strict(d, asg, i);
    }
}

/// Every clause of the input either holds a decided literal or has its
/// reduction among the output clauses.
pub proof fn lemma_propagate_covers<A>(
    f: Seq<Seq<Literal<A>>>,
    asg: Seq<Literal<A>>,
    g: Seq<Seq<Literal<A>>>,
    j: int,
)
    requires
        propagate_model(f, asg) == Some(g),
        0 <= j < f.len(),
    ensures
        clause_hit(f[j], asg) || exists|j2: int|
            0 <= j2 < g.len() && g[j2] == reduce_clause(f[j], asg),
    decreases f.len(),
{
    let d = f.drop_last();
    let g0 = propagate_model(d, asg)->Some_0;
    if j < f.len() - 1 {
        assert(d[j] == f[j]);
        lemma_propagate_covers(d, asg, g0, j);
        if !clause_hit(f[j], asg) {
            let j2 = choose|j2: int| 0 <= j2 < g0.len() && g0[j2] == reduce_clause(f[j], asg);
            assert(g[j2] == reduce_clause(f[j], asg));
        }
    } else {
        assert(f[j] == f.last());
        if !clause_hit(f.last(), asg) {
            assert(g[g.len() - 1] == reduce_clause(f[j], asg));
        }
    }
}

/// Every output clause is the nonempty reduction of an input clause that
/// holds no decided literal.
pub proof fn lemma_propagate_origin<A>(
    f: Seq<Seq<Literal<A>>>,
    asg: Seq<Literal<A>>,
    g: Seq<Seq<Literal<A>>>,
    j2: int,
)
    requires
        propagate_model(f, asg) == Some(g),
        0 <= j2 < g.len(),
    ensures
        g[j2].len() > 0,
        exists|j: int|
            0 <= j < f.len() && g[j2] == reduce_clause(#[trigger] f[j], asg) && !clause_hit(
                f[j],
                asg,
            ),
    decreases f.len(),
{
    let d = f.drop_last();
    let g0 = propagate_model(d, asg)->Some_0;
    if j2 < g0.len() {
        lemma_propagate_origin(d, asg, g0, j2);
        let j = choose|j: int|
            0 <= j < d.len() && g0[j2] == reduce_clause(d[j], asg) && !clause_hit(d[j], asg);
        assert(f[j] == d[j]);
        assert(g[j2] == reduce_clause(f[j], asg) && !clause_hit(f[j], asg));
    } else {
        assert(g[j2] == reduce_clause(f.last(), asg));
        assert(f[f.len() - 1] == f.last());
        assert(g[j2] == reduce_clause(f[f.len() - 1], asg) && !clause_hit(f[f.len() - 1], asg));
    }
}

/// Propagation never adds literal occurrences.
pub proof fn lemma_propagate_count<A>(f: Seq<Seq<Literal<A>>>, asg: Seq<Literal<A>>)
    requires
        propagate_model(f, asg) is Some,
    ensures
        count_lits(propagate_model(f, asg)->Some_0) <= count_lits(f),
    decreases f.len(),
{
    if f.len() > 0 {
        let d = f.drop_last();
        lemma_propagate_count(d, asg);
        let g0 = propagate_model(d, asg)->Some_0;
        let c = f.last();
        if !clause_hit(c, asg) && reduce_clause(c, asg).len() > 0 {
            lemma_reduce_clause_member(c, asg);
            lemma_count_lits_push(g0, reduce_clause(c, asg));
        }
    }
}

/// A pass that drops or shrinks some clause strictly lowers the literal
/// count: the decided literal either satisfies a clause, which is removed
/// whole, or falsifies one of its occurrences, which is removed from it.
pub proof fn lemma_propagate_count_strict<A>(
    f: Seq<Seq<Literal<A>>>,
    asg: Seq<Literal<A>>,
    j: int,
    i: int,
)
    requires
        propagate_model(f, asg) is Some,
        0 <= j < f.len(),
        0 <= i < f[j].len(),
        asg.contains(f[j][i]) || asg.contains(negation_of(f[j][i])),
    ensures
        count_lits(propagate_model(f, asg)->Some_0) < count_lits(f),
    decreases f.len(),
{
    let d = f.drop_last();
    let g0 = propagate_model(d, asg)->Some_0;
    let g = propagate_model(f, asg)->Some_0;
    let c = f.last();
    lemma_propagate_count(d, asg);
    if j < f.len() - 1 {
        assert(d[j] == f[j]);
        lemma_propagate_count_strict(d, asg, j, i);
        if !clause_hit(c, asg) && reduce_clause(c, asg).len() > 0 {
            lemma_reduce_clause_member(c, asg);
            lemma_count_lits_push(g0, reduce_clause(c, asg));
        }
    } else {
        assert(c == f[j]);
        if clause_hit(c, asg) {
            assert(count_lits(g) <= count_lits(d));
            assert(count_lits(f) == count_lits(d) + c.len());
        } else {
            assert(!asg.contains(c[i]));
            lemma_reduce_clause_strict(c, asg, i);
            lemma_count_lits_push(g0, reduce_clause(c, asg));
        }
    }
}

/// A valuation that agrees with the assignment and satisfies the input
/// satisfies the propagated output.
pub proof fn lemma_propagate_sat_forward<A>(
    f: Seq<Seq<Literal<A>>>,
    asg: Seq<Literal<A>>,
    v: spec_fn(A) -> bool,
)
    requires
        propagate_model(f, asg) is Some,
        agrees(v, asg),
        cnf_sat(v, f),
    ensures
        cnf_sat(v, propagate_model(f, asg)->Some_0),
    decreases f.len(),
{
    if f.len() > 0 {
        let d = f.drop_last();
        assert(cnf_sat(v, d)) by {
            assert(forall|j: int| 0 <= j < d.len() ==> d[j] == f[j]);
        }
        lemma_propagate_sat_forward(d, asg, v);
        let g0 = propagate_model(d, asg)->Some_0;
        let c = f.last();
        if !clause_hit(c, asg) {
            assert(clause_sat(v, c)) by {
                assert(f[f.len() - 1] == c);
            }
            let i = choose|i: int| 0 <= i < c.len() && lit_sat(v, c[i]);
            assert(!asg.contains(negation_of(c[i]))) by {
                if asg.contains(negation_of(c[i])) {
                    let k = choose|k: int| 0 <= k < asg.len() && asg[k] == negation_of(c[i]);
                    assert(lit_sat(v, asg[k]));
                }
            }
            lemma_reduce_clause_member(c, asg);
            let r = reduce_clause(c, asg);
            assert(r.contains(c[i]));
            let i2 = choose|i2: int| 0 <= i2 < r.len() && r[i2] == c[i];
            assert(clause_sat(v, r));
            let g = g0.push(r);
            assert forall|j: int| 0 <= j < g.len() implies clause_sat(v, g[j]) by {
                if j < g0.len() {
                    assert(g[j] == g0[j]);
                } else {
                    assert(g[j] == r);
                }
            }
        }
    }
}

/// A conflict means no valuation that agrees with the assignment satisfies
/// the input formula.
pub proof fn lemma_propagate_none_unsat<A>(
    f: Seq<Seq<Literal<A>>>,
    asg: Seq<Literal<A>>,
    v: spec_fn(A) -> bool,
)
    requires
        propagate_model(f, asg) is None,
        agrees(v, asg),
    ensures
        !cnf_sat(v, f),
    decreases f.len(),
{
    let d = f.drop_last();
    if propagate_model(d, asg) is None {
        lemma_propagate_none_unsat(d, asg, v);
        let j = choose|j: int| 0 <= j < d.len() && !clause_sat(v, d[j]);
        assert(f[j] == d[j]);
        assert(!clause_sat(v, f[j]));
    } else {
        let c = f.last();
        assert(!clause_hit(c, asg) && reduce_clause(c, asg).len() == 0);
        lemma_reduce_clause_member(c, asg);
        assert(!clause_sat(v, c)) by {
            assert forall|i: int| 0 <= i < c.len() implies !lit_sat(v, c[i]) by {
                assert(asg.contains(negation_of(c[i]))) by {
                    if !asg.contains(negation_of(c[i])) {
                        assert(reduce_clause(c, asg).contains(c[i]));
                    }
                }
                let k = choose|k: int| 0 <= k < asg.len() && asg[k] == negation_of(c[i]);
                assert(lit_sat(v, asg[k]));
            }
        }
        assert(f[f.len() - 1] == c);
        assert(!cnf_sat(v, f));
    }
}

/// Propagation output mentions no decided atom and only literals of the
/// input formula.
pub proof fn lemma_propagate_fresh_atoms<A>(
    f: Seq<Seq<Literal<A>>>,
    asg: Seq<Literal<A>>,
    g: Seq<Seq<Literal<A>>>,
    j2: int,
    i2: int,
)
    requires
        propagate_model(f, asg) == Some(g),
        0 <= j2 < g.len(),
        0 <= i2 < g[j2].len(),
    ensures
        !has_atom(asg, g[j2][i2].0),
        lit_in_cnf(g[j2][i2], f),
{
    lemma_propagate_origin(f, asg, g, j2);
    let j = choose|j: int|
        0 <= j < f.len() && g[j2] == reduce_clause(#[trigger] f[j], asg) && !clause_hit(f[j], asg);
    let c = f[j];
    let x = g[j2][i2];
    lemma_reduce_clause_member(c, asg);
    assert(reduce_clause(c, asg).contains(x));
    assert(c.contains(x) && !asg.contains(negation_of(x)));
    let i = choose|i: int| 0 <= i < c.len() && c[i] == x;
    assert(!asg.contains(c[i]));
    assert(lit_in_cnf(x, f)) by {
        assert(0 <= j < f.len() && 0 <= i < f[j].len() && f[j][i] == x);
    }
    if has_atom(asg, x.0) {
        let k = choose|k: int| 0 <= k < asg.len() && asg[k].0 == x.0;
        if asg[k].1 == x.1 {
            assert(asg[k] == x);
            assert(asg.contains(x));
        } else {
            assert(asg[k] == negation_of(x));
            assert(asg.contains(negation_of(x)));
        }
    }
}

/// The collected units decide each atom at most once.
pub proof fn lemma_collect_units_unique<A>(f: Seq<Seq<Literal<A>>>)
    ensures
        unique_atoms(collect_units(f)),
    decreases f.len(),
{
    if f.len() > 0 {
        let d = f.drop_last();
        lemma_collect_units_unique(d);
        let prev = collect_units(d);
        let u = collect_units(f);
        if u != prev {
            assert forall|k1: int, k2: int| 0 <= k1 < k2 < u.len() implies u[k1].0 != u[k2].0 by {
                if k2 == u.len() - 1 {
                    assert(!has_atom(prev, u[k2].0));
                    assert(prev[k1] == u[k1]);
                } else {
                    assert(prev[k1] == u[k1] && prev[k2] == u[k2]);
                }
            }
        }
    }
}

/// Every collected unit is the literal of some singleton clause.
pub proof fn lemma_collect_units_elem<A>(f: Seq<Seq<Literal<A>>>, k: int)
    requires
        0 <= k < collect_units(f).len(),
    ensures
        exists|j: int|
            0 <= j < f.len() && #[trigger] f[j].len() == 1 && f[j][0] == collect_units(f)[k],
    decreases f.len(),
{
    let d = f.drop_last();
    let prev = collect_units(d);
    if k < prev.len() {
        lemma_collect_units_elem(d, k);
        let j = choose|j: int|
            0 <= j < d.len() && #[trigger] d[j].len() == 1 && d[j][0] == prev[k];
        assert(f[j] == d[j]);
        assert(f[j].len() == 1 && f[j][0] == collect_units(f)[k]);
    } else {
        assert(f[f.len() - 1] == f.last());
        assert(f[f.len() - 1].len() == 1 && f[f.len() - 1][0] == collect_units(f)[k]);
    }
}

/// The atom of every singleton clause is decided by the collected units.
pub proof fn lemma_collect_units_atom<A>(f: Seq<Seq<Literal<A>>>, j: int)
    requires
        0 <= j < f.len(),
        f[j].len() == 1,
    ensures
        has_atom(collect_units(f), f[j][0].0),
    decreases f.len(),
{
    let d = f.drop_last();
    let prev = collect_units(d);
    let u = collect_units(f);
    assert(forall|k: int| 0 <= k < prev.len() ==> u[k] == prev[k]);
    if j < f.len() - 1 {
        assert(d[j] == f[j]);
        lemma_collect_units_atom(d, j);
        let k = choose|k: int| 0 <= k < prev.len() && prev[k].0 == d[j][0].0;
        assert(u[k].0 == f[j][0].0);
    } else {
        assert(f[j] == f.last());
        if has_atom(prev, f.last()[0].0) {
            let k = choose|k: int| 0 <= k < prev.len() && prev[k].0 == f.last()[0].0;
            assert(u[k].0 == f[j][0].0);
        } else {
            assert(u[u.len() - 1] == f.last()[0]);
        }
    }
}

/// A valuation satisfying the formula agrees with every forced literal.
pub proof fn lemma_collect_units_agrees<A>(f: Seq<Seq<Literal<A>>>, v: spec_fn(A) -> bool)
    requires
        cnf_sat(v, f),
    ensures
        agrees(v, collect_units(f)),
{
    let u = collect_units(f);
    assert forall|k: int| 0 <= k < u.len() implies lit_sat(v, u[k]) by {
        lemma_collect_units_elem(f, k);
        let j = choose|j: int| 0 <= j < f.len() && #[trigger] f[j].len() == 1 && f[j][0] == u[k];
        assert(clause_sat(v, f[j]));
        let i = choose|i: int| 0 <= i < f[j].len() && lit_sat(v, f[j][i]);
        assert(i == 0);
    }
}

/// Dropping hit clauses keeps a subfamily of the input: every kept clause is
/// an unhit input clause, every dropped clause was hit, and the literal
/// count never grows.
pub proof fn lemma_drop_hit_member<A>(f: Seq<Seq<Literal<A>>>, asg: Seq<Literal<A>>)
    ensures
        forall|j2: int|
            0 <= j2 < drop_hit_clauses(f, asg).len() ==> exists|j: int|
                0 <= j < f.len() && #[trigger] drop_hit_clauses(f, asg)[j2] == f[j]
                    && !clause_hit(f[j], asg),
        forall|j: int|
            0 <= j < f.len() ==> clause_hit(#[trigger] f[j], asg) || exists|j2: int|
                0 <= j2 < drop_hit_clauses(f, asg).len() && drop_hit_clauses(f, asg)[j2] == f[j],
        count_lits(drop_hit_clauses(f, asg)) <= count_lits(f),
    decreases f.len(),
{
    if f.len() > 0 {
        let d = f.drop_last();
        lemma_drop_hit_member(d, asg);
        let r0 = drop_hit_clauses(d, asg);
        let r = drop_hit_clauses(f, asg);
        assert(forall|j: int| 0 <= j < d.len() ==> f[j] == d[j]);
        if !clause_hit(f.last(), asg) {
            lemma_count_lits_push(r0, f.last());
        }
        assert forall|j2: int| 0 <= j2 < r.len() implies exists|j: int|
            0 <= j < f.len() && #[trigger] r[j2] == f[j] && !clause_hit(f[j], asg) by {
            if j2 < r0.len() {
                let j = choose|j: int|
                    0 <= j < d.len() && #[trigger] r0[j2] == d[j] && !clause_hit(d[j], asg);
                assert(r[j2] == f[j] && !clause_hit(f[j], asg));
            } else {
                assert(r[j2] == f.last());
                assert(r[j2] == f[f.len() - 1] && !clause_hit(f[f.len() - 1], asg));
            }
        }
        assert forall|j: int|
            0 <= j < f.len() && !clause_hit(#[trigger] f[j], asg) implies exists|j2: int|
            0 <= j2 < r.len() && r[j2] == f[j] by {
            if j < f.len() - 1 {
                let j2 = choose|j2: int| 0 <= j2 < r0.len() && r0[j2] == d[j];
                assert(r[j2] == f[j]);
            } else {
                assert(r[r.len() - 1] == f[j]);
            }
        }
    }
}

/// Substituting a covering assignment satisfies the formula under any
/// valuation that agrees with the assignment.
pub proof fn lemma_covers_sat<A>(
    asg: Seq<Literal<A>>,
    f: Seq<Seq<Literal<A>>>,
    v: spec_fn(A) -> bool,
)
    requires
        covers(asg, f),
        agrees(v, asg),
    ensures
        cnf_sat(v, f),
{
    assert forall|j: int| 0 <= j < f.len() implies clause_sat(v, f[j]) by {
        assert(clause_hit(f[j], asg));
        let i = choose|i: int| 0 <= i < f[j].len() && asg.contains(f[j][i]);
        let k = choose|k: int| 0 <= k < asg.len() && asg[k] == f[j][i];
        assert(lit_sat(v, asg[k]));
    }
}

/// An assignment that decides each atom once is consistent: the valuation
/// read off it agrees with every decided literal.
pub proof fn lemma_val_of_agrees<A>(asg: Seq<Literal<A>>)
    requires
        unique_atoms(asg),
    ensures
        agrees(val_of(asg), asg),
{
    let v = val_of(asg);
    assert forall|k: int| 0 <= k < asg.len() implies lit_sat(v, asg[k]) by {
        let l = asg[k];
        if l.1 {
            assert(asg.contains(Literal(l.0, true))) by {
                assert(asg[k] == Literal(l.0, true));
            }
        } else {
            if asg.contains(Literal(l.0, true)) {
                let k2 = choose|k2: int| 0 <= k2 < asg.len() && asg[k2] == Literal(l.0, true);
                assert(asg[k2].0 == asg[k].0 && k2 != k);
            }
        }
    }
}

/// A formula whose every clause holds a decided literal propagates to the
/// empty formula.
pub proof fn lemma_all_hit_propagate_empty<A>(f: Seq<Seq<Literal<A>>>, asg: Seq<Literal<A>>)
    requires
        forall|j: int| 0 <= j < f.len() ==> clause_hit(#[trigger] f[j], asg),
    ensures
        propagate_model(f, asg) == Some(Seq::<Seq<Literal<A>>>::empty()),
    decreases f.len(),
{
    if f.len() > 0 {
        let d = f.drop_last();
        assert(forall|j: int| 0 <= j < d.len() ==> d[j] == f[j]);
        lemma_all_hit_propagate_empty(d, asg);
        assert(f[f.len() - 1] == f.last());
        assert(clause_hit(f.last(), asg));
    }
}

/// In a consistent conjunction of unit clauses, the collected units hit
/// every clause.
pub proof fn lemma_units_hit_all<A>(f: Seq<Seq<Literal<A>>>)
    requires
        all_units_consistent(f),
    ensures
        forall|j: int| 0 <= j < f.len() ==> clause_hit(#[trigger] f[j], collect_units(f)),
{
    let u = collect_units(f);
    assert forall|j: int| 0 <= j < f.len() implies clause_hit(f[j], u) by {
        lemma_collect_units_atom(f, j);
        let k = choose|k: int| 0 <= k < u.len() && u[k].0 == f[j][0].0;
        lemma_collect_units_elem(f, k);
        let j2 = choose|j2: int|
            0 <= j2 < f.len() && #[trigger] f[j2].len() == 1 && f[j2][0] == u[k];
        if u[k].1 != f[j][0].1 {
            assert(f[j2][0] == negation_of(f[j][0]));
        } else {
            assert(u[k] == f[j][0]);
            assert(u.contains(f[j][0]));
        }
    }
}

/// Concatenating assignments over disjoint atoms keeps atoms unique.
pub proof fn lemma_concat_unique<A>(a: Seq<Literal<A>>, b: Seq<Literal<A>>)
    requires
        unique_atoms(a),
        unique_atoms(b),
        forall|k1: int, k2: int|
            0 <= k1 < a.len() && 0 <= k2 < b.len() ==> #[trigger] a[k1].0 != #[trigger] b[k2].0,
    ensures
        unique_atoms(a + b),
{
    let c = a + b;
    assert forall|k1: int, k2: int| 0 <= k1 < k2 < c.len() implies c[k1].0 != c[k2].0 by {
        if k1 < a.len() {
            assert(c[k1] == a[k1]);
        } else {
            assert(c[k1] == b[k1 - a.len()]);
        }
        if k2 < a.len() {
            assert(c[k2] == a[k2]);
        } else {
            assert(c[k2] == b[k2 - a.len()]);
        }
    }
}

/// A member of either part is a member of the concatenation.
pub proof fn lemma_contains_lift<A>(a: Seq<Literal<A>>, b: Seq<Literal<A>>, x: Literal<A>)
    requires
        a.contains(x) || b.contains(x),
    ensures
        (a + b).contains(x),
{
    if a.contains(x) {
        let i = choose|i: int| 0 <= i < a.len() && a[i] == x;
        assert((a + b)[i] == x);
    } else {
        let i = choose|i: int| 0 <= i < b.len() && b[i] == x;
        assert((a + b)[a.len() + i] == x);
    }
}

/// An atom-unique covering assignment witnesses satisfiability.
pub proof fn lemma_sound_sat<A>(asg: Seq<Literal<A>>, f: Seq<Seq<Literal<A>>>)
    requires
        unique_atoms(asg),
        covers(asg, f),
    ensures
        satisfiable(f),
{
    lemma_val_of_agrees(asg);
    lemma_covers_sat(asg, f, val_of(asg));
}

/// Two opposite singleton clauses over one atom admit no satisfying
/// valuation: the first forces the atom true of the valuation, the second
/// forces it false.
pub proof fn lemma_opposite_units_unsat<A>(a: A)
    ensures
        !satisfiable(seq![seq![Literal(a, true)], seq![Literal(a, false)]]),
{
    let f = seq![seq![Literal(a, true)], seq![Literal(a, false)]];
    assert forall|v: spec_fn(A) -> bool| !cnf_sat(v, f) by {
        if cnf_sat(v, f) {
            assert(clause_sat(v, f[0]));
            assert(clause_sat(v, f[1]));
            let i0 = choose|i: int| 0 <= i < f[0].len() && lit_sat(v, f[0][i]);
            let i1 = choose|i: int| 0 <= i < f[1].len() && lit_sat(v, f[1][i]);
            assert(v(a) == true && v(a) == false);
        }
    }
}

/// A single clause asserting an atom with both polarities is satisfiable:
/// any valuation satisfies one of the two literals.
pub proof fn lemma_tautology_satisfiable<A>(a: A)
    ensures
        satisfiable(seq![seq![Literal(a, true), Literal(a, false)]]),
{
    let f = seq![seq![Literal(a, true), Literal(a, false)]];
    let v = (|x: A| true);
    assert(cnf_sat(v, f)) by {
        assert forall|j: int| 0 <= j < f.len() implies clause_sat(v, f[j]) by {
            assert(lit_sat(v, f[0][0]));
        }
    }
}

} // verus!
