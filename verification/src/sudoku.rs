//! Sudoku solving as satisfiability: encodes a 9x9 grid into clauses over
//! cell-and-digit propositions, hands the formula to the solver, and
//! renders a satisfying assignment back into grid text.

use crate::repr::{atom_reliable, Clause, Literal, CNF};
use crate::semantics::{
    atom_in_cnf, clause_sat, cnf_sat, cnf_view, lemma_covers_sat, lemma_val_of_agrees, lit_sat,
    satisfiable, unique_atoms, val_of,
};
use crate::solve::solve;
use vstd::pervasive::VecAdditionalExecFns;
use vstd::prelude::*;

verus! {

/// A cell-and-digit proposition: the cell at `row_col` (row-major index)
/// holds the digit `val`.
#[derive(Debug, Eq, Hash)]
pub struct SudokuCell {
    pub row_col: u8,
    pub val: u8,
}

/// The atom describes a real cell of a 9x9 grid and a real digit.
pub open spec fn cell_ok(c: SudokuCell) -> bool {
    c.row_col < 81 && 1 <= c.val <= 9
}

/// Every atom of the formula describes a real cell and digit.
pub open spec fn sudoku_cnf_ok(f: Seq<Seq<Literal<SudokuCell>>>) -> bool {
    forall|j: int, i: int|
        #![trigger f[j][i]]
        0 <= j < f.len() && 0 <= i < f[j].len() ==> cell_ok(f[j][i].0)
}

impl PartialEq for SudokuCell {
    fn eq(&self, other: &Self) -> (r: bool) {
        self.row_col == other.row_col && self.val == other.val
    }
}

impl vstd::std_specs::cmp::PartialEqSpecImpl for SudokuCell {
    open spec fn obeys_eq_spec() -> bool {
        true
    }

    open spec fn eq_spec(&self, other: &Self) -> bool {
        self.row_col == other.row_col && self.val == other.val
    }
}

impl Clone for SudokuCell {
    fn clone(&self) -> (r: Self)
        ensures
            r == *self,
    {
        SudokuCell { row_col: self.row_col, val: self.val }
    }
}

/// Cell atoms meet the solver's atom contract: `==` decides identity and
/// duplication is exact.
pub proof fn lemma_sudoku_atoms_reliable()
    ensures
        atom_reliable::<SudokuCell>(),
{
    reveal(vstd::laws_eq::obeys_concrete_eq);
    assert forall|x: SudokuCell, y: SudokuCell| #[trigger]
        vstd::pervasive::cloned::<SudokuCell>(x, y) implies y == x by {
        if vstd::pervasive::strictly_cloned::<SudokuCell>(x, y) {
            assert(call_ensures(SudokuCell::clone, (&x,), y));
        }
    }
}

impl SudokuCell {
    /// The proposition that the cell in the given row and column holds the
    /// given digit.
    pub fn new(row: u8, col: u8, val: u8) -> (r: Self)
        requires
            row < 9,
            col < 9,
        ensures
            r.row_col == row * 9 + col,
            r.val == val,
    {
        Self { row_col: row * 9 + col, val }
    }

    /// The cell's row, column and digit.
    pub fn as_tuple(&self) -> (r: (usize, usize, u8))
        ensures
            r.0 == self.row_col as int / 9,
            r.1 == self.row_col as int % 9,
            r.2 == self.val,
    {
        (self.row_col as usize / 9, self.row_col as usize % 9, self.val)
    }
}

/// The cell-and-digit atom of the given row, column and digit.
pub open spec fn cell_at(row: int, col: int, val: int) -> SudokuCell {
    SudokuCell { row_col: (row * 9 + col) as u8, val: val as u8 }
}

/// Two cell positions of the grid (row-major indices) share a row, a
/// column, or a 3x3 block.
pub open spec fn same_unit(p: int, q: int) -> bool {
    ||| p / 9 == q / 9
    ||| p % 9 == q % 9
    ||| ((p / 9) / 3 == (q / 9) / 3 && (p % 9) / 3 == (q % 9) / 3)
}

/// A pair of atoms an exclusion clause ranges over: two distinct cells
/// sharing a unit, both asserting the same digit.
pub open spec fn excl_pair_ok(a: SudokuCell, b: SudokuCell) -> bool {
    &&& cell_ok(a)
    &&& cell_ok(b)
    &&& a.val == b.val
    &&& a.row_col != b.row_col
    &&& same_unit(a.row_col as int, b.row_col as int)
}

/// The clause forbidding two cell-and-digit atoms from holding together.
pub open spec fn excl_clause(a: SudokuCell, b: SudokuCell) -> Seq<Literal<SudokuCell>> {
    seq![Literal(a, false), Literal(b, false)]
}

/// The clause is a two-literal all-negative exclusion over a legal pair.
pub open spec fn is_excl_clause(c: Seq<Literal<SudokuCell>>) -> bool {
    c.len() == 2 && c[0].1 == false && c[1].1 == false && excl_pair_ok(c[0].0, c[1].0)
}

/// Every clause of the formula is an exclusion clause over a legal pair.
pub open spec fn all_excl(f: Seq<Seq<Literal<SudokuCell>>>) -> bool {
    forall|j: int| 0 <= j < f.len() ==> is_excl_clause(#[trigger] f[j])
}

/// The formula holds the exclusion clause of the pair, in either order.
pub open spec fn excl_present(
    f: Seq<Seq<Literal<SudokuCell>>>,
    a: SudokuCell,
    b: SudokuCell,
) -> bool {
    exists|j: int|
        0 <= j < f.len() && ((#[trigger] f[j]) == excl_clause(a, b) || f[j] == excl_clause(b, a))
}

/// Row-major splitting of a cell position into its row and column.
proof fn lemma_cell_at_coords(row: int, col: int, val: int)
    requires
        0 <= row < 9,
        0 <= col < 9,
        1 <= val <= 9,
    ensures
        cell_ok(cell_at(row, col, val)),
        cell_at(row, col, val).row_col == row * 9 + col,
        cell_at(row, col, val).row_col as int / 9 == row,
        cell_at(row, col, val).row_col as int % 9 == col,
        cell_at(row, col, val).val == val,
{
    assert((row * 9 + col) / 9 == row && (row * 9 + col) % 9 == col) by (nonlinear_arith)
        requires
            0 <= row < 9,
            0 <= col < 9,
    ;
}

/// Two cells of one column with the same digit form a legal exclusion pair.
proof fn lemma_col_pair(r1: int, r2: int, c: int, v: int)
    requires
        0 <= r1 < 9,
        0 <= r2 < 9,
        r1 != r2,
        0 <= c < 9,
        1 <= v <= 9,
    ensures
        excl_pair_ok(cell_at(r1, c, v), cell_at(r2, c, v)),
{
    lemma_cell_at_coords(r1, c, v);
    lemma_cell_at_coords(r2, c, v);
}

/// Two cells of one row with the same digit form a legal exclusion pair.
proof fn lemma_row_pair(r: int, c1: int, c2: int, v: int)
    requires
        0 <= r < 9,
        0 <= c1 < 9,
        0 <= c2 < 9,
        c1 != c2,
        1 <= v <= 9,
    ensures
        excl_pair_ok(cell_at(r, c1, v), cell_at(r, c2, v)),
{
    lemma_cell_at_coords(r, c1, v);
    lemma_cell_at_coords(r, c2, v);
}

/// Two distinct cells of one 3x3 block with the same digit form a legal
/// exclusion pair; cells within the block are numbered row-major 0..9.
proof fn lemma_block_pair(h: int, w: int, i1: int, i2: int, v: int)
    requires
        0 <= h < 3,
        0 <= w < 3,
        0 <= i1 < 9,
        0 <= i2 < 9,
        i1 != i2,
        1 <= v <= 9,
    ensures
        excl_pair_ok(
            cell_at(3 * h + i1 / 3, 3 * w + i1 % 3, v),
            cell_at(3 * h + i2 / 3, 3 * w + i2 % 3, v),
        ),
{
    let a = cell_at(3 * h + i1 / 3, 3 * w + i1 % 3, v);
    let b = cell_at(3 * h + i2 / 3, 3 * w + i2 % 3, v);
    lemma_cell_at_coords(3 * h + i1 / 3, 3 * w + i1 % 3, v);
    lemma_cell_at_coords(3 * h + i2 / 3, 3 * w + i2 % 3, v);
    assert((3 * h + i1 / 3) / 3 == h && (3 * w + i1 % 3) / 3 == w) by (nonlinear_arith)
        requires
            0 <= h < 3,
            0 <= w < 3,
            0 <= i1 < 9,
    ;
    assert((3 * h + i2 / 3) / 3 == h && (3 * w + i2 % 3) / 3 == w) by (nonlinear_arith)
        requires
            0 <= h < 3,
            0 <= w < 3,
            0 <= i2 < 9,
    ;
    assert(a.row_col != b.row_col) by {
        if i1 / 3 != i2 / 3 {
            assert(a.row_col as int / 9 != b.row_col as int / 9);
        } else {
            assert(i1 % 3 != i2 % 3);
            assert(a.row_col as int % 9 != b.row_col as int % 9);
        }
    }
}

/// Appending a clause keeps every present pair present.
proof fn lemma_excl_present_grow(
    f: Seq<Seq<Literal<SudokuCell>>>,
    cl: Seq<Literal<SudokuCell>>,
    a: SudokuCell,
    b: SudokuCell,
)
    requires
        excl_present(f, a, b),
    ensures
        excl_present(f.push(cl), a, b),
{
    let j = choose|j: int|
        0 <= j < f.len() && ((#[trigger] f[j]) == excl_clause(a, b) || f[j] == excl_clause(b, a));
    assert(f.push(cl)[j] == f[j]);
}

/// Appends the clause "not both": the two cells-and-digits cannot hold
/// together.
fn push_exclusion(cnf: &mut CNF<SudokuCell>, a: SudokuCell, b: SudokuCell)
    ensures
        cnf_view(final (cnf)@) == cnf_view(old(cnf)@).push(excl_clause(a, b)),
{
    let ghost g0 = cnf@;
    let mut clause: Clause<SudokuCell> = Vec::new();
    clause.push(Literal::negated(a));
    clause.push(Literal::negated(b));
    proof {
        assert(clause@ =~= excl_clause(a, b));
    }
    cnf.push(clause);
    proof {
        assert(cnf_view(cnf@) =~= cnf_view(g0).push(excl_clause(a, b)));
    }
}

/// The column-pair clauses emitted so far, in emission order: all pairs
/// lexicographically before the given loop position.
spec fn col_pairs_done(
    f: Seq<Seq<Literal<SudokuCell>>>,
    r1b: int,
    r2b: int,
    cb: int,
    vb: int,
) -> bool {
    forall|r1: int, r2: int, c: int, v: int|
        #![trigger excl_present(f, cell_at(r1, c, v), cell_at(r2, c, v))]
        0 <= r1 < r2 < 9 && 0 <= c < 9 && 1 <= v <= 9 && lex4(r1, r2, c, v, r1b, r2b, cb, vb)
            ==> excl_present(f, cell_at(r1, c, v), cell_at(r2, c, v))
}

/// The row-pair clauses emitted so far.
spec fn row_pairs_done(
    f: Seq<Seq<Literal<SudokuCell>>>,
    rb: int,
    c1b: int,
    c2b: int,
    vb: int,
) -> bool {
    forall|r: int, c1: int, c2: int, v: int|
        #![trigger excl_present(f, cell_at(r, c1, v), cell_at(r, c2, v))]
        0 <= r < 9 && 0 <= c1 < c2 < 9 && 1 <= v <= 9 && lex4(r, c1, c2, v, rb, c1b, c2b, vb)
            ==> excl_present(f, cell_at(r, c1, v), cell_at(r, c2, v))
}

/// The block-pair clauses emitted so far.
spec fn block_pairs_done(
    f: Seq<Seq<Literal<SudokuCell>>>,
    hb: int,
    wb: int,
    i1b: int,
    i2b: int,
    vb: int,
) -> bool {
    forall|h: int, w: int, i1: int, i2: int, v: int|
        #![trigger excl_present(f, cell_at(3 * h + i1 / 3, 3 * w + i1 % 3, v), cell_at(3 * h + i2 / 3, 3 * w + i2 % 3, v))]
        0 <= h < 3 && 0 <= w < 3 && 0 <= i1 < i2 < 9 && 1 <= v <= 9 && lex5(
            h,
            w,
            i1,
            i2,
            v,
            hb,
            wb,
            i1b,
            i2b,
            vb,
        ) ==> excl_present(
            f,
            cell_at(3 * h + i1 / 3, 3 * w + i1 % 3, v),
            cell_at(3 * h + i2 / 3, 3 * w + i2 % 3, v),
        )
}

/// Strict lexicographic order on quadruples.
spec fn lex4(a: int, b: int, c: int, d: int, a2: int, b2: int, c2: int, d2: int) -> bool {
    ||| a < a2
    ||| (a == a2 && b < b2)
    ||| (a == a2 && b == b2 && c < c2)
    ||| (a == a2 && b == b2 && c == c2 && d < d2)
}

/// Strict lexicographic order on quintuples.
spec fn lex5(
    a: int,
    b: int,
    c: int,
    d: int,
    e: int,
    a2: int,
    b2: int,
    c2: int,
    d2: int,
    e2: int,
) -> bool {
    ||| a < a2
    ||| (a == a2 && lex4(b, c, d, e, b2, c2, d2, e2))
}

/// Every legal exclusion pair is covered once the three clause families
/// (column pairs, row pairs, block pairs) are complete.
proof fn lemma_families_cover(f: Seq<Seq<Literal<SudokuCell>>>)
    requires
        col_pairs_done(f, 9, 0, 0, 0),
        row_pairs_done(f, 9, 0, 0, 0),
        block_pairs_done(f, 3, 0, 0, 0, 0),
    ensures
        forall|a: SudokuCell, b: SudokuCell| #[trigger]
            excl_pair_ok(a, b) ==> excl_present(f, a, b),
{
    assert forall|a: SudokuCell, b: SudokuCell| #[trigger] excl_pair_ok(a, b) implies excl_present(
        f,
        a,
        b,
    ) by {
        let p = a.row_col as int;
        let q = b.row_col as int;
        let v = a.val as int;
        let rp = p / 9;
        let cp = p % 9;
        let rq = q / 9;
        let cq = q % 9;
        assert(p == 9 * rp + cp && 0 <= rp < 9 && 0 <= cp < 9) by (nonlinear_arith)
            requires
                0 <= p < 81,
                rp == p / 9,
                cp == p % 9,
        ;
        assert(q == 9 * rq + cq && 0 <= rq < 9 && 0 <= cq < 9) by (nonlinear_arith)
            requires
                0 <= q < 81,
                rq == q / 9,
                cq == q % 9,
        ;
        lemma_cell_at_coords(rp, cp, v);
        lemma_cell_at_coords(rq, cq, v);
        assert(cell_at(rp, cp, v) == a && cell_at(rq, cq, v) == b);
        if cp == cq {
            // same column
            assert(rp != rq);
            if rp < rq {
                assert(lex4(rp, rq, cp, v, 9, 0, 0, 0));
                assert(excl_present(f, cell_at(rp, cp, v), cell_at(rq, cp, v)));
            } else {
                assert(lex4(rq, rp, cp, v, 9, 0, 0, 0));
                assert(excl_present(f, cell_at(rq, cp, v), cell_at(rp, cp, v)));
            }
        } else if rp == rq {
            // same row
            if cp < cq {
                assert(lex4(rp, cp, cq, v, 9, 0, 0, 0));
                assert(excl_present(f, cell_at(rp, cp, v), cell_at(rp, cq, v)));
            } else {
                assert(lex4(rp, cq, cp, v, 9, 0, 0, 0));
                assert(excl_present(f, cell_at(rp, cq, v), cell_at(rp, cp, v)));
            }
        } else {
            // distinct row and column, so the shared unit is the block
            assert(rp / 3 == rq / 3 && cp / 3 == cq / 3);
            let h = rp / 3;
            let w = cp / 3;
            let i1 = 3 * (rp % 3) + cp % 3;
            let i2 = 3 * (rq % 3) + cq % 3;
            assert(0 <= h < 3 && 0 <= w < 3 && 0 <= i1 < 9 && 0 <= i2 < 9 && i1 / 3 == rp % 3 && i1
                % 3 == cp % 3 && i2 / 3 == rq % 3 && i2 % 3 == cq % 3) by (nonlinear_arith)
                requires
                    0 <= rp < 9,
                    0 <= cp < 9,
                    0 <= rq < 9,
                    0 <= cq < 9,
                    h == rp / 3,
                    w == cp / 3,
                    i1 == 3 * (rp % 3) + cp % 3,
                    i2 == 3 * (rq % 3) + cq % 3,
            ;
            assert(3 * h + i1 / 3 == rp && 3 * w + i1 % 3 == cp) by (nonlinear_arith)
                requires
                    0 <= rp < 9,
                    0 <= cp < 9,
                    h == rp / 3,
                    w == cp / 3,
                    i1 / 3 == rp % 3,
                    i1 % 3 == cp % 3,
            ;
            assert(3 * h + i2 / 3 == rq && 3 * w + i2 % 3 == cq) by (nonlinear_arith)
                requires
                    0 <= rq < 9,
                    0 <= cq < 9,
                    h == rq / 3,
                    w == cq / 3,
                    i2 / 3 == rq % 3,
                    i2 % 3 == cq % 3,
            ;
            assert(i1 != i2) by {
                if i1 == i2 {
                    assert(rp % 3 == rq % 3 && cp % 3 == cq % 3);
                    assert(rp == 3 * (rp / 3) + rp % 3 && rq == 3 * (rq / 3) + rq % 3)
                        by (nonlinear_arith)
                        requires
                            0 <= rp < 9,
                            0 <= rq < 9,
                    ;
                    assert(cp == 3 * (cp / 3) + cp % 3 && cq == 3 * (cq / 3) + cq % 3)
                        by (nonlinear_arith)
                        requires
                            0 <= cp < 9,
                            0 <= cq < 9,
                    ;
                }
            }
            if i1 < i2 {
                assert(lex5(h, w, i1, i2, v, 3, 0, 0, 0, 0));
                assert(excl_present(
                    f,
                    cell_at(3 * h + i1 / 3, 3 * w + i1 % 3, v),
                    cell_at(3 * h + i2 / 3, 3 * w + i2 % 3, v),
                ));
            } else {
                assert(lex5(h, w, i2, i1, v, 3, 0, 0, 0, 0));
                assert(excl_present(
                    f,
                    cell_at(3 * h + i2 / 3, 3 * w + i2 % 3, v),
                    cell_at(3 * h + i1 / 3, 3 * w + i1 % 3, v),
                ));
            }
        }
    }
}

/// Builds the exclusion clauses of a 9x9 grid: no two cells of a column,
/// a row or a 3x3 block may hold the same digit.  Every clause is such an
/// exclusion, every legal pair's exclusion is among the clauses, and the
/// three families emit 2916 clauses each (36 cell pairs per unit group,
/// nine units or blocks, nine digits); a pair sharing both a column and a
/// block gets its clause from both families.
fn sudoku_constraints() -> (r: CNF<SudokuCell>)
    ensures
        all_excl(cnf_view(r@)),
        forall|a: SudokuCell, b: SudokuCell| #[trigger]
            excl_pair_ok(a, b) ==> excl_present(cnf_view(r@), a, b),
        cnf_view(r@).len() == 8748,
{
    let mut cnf: CNF<SudokuCell> = Vec::new();
    // no two cells in a column of the grid share a value
    let mut row: u8 = 0;
    while row < 8
        invariant
            row <= 8,
            all_excl(cnf_view(cnf@)),
            col_pairs_done(cnf_view(cnf@), row as int, 0, 0, 0),
            2 * cnf@.len() == 81 * (17 * (row as int) - (row as int) * (row as int)),
        decreases 8 - row,
    {
        let ghost lr = cnf@.len() as int;
        let mut other: u8 = row + 1;
        while other < 9
            invariant
                row < 8,
                row < other <= 9,
                all_excl(cnf_view(cnf@)),
                col_pairs_done(cnf_view(cnf@), row as int, other as int, 0, 0),
                cnf@.len() == lr + (other - row - 1) * 81,
            decreases 9 - other,
        {
            let ghost lo = cnf@.len() as int;
            let mut col: u8 = 0;
            while col < 9
                invariant
                    row < 8,
                    row < other < 9,
                    col <= 9,
                    all_excl(cnf_view(cnf@)),
                    col_pairs_done(cnf_view(cnf@), row as int, other as int, col as int, 1),
                    cnf@.len() == lo + col * 9,
                decreases 9 - col,
            {
                let ghost lc = cnf@.len() as int;
                let mut val: u8 = 1;
                while val <= 9
                    invariant
                        row < 8,
                        row < other < 9,
                        col < 9,
                        1 <= val <= 10,
                        all_excl(cnf_view(cnf@)),
                        col_pairs_done(
                            cnf_view(cnf@),
                            row as int,
                            other as int,
                            col as int,
                            val as int,
                        ),
                        cnf@.len() == lc + (val - 1),
                    decreases 10 - val,
                {
                    let ghost f0 = cnf_view(cnf@);
                    push_exclusion(
                        &mut cnf,
                        SudokuCell::new(row, col, val),
                        SudokuCell::new(other, col, val),
                    );
                    proof {
                        let fv = cnf_view(cnf@);
                        let a = cell_at(row as int, col as int, val as int);
                        let b = cell_at(other as int, col as int, val as int);
                        lemma_col_pair(row as int, other as int, col as int, val as int);
                        assert(fv == f0.push(excl_clause(a, b)));
                        assert(all_excl(fv)) by {
                            assert forall|j: int| 0 <= j < fv.len() implies is_excl_clause(
                                #[trigger] fv[j],
                            ) by {
                                if j < f0.len() {
                                    assert(fv[j] == f0[j]);
                                } else {
                                    assert(fv[j] == excl_clause(a, b));
                                }
                            }
                        }
                        assert forall|r1: int, r2: int, c: int, v: int|
                            0 <= r1 < r2 < 9 && 0 <= c < 9 && 1 <= v <= 9 && lex4(
                                r1,
                                r2,
                                c,
                                v,
                                row as int,
                                other as int,
                                col as int,
                                val as int + 1,
                            ) implies excl_present(
                            fv,
                            cell_at(r1, c, v),
                            cell_at(r2, c, v),
                        ) by {
                            if lex4(r1, r2, c, v, row as int, other as int, col as int,
                            val as int) {
                                lemma_excl_present_grow(
                                    f0,
                                    excl_clause(a, b),
                                    cell_at(r1, c, v),
                                    cell_at(r2, c, v),
                                );
                            } else {
                                assert(r1 == row && r2 == other && c == col && v == val);
                                assert(fv[fv.len() - 1] == excl_clause(a, b));
                            }
                        }
                    }
                    val += 1;
                }
                col += 1;
            }
            other += 1;
        }
        proof {
            let r = row as int;
            assert(81 * (17 * r - r * r) + 162 * (8 - r) == 81 * (17 * (r + 1) - (r + 1) * (r
                + 1))) by (nonlinear_arith);
        }
        row += 1;
    }
    proof {
        assert(cnf@.len() == 2916);
        assert(col_pairs_done(cnf_view(cnf@), 9, 0, 0, 0)) by {
            assert forall|r1: int, r2: int, c: int, v: int|
                0 <= r1 < r2 < 9 && 0 <= c < 9 && 1 <= v <= 9 && lex4(
                    r1,
                    r2,
                    c,
                    v,
                    9,
                    0,
                    0,
                    0,
                ) implies excl_present(cnf_view(cnf@), cell_at(r1, c, v), cell_at(r2, c, v)) by {
                assert(lex4(r1, r2, c, v, 8, 9, 0, 1));
            }
        }
    }
    // no two cells in a row of the grid share a value
    let mut row2: u8 = 0;
    while row2 < 9
        invariant
            row2 <= 9,
            all_excl(cnf_view(cnf@)),
            col_pairs_done(cnf_view(cnf@), 9, 0, 0, 0),
            row_pairs_done(cnf_view(cnf@), row2 as int, 0, 0, 0),
            cnf@.len() == 2916 + row2 * 324,
        decreases 9 - row2,
    {
        let ghost lrow = cnf@.len() as int;
        let mut col: u8 = 0;
        while col < 8
            invariant
                row2 < 9,
                col <= 8,
                all_excl(cnf_view(cnf@)),
                col_pairs_done(cnf_view(cnf@), 9, 0, 0, 0),
                row_pairs_done(cnf_view(cnf@), row2 as int, col as int, 0, 0),
                2 * (cnf@.len() - lrow) == 9 * (17 * (col as int) - (col as int) * (col as int)),
            decreases 8 - col,
        {
            let ghost lcol = cnf@.len() as int;
            let mut other: u8 = col + 1;
            while other < 9
                invariant
                    row2 < 9,
                    col < 8,
                    col < other <= 9,
                    all_excl(cnf_view(cnf@)),
                    col_pairs_done(cnf_view(cnf@), 9, 0, 0, 0),
                    row_pairs_done(cnf_view(cnf@), row2 as int, col as int, other as int, 1),
                    cnf@.len() == lcol + (other - col - 1) * 9,
                decreases 9 - other,
            {
                let ghost lc2 = cnf@.len() as int;
                let mut val: u8 = 1;
                while val <= 9
                    invariant
                        row2 < 9,
                        col < 8,
                        col < other < 9,
                        1 <= val <= 10,
                        all_excl(cnf_view(cnf@)),
                        col_pairs_done(cnf_view(cnf@), 9, 0, 0, 0),
                        row_pairs_done(
                            cnf_view(cnf@),
                            row2 as int,
                            col as int,
                            other as int,
                            val as int,
                        ),
                        cnf@.len() == lc2 + (val - 1),
                    decreases 10 - val,
                {
                    let ghost f0 = cnf_view(cnf@);
                    push_exclusion(
                        &mut cnf,
                        SudokuCell::new(row2, col, val),
                        SudokuCell::new(row2, other, val),
                    );
                    proof {
                        let fv = cnf_view(cnf@);
                        let a = cell_at(row2 as int, col as int, val as int);
                        let b = cell_at(row2 as int, other as int, val as int);
                        lemma_row_pair(row2 as int, col as int, other as int, val as int);
                        assert(fv == f0.push(excl_clause(a, b)));
                        assert(all_excl(fv)) by {
                            assert forall|j: int| 0 <= j < fv.len() implies is_excl_clause(
                                #[trigger] fv[j],
                            ) by {
                                if j < f0.len() {
                                    assert(fv[j] == f0[j]);
                                } else {
                                    assert(fv[j] == excl_clause(a, b));
                                }
                            }
                        }
                        assert forall|r1: int, c1: int, c2: int, v: int|
                            0 <= r1 < 9 && 0 <= c1 < c2 < 9 && 1 <= v <= 9 && lex4(
                                r1,
                                c1,
                                c2,
                                v,
                                row2 as int,
                                col as int,
                                other as int,
                                val as int + 1,
                            ) implies excl_present(
                            fv,
                            cell_at(r1, c1, v),
                            cell_at(r1, c2, v),
                        ) by {
                            if lex4(r1, c1, c2, v, row2 as int, col as int, other as int,
                            val as int) {
                                lemma_excl_present_grow(
                                    f0,
                                    excl_clause(a, b),
                                    cell_at(r1, c1, v),
                                    cell_at(r1, c2, v),
                                );
                            } else {
                                assert(r1 == row2 && c1 == col && c2 == other && v == val);
                                assert(fv[fv.len() - 1] == excl_clause(a, b));
                            }
                        }
                        assert forall|r1: int, r2: int, c: int, v: int|
                            0 <= r1 < r2 < 9 && 0 <= c < 9 && 1 <= v <= 9 && lex4(
                                r1,
                                r2,
                                c,
                                v,
                                9,
                                0,
                                0,
                                0,
                            ) implies excl_present(
                            fv,
                            cell_at(r1, c, v),
                            cell_at(r2, c, v),
                        ) by {
                            lemma_excl_present_grow(
                                f0,
                                excl_clause(a, b),
                                cell_at(r1, c, v),
                                cell_at(r2, c, v),
                            );
                        }
                    }
                    val += 1;
                }
                other += 1;
            }
            proof {
                let c = col as int;
                assert(9 * (17 * c - c * c) + 18 * (8 - c) == 9 * (17 * (c + 1) - (c + 1) * (c
                    + 1))) by (nonlinear_arith);
            }
            col += 1;
        }
        row2 += 1;
    }
    proof {
        assert(cnf@.len() == 5832);
        assert(row_pairs_done(cnf_view(cnf@), 9, 0, 0, 0)) by {
            assert forall|r: int, c1: int, c2: int, v: int|
                0 <= r < 9 && 0 <= c1 < c2 < 9 && 1 <= v <= 9 && lex4(
                    r,
                    c1,
                    c2,
                    v,
                    9,
                    0,
                    0,
                    0,
                ) implies excl_present(cnf_view(cnf@), cell_at(r, c1, v), cell_at(r, c2, v)) by {
                assert(lex4(r, c1, c2, v, 9, 0, 0, 1));
            }
        }
    }
    // no two cells in a 3x3 block share a value
    let mut horizontal: u8 = 0;
    while horizontal < 3
        invariant
            horizontal <= 3,
            all_excl(cnf_view(cnf@)),
            col_pairs_done(cnf_view(cnf@), 9, 0, 0, 0),
            row_pairs_done(cnf_view(cnf@), 9, 0, 0, 0),
            block_pairs_done(cnf_view(cnf@), horizontal as int, 0, 0, 0, 0),
            cnf@.len() == 5832 + horizontal * 972,
        decreases 3 - horizontal,
    {
        let ghost lh = cnf@.len() as int;
        let mut vertical: u8 = 0;
        while vertical < 3
            invariant
                horizontal < 3,
                vertical <= 3,
                all_excl(cnf_view(cnf@)),
                col_pairs_done(cnf_view(cnf@), 9, 0, 0, 0),
                row_pairs_done(cnf_view(cnf@), 9, 0, 0, 0),
                block_pairs_done(cnf_view(cnf@), horizontal as int, vertical as int, 0, 0, 0),
                cnf@.len() == lh + vertical * 324,
            decreases 3 - vertical,
        {
            let ghost lw = cnf@.len() as int;
            let mut cell: u8 = 0;
            while cell < 8
                invariant
                    horizontal < 3,
                    vertical < 3,
                    cell <= 8,
                    all_excl(cnf_view(cnf@)),
                    col_pairs_done(cnf_view(cnf@), 9, 0, 0, 0),
                    row_pairs_done(cnf_view(cnf@), 9, 0, 0, 0),
                    block_pairs_done(
                        cnf_view(cnf@),
                        horizontal as int,
                        vertical as int,
                        cell as int,
                        0,
                        0,
                    ),
                    2 * (cnf@.len() - lw) == 9 * (17 * (cell as int) - (cell as int) * (
                    cell as int)),
                decreases 8 - cell,
            {
                let ghost lcell = cnf@.len() as int;
                let r1 = 3 * horizontal + cell / 3;
                let c1 = 3 * vertical + cell % 3;
                let mut other: u8 = cell + 1;
                while other < 9
                    invariant
                        horizontal < 3,
                        vertical < 3,
                        cell < 8,
                        cell < other <= 9,
                        r1 == 3 * horizontal + cell / 3,
                        c1 == 3 * vertical + cell % 3,
                        all_excl(cnf_view(cnf@)),
                        col_pairs_done(cnf_view(cnf@), 9, 0, 0, 0),
                        row_pairs_done(cnf_view(cnf@), 9, 0, 0, 0),
                        block_pairs_done(
                            cnf_view(cnf@),
                            horizontal as int,
                            vertical as int,
                            cell as int,
                            other as int,
                            1,
                        ),
                        cnf@.len() == lcell + (other - cell - 1) * 9,
                    decreases 9 - other,
                {
                    let ghost lv = cnf@.len() as int;
                    let r2 = 3 * horizontal + other / 3;
                    let c2 = 3 * vertical + other % 3;
                    let mut val: u8 = 1;
                    while val <= 9
                        invariant
                            horizontal < 3,
                            vertical < 3,
                            cell < 8,
                            cell < other < 9,
                            1 <= val <= 10,
                            r1 == 3 * horizontal + cell / 3,
                            c1 == 3 * vertical + cell % 3,
                            r2 == 3 * horizontal + other / 3,
                            c2 == 3 * vertical + other % 3,
                            all_excl(cnf_view(cnf@)),
                            col_pairs_done(cnf_view(cnf@), 9, 0, 0, 0),
                            row_pairs_done(cnf_view(cnf@), 9, 0, 0, 0),
                            block_pairs_done(
                                cnf_view(cnf@),
                                horizontal as int,
                                vertical as int,
                                cell as int,
                                other as int,
                                val as int,
                            ),
                            cnf@.len() == lv + (val - 1),
                        decreases 10 - val,
                    {
                        let ghost f0 = cnf_view(cnf@);
                        push_exclusion(
                            &mut cnf,
                            SudokuCell::new(r1, c1, val),
                            SudokuCell::new(r2, c2, val),
                        );
                        proof {
                            let fv = cnf_view(cnf@);
                            let hh = horizontal as int;
                            let ww = vertical as int;
                            let a = cell_at(3 * hh + cell as int / 3, 3 * ww + cell as int % 3,
                            val as int);
                            let b = cell_at(3 * hh + other as int / 3, 3 * ww + other as int % 3,
                            val as int);
                            lemma_block_pair(hh, ww, cell as int, other as int, val as int);
                            assert(r1 as int == 3 * hh + cell as int / 3 && c1 as int == 3 * ww
                                + cell as int % 3);
                            assert(r2 as int == 3 * hh + other as int / 3 && c2 as int == 3 * ww
                                + other as int % 3);
                            assert(fv == f0.push(excl_clause(a, b)));
                            assert(all_excl(fv)) by {
                                assert forall|j: int| 0 <= j < fv.len() implies is_excl_clause(
                                    #[trigger] fv[j],
                                ) by {
                                    if j < f0.len() {
                                        assert(fv[j] == f0[j]);
                                    } else {
                                        assert(fv[j] == excl_clause(a, b));
                                    }
                                }
                            }
                            assert forall|h: int, w: int, i1: int, i2: int, v: int|
                                #![trigger excl_present(fv, cell_at(3 * h + i1 / 3, 3 * w + i1 % 3, v), cell_at(3 * h + i2 / 3, 3 * w + i2 % 3, v))]
                                0 <= h < 3 && 0 <= w < 3 && 0 <= i1 < i2 < 9 && 1 <= v <= 9
                                    && lex5(
                                    h,
                                    w,
                                    i1,
                                    i2,
                                    v,
                                    hh,
                                    ww,
                                    cell as int,
                                    other as int,
                                    val as int + 1,
                                ) implies excl_present(
                                fv,
                                cell_at(3 * h + i1 / 3, 3 * w + i1 % 3, v),
                                cell_at(3 * h + i2 / 3, 3 * w + i2 % 3, v),
                            ) by {
                                if lex5(h, w, i1, i2, v, hh, ww, cell as int, other as int,
                                val as int) {
                                    lemma_excl_present_grow(
                                        f0,
                                        excl_clause(a, b),
                                        cell_at(3 * h + i1 / 3, 3 * w + i1 % 3, v),
                                        cell_at(3 * h + i2 / 3, 3 * w + i2 % 3, v),
                                    );
                                } else {
                                    assert(h == hh && w == ww && i1 == cell && i2 == other && v
                                        == val);
                                    assert(fv[fv.len() - 1] == excl_clause(a, b));
                                }
                            }
                            assert forall|r1b: int, r2b: int, c: int, v: int|
                                0 <= r1b < r2b < 9 && 0 <= c < 9 && 1 <= v <= 9 && lex4(
                                    r1b,
                                    r2b,
                                    c,
                                    v,
                                    9,
                                    0,
                                    0,
                                    0,
                                ) implies excl_present(
                                fv,
                                cell_at(r1b, c, v),
                                cell_at(r2b, c, v),
                            ) by {
                                lemma_excl_present_grow(
                                    f0,
                                    excl_clause(a, b),
                                    cell_at(r1b, c, v),
                                    cell_at(r2b, c, v),
                                );
                            }
                            assert forall|r: int, c1b: int, c2b: int, v: int|
                                0 <= r < 9 && 0 <= c1b < c2b < 9 && 1 <= v <= 9 && lex4(
                                    r,
                                    c1b,
                                    c2b,
                                    v,
                                    9,
                                    0,
                                    0,
                                    0,
                                ) implies excl_present(
                                fv,
                                cell_at(r, c1b, v),
                                cell_at(r, c2b, v),
                            ) by {
                                lemma_excl_present_grow(
                                    f0,
                                    excl_clause(a, b),
                                    cell_at(r, c1b, v),
                                    cell_at(r, c2b, v),
                                );
                            }
                        }
                        val += 1;
                    }
                    other += 1;
                }
                proof {
                    let cc = cell as int;
                    assert(9 * (17 * cc - cc * cc) + 18 * (8 - cc) == 9 * (17 * (cc + 1) - (cc
                        + 1) * (cc + 1))) by (nonlinear_arith);
                }
                cell += 1;
            }
            vertical += 1;
        }
        horizontal += 1;
    }
    proof {
        assert(cnf@.len() == 8748);
        assert(block_pairs_done(cnf_view(cnf@), 3, 0, 0, 0, 0)) by {
            assert forall|h: int, w: int, i1: int, i2: int, v: int|
                #![trigger excl_present(cnf_view(cnf@), cell_at(3 * h + i1 / 3, 3 * w + i1 % 3, v), cell_at(3 * h + i2 / 3, 3 * w + i2 % 3, v))]
                0 <= h < 3 && 0 <= w < 3 && 0 <= i1 < i2 < 9 && 1 <= v <= 9 && lex5(
                    h,
                    w,
                    i1,
                    i2,
                    v,
                    3,
                    0,
                    0,
                    0,
                    0,
                ) implies excl_present(
                cnf_view(cnf@),
                cell_at(3 * h + i1 / 3, 3 * w + i1 % 3, v),
                cell_at(3 * h + i2 / 3, 3 * w + i2 % 3, v),
            ) by {
                assert(lex5(h, w, i1, i2, v, 2, 3, 0, 0, 0));
            }
        }
        lemma_families_cover(cnf_view(cnf@));
    }
    cnf
}

/// The character gives a digit 1..=9.
pub open spec fn is_digit_char(c: char) -> bool {
    49 <= c as u32 <= 57
}

/// The digit a digit character denotes.
pub open spec fn digit_of(c: char) -> int {
    c as u32 - 48
}

/// A parsed cell: its row, its column, and its given digit, or zero for an
/// open cell.
pub open spec fn cell_entry_wf(e: (int, int, int)) -> bool {
    0 <= e.0 < 9 && 0 <= e.1 < 9 && (e.2 == 0 || 1 <= e.2 <= 9)
}

/// Every parsed cell lies on the grid with a legal digit or a blank.
pub open spec fn cells_wf(cells: Seq<(int, int, int)>) -> bool {
    forall|k: int| 0 <= k < cells.len() ==> cell_entry_wf(#[trigger] cells[k])
}

/// The open cells padding a line out to nine columns.
pub open spec fn pad_row(row: int, col: int) -> Seq<(int, int, int)> {
    Seq::new((9 - col) as nat, |k: int| (row, col + k, 0))
}

/// The parser state after reading the text: the current row and column,
/// whether a line is open, and the cells read so far.  A digit character
/// gives its cell; any other character leaves the cell open; a newline
/// pads the line to nine cells and moves to the next row; characters past
/// the ninth column are dropped, and everything after the ninth row is
/// ignored.
pub open spec fn parse_state(s: Seq<char>) -> (int, int, bool, Seq<(int, int, int)>)
    decreases s.len(),
{
    if s.len() == 0 {
        (0, 0, false, Seq::empty())
    } else {
        let st = parse_state(s.drop_last());
        let c = s.last();
        if st.0 >= 9 {
            st
        } else if c == '\n' {
            (st.0 + 1, 0, false, st.3 + pad_row(st.0, st.1))
        } else if st.1 >= 9 {
            (st.0, st.1, true, st.3)
        } else if is_digit_char(c) {
            (st.0, st.1 + 1, true, st.3.push((st.0, st.1, digit_of(c))))
        } else {
            (st.0, st.1 + 1, true, st.3.push((st.0, st.1, 0)))
        }
    }
}

/// The cells the text parses to: the cells read, with an open final line
/// padded to nine columns.
pub open spec fn parse_cells(s: Seq<char>) -> Seq<(int, int, int)> {
    let st = parse_state(s);
    if st.2 && st.0 < 9 {
        st.3 + pad_row(st.0, st.1)
    } else {
        st.3
    }
}

/// The clause constraining an open cell: one of the nine digits holds.
pub open spec fn domain_clause(row: int, col: int) -> Seq<Literal<SudokuCell>> {
    Seq::new(9, |k: int| Literal(cell_at(row, col, k + 1), true))
}

/// The clause a parsed cell contributes: a unit clause for a given digit,
/// the nine-way domain clause for an open cell.
pub open spec fn cell_clause(e: (int, int, int)) -> Seq<Literal<SudokuCell>> {
    if e.2 == 0 {
        domain_clause(e.0, e.1)
    } else {
        seq![Literal(cell_at(e.0, e.1, e.2), true)]
    }
}

/// The clauses of a sequence of parsed cells, in order.
pub open spec fn clauses_of(cells: Seq<(int, int, int)>) -> Seq<Seq<Literal<SudokuCell>>> {
    cells.map_values(|e: (int, int, int)| cell_clause(e))
}

/// The parser keeps its counters on the grid and its cells well formed.
proof fn lemma_parse_state_wf(s: Seq<char>)
    ensures
        0 <= parse_state(s).0 <= 9,
        0 <= parse_state(s).1 <= 9,
        cells_wf(parse_state(s).3),
    decreases s.len(),
{
    if s.len() > 0 {
        lemma_parse_state_wf(s.drop_last());
        let st = parse_state(s.drop_last());
        let c = s.last();
        if st.0 < 9 && c == '\n' {
            assert forall|k: int|
                0 <= k < (st.3 + pad_row(st.0, st.1)).len() implies cell_entry_wf(
                #[trigger] (st.3 + pad_row(st.0, st.1))[k],
            ) by {
                if k < st.3.len() {
                    assert((st.3 + pad_row(st.0, st.1))[k] == st.3[k]);
                } else {
                    assert((st.3 + pad_row(st.0, st.1))[k] == pad_row(st.0, st.1)[k
                        - st.3.len()]);
                }
            }
        }
    }
}

/// Once the parser has passed the ninth row, further text changes nothing.
proof fn lemma_parse_state_stable(s: Seq<char>, m: int)
    requires
        0 <= m <= s.len(),
        parse_state(s.subrange(0, m)).0 >= 9,
    ensures
        parse_state(s) == parse_state(s.subrange(0, m)),
    decreases s.len() - m,
{
    if m == s.len() {
        assert(s.subrange(0, m) =~= s);
    } else {
        assert(s.subrange(0, m + 1).drop_last() =~= s.subrange(0, m));
        assert(s.subrange(0, m + 1).last() == s[m]);
        lemma_parse_state_stable(s, m + 1);
    }
}

/// The cells the full text parses to are well formed.
proof fn lemma_parse_cells_wf(s: Seq<char>)
    ensures
        cells_wf(parse_cells(s)),
{
    lemma_parse_state_wf(s);
    let st = parse_state(s);
    if st.2 && st.0 < 9 {
        assert forall|k: int| 0 <= k < parse_cells(s).len() implies cell_entry_wf(
            #[trigger] parse_cells(s)[k],
        ) by {
            if k < st.3.len() {
                assert(parse_cells(s)[k] == st.3[k]);
            } else {
                assert(parse_cells(s)[k] == pad_row(st.0, st.1)[k - st.3.len()]);
            }
        }
    }
}

/// Mapping cells to clauses commutes with appending a cell.
proof fn lemma_clauses_of_push(cells: Seq<(int, int, int)>, e: (int, int, int))
    ensures
        clauses_of(cells.push(e)) == clauses_of(cells).push(cell_clause(e)),
{
    assert(clauses_of(cells.push(e)) =~= clauses_of(cells).push(cell_clause(e)));
}

/// Mapping cells to clauses commutes with concatenation.
proof fn lemma_clauses_of_concat(a: Seq<(int, int, int)>, b: Seq<(int, int, int)>)
    ensures
        clauses_of(a + b) == clauses_of(a) + clauses_of(b),
{
    assert(clauses_of(a + b) =~= clauses_of(a) + clauses_of(b)) by {
        assert forall|k: int| 0 <= k < a.len() + b.len() implies clauses_of(a + b)[k]
            == (clauses_of(a) + clauses_of(b))[k] by {
            if k < a.len() {
                assert((a + b)[k] == a[k]);
            } else {
                assert((a + b)[k] == b[k - a.len()]);
            }
        }
    }
}

/// A valuation respects the sudoku exclusions: no two distinct cells of a
/// shared unit both hold the same digit.
pub open spec fn excl_ok(v: spec_fn(SudokuCell) -> bool) -> bool {
    forall|a: SudokuCell, b: SudokuCell|
        #![trigger v(a), v(b)]
        excl_pair_ok(a, b) ==> !(v(a) && v(b))
}

/// A valuation meets a parsed cell: a given digit holds; an open cell
/// holds one of the nine digits.
pub open spec fn cell_req(v: spec_fn(SudokuCell) -> bool, e: (int, int, int)) -> bool {
    if e.2 == 0 {
        exists|d: int| 1 <= d <= 9 && v(cell_at(e.0, e.1, d))
    } else {
        v(cell_at(e.0, e.1, e.2))
    }
}

/// A valuation solves the textual puzzle: it respects the exclusions and
/// meets every parsed cell.
pub open spec fn grid_sat(v: spec_fn(SudokuCell) -> bool, s: Seq<char>) -> bool {
    excl_ok(v) && forall|k: int|
        0 <= k < parse_cells(s).len() ==> cell_req(v, #[trigger] parse_cells(s)[k])
}

/// The textual puzzle admits a completion.
pub open spec fn solvable(s: Seq<char>) -> bool {
    exists|v: spec_fn(SudokuCell) -> bool| grid_sat(v, s)
}

/// A valuation satisfying the built formula solves the textual puzzle.
proof fn lemma_formula_to_grid(
    basef: Seq<Seq<Literal<SudokuCell>>>,
    s: Seq<char>,
    v: spec_fn(SudokuCell) -> bool,
)
    requires
        forall|a: SudokuCell, b: SudokuCell| #[trigger]
            excl_pair_ok(a, b) ==> excl_present(basef, a, b),
        cnf_sat(v, basef + clauses_of(parse_cells(s))),
    ensures
        grid_sat(v, s),
{
    let f = basef + clauses_of(parse_cells(s));
    assert forall|a: SudokuCell, b: SudokuCell|
        #![trigger v(a), v(b)]
        excl_pair_ok(a, b) implies !(v(a) && v(b)) by {
        let j = choose|j: int|
            0 <= j < basef.len() && ((#[trigger] basef[j]) == excl_clause(a, b) || basef[j]
                == excl_clause(b, a));
        assert(f[j] == basef[j]);
        assert(clause_sat(v, f[j]));
        let i = choose|i: int| 0 <= i < f[j].len() && lit_sat(v, f[j][i]);
        assert(!v(f[j][i].0));
    }
    assert forall|k: int| 0 <= k < parse_cells(s).len() implies cell_req(
        v,
        #[trigger] parse_cells(s)[k],
    ) by {
        let e = parse_cells(s)[k];
        let j = basef.len() + k;
        assert(f[j] == clauses_of(parse_cells(s))[k]);
        assert(f[j] == cell_clause(e));
        assert(clause_sat(v, f[j]));
        let i = choose|i: int| 0 <= i < f[j].len() && lit_sat(v, f[j][i]);
        if e.2 == 0 {
            assert(f[j][i] == Literal(cell_at(e.0, e.1, i + 1), true));
            assert(1 <= i + 1 <= 9 && v(cell_at(e.0, e.1, i + 1)));
        } else {
            assert(f[j][i] == Literal(cell_at(e.0, e.1, e.2), true));
        }
    }
}

/// A valuation solving the textual puzzle satisfies the built formula.
proof fn lemma_grid_to_formula(
    basef: Seq<Seq<Literal<SudokuCell>>>,
    s: Seq<char>,
    v: spec_fn(SudokuCell) -> bool,
)
    requires
        all_excl(basef),
        grid_sat(v, s),
    ensures
        cnf_sat(v, basef + clauses_of(parse_cells(s))),
{
    let f = basef + clauses_of(parse_cells(s));
    assert forall|j: int| 0 <= j < f.len() implies clause_sat(v, f[j]) by {
        if j < basef.len() {
            assert(f[j] == basef[j]);
            assert(is_excl_clause(basef[j]));
            let a = basef[j][0].0;
            let b = basef[j][1].0;
            assert(!(v(a) && v(b)));
            if !v(a) {
                assert(lit_sat(v, f[j][0]));
            } else {
                assert(lit_sat(v, f[j][1]));
            }
        } else {
            let k = j - basef.len();
            let e = parse_cells(s)[k];
            assert(f[j] == clauses_of(parse_cells(s))[k]);
            assert(f[j] == cell_clause(e));
            assert(cell_req(v, e));
            if e.2 == 0 {
                let d = choose|d: int| 1 <= d <= 9 && v(cell_at(e.0, e.1, d));
                assert(f[j][d - 1] == Literal(cell_at(e.0, e.1, d), true));
                assert(lit_sat(v, f[j][d - 1]));
            } else {
                assert(f[j][0] == Literal(cell_at(e.0, e.1, e.2), true));
                assert(lit_sat(v, f[j][0]));
            }
        }
    }
}

/// Every atom of the built formula names a real cell and digit.
proof fn lemma_built_ok(basef: Seq<Seq<Literal<SudokuCell>>>, s: Seq<char>)
    requires
        all_excl(basef),
        cells_wf(parse_cells(s)),
    ensures
        sudoku_cnf_ok(basef + clauses_of(parse_cells(s))),
{
    let f = basef + clauses_of(parse_cells(s));
    assert forall|j: int, i: int|
        #![trigger f[j][i]]
        0 <= j < f.len() && 0 <= i < f[j].len() implies cell_ok(f[j][i].0) by {
        if j < basef.len() {
            assert(f[j] == basef[j]);
            assert(is_excl_clause(basef[j]));
        } else {
            let k = j - basef.len();
            let e = parse_cells(s)[k];
            assert(cell_entry_wf(e));
            assert(f[j] == cell_clause(e));
            if e.2 == 0 {
                assert(f[j][i] == Literal(cell_at(e.0, e.1, i + 1), true));
                lemma_cell_at_coords(e.0, e.1, i + 1);
            } else {
                assert(f[j][i] == Literal(cell_at(e.0, e.1, e.2), true));
                lemma_cell_at_coords(e.0, e.1, e.2);
            }
        }
    }
}

/// Appends the unit clause asserting one given cell-and-digit.
fn push_given(cnf: &mut CNF<SudokuCell>, a: SudokuCell)
    ensures
        cnf_view(final (cnf)@) == cnf_view(old(cnf)@).push(seq![Literal(a, true)]),
{
    let ghost g0 = cnf@;
    let mut clause: Clause<SudokuCell> = Vec::new();
    clause.push(Literal::new(a));
    proof {
        assert(clause@ =~= seq![Literal(a, true)]);
    }
    cnf.push(clause);
    proof {
        assert(cnf_view(cnf@) =~= cnf_view(g0).push(seq![Literal(a, true)]));
    }
}

/// Appends the clause constraining an open cell to hold one of the nine
/// digits.
fn push_domain(cnf: &mut CNF<SudokuCell>, row: u8, col: u8)
    requires
        row < 9,
        col < 9,
    ensures
        cnf_view(final (cnf)@) == cnf_view(old(cnf)@).push(domain_clause(row as int, col as int)),
{
    let ghost g0 = cnf@;
    let mut clause: Clause<SudokuCell> = Vec::new();
    let mut val: u8 = 1;
    while val <= 9
        invariant
            row < 9,
            col < 9,
            1 <= val <= 10,
            clause@ == domain_clause(row as int, col as int).subrange(0, val - 1),
        decreases 10 - val,
    {
        clause.push(Literal::new(SudokuCell::new(row, col, val)));
        proof {
            assert(clause@ =~= domain_clause(row as int, col as int).subrange(0, val as int));
        }
        val += 1;
    }
    proof {
        assert(domain_clause(row as int, col as int).subrange(0, 9) =~= domain_clause(
            row as int,
            col as int,
        ));
    }
    cnf.push(clause);
    proof {
        assert(cnf_view(cnf@) =~= cnf_view(g0).push(domain_clause(row as int, col as int)));
    }
}

/// Appends the domain clauses padding a line out to nine cells.
fn push_domains(cnf: &mut CNF<SudokuCell>, row: u8, col: u8)
    requires
        row < 9,
        col <= 9,
    ensures
        cnf_view(final (cnf)@) == cnf_view(old(cnf)@) + clauses_of(
            pad_row(row as int, col as int),
        ),
{
    let ghost g0 = cnf_view(cnf@);
    let mut c2: u8 = col;
    while c2 < 9
        invariant
            row < 9,
            col <= c2 <= 9,
            cnf_view(cnf@) == g0 + clauses_of(pad_row(row as int, col as int)).subrange(
                0,
                c2 - col,
            ),
        decreases 9 - c2,
    {
        let ghost before = cnf_view(cnf@);
        push_domain(cnf, row, c2);
        proof {
            assert(pad_row(row as int, col as int)[c2 - col] == (row as int, c2 as int, 0int));
            assert(clauses_of(pad_row(row as int, col as int))[c2 - col] == domain_clause(
                row as int,
                c2 as int,
            ));
            assert(cnf_view(cnf@) =~= g0 + clauses_of(pad_row(row as int, col as int)).subrange(
                0,
                c2 - col + 1,
            ));
        }
        c2 += 1;
    }
    proof {
        assert(clauses_of(pad_row(row as int, col as int)).subrange(0, 9 - col as int)
            =~= clauses_of(pad_row(row as int, col as int)));
    }
}

/// The character rendering one digit.
fn digit_char(d: u8) -> (r: char)
    requires
        1 <= d <= 9,
    ensures
        r == digit_char_of(d as int),
{
    match d {
        1 => '1',
        2 => '2',
        3 => '3',
        4 => '4',
        5 => '5',
        6 => '6',
        7 => '7',
        8 => '8',
        _ => '9',
    }
}

/// The character a digit renders as.
pub open spec fn digit_char_of(d: int) -> char {
    if d == 1 {
        '1'
    } else if d == 2 {
        '2'
    } else if d == 3 {
        '3'
    } else if d == 4 {
        '4'
    } else if d == 5 {
        '5'
    } else if d == 6 {
        '6'
    } else if d == 7 {
        '7'
    } else if d == 8 {
        '8'
    } else {
        '9'
    }
}

/// A character of a rendered grid cell: a digit or a blank.
pub open spec fn grid_char(c: char) -> bool {
    c == ' ' || c == '1' || c == '2' || c == '3' || c == '4' || c == '5' || c == '6' || c == '7'
        || c == '8' || c == '9'
}

/// A rendered grid: nine lines of nine cell characters, each closed by a
/// newline.
pub open spec fn grid_render(t: Seq<char>) -> bool {
    &&& t.len() == 90
    &&& forall|p: int| 0 <= p < 90 && p % 10 == 9 ==> t[p] == '\n'
    &&& forall|p: int| 0 <= p < 90 && p % 10 != 9 ==> grid_char(#[trigger] t[p])
}

/// The 81 cells of an untouched grid, all blank.
pub open spec fn blank_grid() -> Seq<char> {
    Seq::new(81, |p: int| ' ')
}

/// The grid painted by an assignment, in order: each positively decided
/// cell-and-digit writes its digit onto its cell, later decisions over
/// earlier ones; undecided cells stay blank.
pub open spec fn paint(asg: Seq<Literal<SudokuCell>>) -> Seq<char>
    decreases asg.len(),
{
    if asg.len() == 0 {
        blank_grid()
    } else {
        let g = paint(asg.drop_last());
        let l = asg.last();
        if l.1 && l.0.row_col < 81 {
            g.update(l.0.row_col as int, digit_char_of(l.0.val as int))
        } else {
            g
        }
    }
}

/// The 90-character text of a painted grid: nine rows of nine cells, each
/// closed by a newline.
pub open spec fn render(g: Seq<char>) -> Seq<char> {
    Seq::new(
        90,
        |p: int|
            if p % 10 == 9 {
                '\n'
            } else {
                g[(p / 10) * 9 + p % 10]
            },
    )
}

/// A painted grid stays 81 cells of digits and blanks.
proof fn lemma_paint_wf(asg: Seq<Literal<SudokuCell>>)
    ensures
        paint(asg).len() == 81,
        forall|q: int| 0 <= q < 81 ==> grid_char(#[trigger] paint(asg)[q]),
    decreases asg.len(),
{
    if asg.len() > 0 {
        lemma_paint_wf(asg.drop_last());
    }
}


/// A cell some literal of the assignment decides positively is painted
/// with a digit, never left blank.
pub proof fn lemma_paint_decided(asg: Seq<Literal<SudokuCell>>, k: int)
    requires
        0 <= k < asg.len(),
        asg[k].1,
        asg[k].0.row_col < 81,
    ensures
        paint(asg)[asg[k].0.row_col as int] != ' ',
    decreases asg.len(),
{
    lemma_paint_wf(asg.drop_last());
    let l = asg.last();
    if k < asg.len() - 1 {
        assert(asg.drop_last()[k] == asg[k]);
        lemma_paint_decided(asg.drop_last(), k);
        if l.1 && l.0.row_col < 81 {
            if l.0.row_col != asg[k].0.row_col {
                assert(paint(asg)[asg[k].0.row_col as int] == paint(asg.drop_last())[asg[k].0.row_col as int]);
            }
        }
    } else {
        assert(l == asg[k]);
    }
}

/// A painted digit always comes from a positive decision of the
/// assignment over that very cell.
pub proof fn lemma_paint_from(asg: Seq<Literal<SudokuCell>>, p: int)
    requires
        0 <= p < 81,
        paint(asg)[p] != ' ',
    ensures
        exists|k: int|
            0 <= k < asg.len() && (#[trigger] asg[k]).1 && asg[k].0.row_col == p && paint(asg)[p]
                == digit_char_of(asg[k].0.val as int),
    decreases asg.len(),
{
    lemma_paint_wf(asg.drop_last());
    let l = asg.last();
    if l.1 && l.0.row_col < 81 && l.0.row_col == p {
        assert(asg[asg.len() - 1] == l);
        assert(paint(asg)[p] == digit_char_of(l.0.val as int));
    } else {
        assert(paint(asg)[p] == paint(asg.drop_last())[p]);
        lemma_paint_from(asg.drop_last(), p);
        let k = choose|k: int|
            0 <= k < asg.drop_last().len() && (#[trigger] asg.drop_last()[k]).1
                && asg.drop_last()[k].0.row_col == p && paint(asg.drop_last())[p]
                == digit_char_of(asg.drop_last()[k].0.val as int);
        assert(asg[k] == asg.drop_last()[k]);
    }
}

/// Relies on String::push: appends one character to the string.
#[verifier::external_body]
fn push_char(s: &mut String, c: char)
    ensures
        final (s)@ == old(s)@.push(c),
{
    s.push(c);
}


/// Renders the assignment as grid text: paints each positively decided
/// cell-and-digit onto a blank grid, later decisions over earlier ones,
/// and lays the grid out as nine newline-closed lines.
fn render_assignment(asg: &Vec<Literal<SudokuCell>>) -> (out: String)
    requires
        forall|k: int| 0 <= k < asg@.len() ==> cell_ok((#[trigger] asg@[k]).0),
    ensures
        out@ == render(paint(asg@)),
        grid_render(out@),
{
    // paint the decided digits onto a blank grid
    let mut grid: Vec<char> = Vec::new();
    let mut p: usize = 0;
    while p < 81
        invariant
            p <= 81,
            grid@ == blank_grid().subrange(0, p as int),
        decreases 81 - p,
    {
        grid.push(' ');
        proof {
            assert(grid@ =~= blank_grid().subrange(0, p + 1));
        }
        p += 1;
    }
    proof {
        assert(blank_grid().subrange(0, 81) =~= blank_grid());
        assert(asg@.subrange(0, 0) =~= Seq::<Literal<SudokuCell>>::empty());
        assert(grid@ == paint(asg@.subrange(0, 0)));
    }
    let mut k: usize = 0;
    while k < asg.len()
        invariant
            k <= asg.len(),
            forall|k2: int| 0 <= k2 < asg@.len() ==> cell_ok((#[trigger] asg@[k2]).0),
            grid@ == paint(asg@.subrange(0, k as int)),
        decreases asg.len() - k,
    {
        proof {
            assert(asg@.subrange(0, k + 1).drop_last() =~= asg@.subrange(0, k as int));
            assert(asg@.subrange(0, k + 1).last() == asg@[k as int]);
            lemma_paint_wf(asg@.subrange(0, k as int));
        }
        if asg[k].value() {
            let t = asg[k].0.as_tuple();
            proof {
                assert(asg@[k as int].0.row_col < 81);
                assert(t.0 * 9 + t.1 == asg@[k as int].0.row_col);
            }
            grid.set(t.0 * 9 + t.1, digit_char(t.2));
        }
        k += 1;
    }
    proof {
        assert(asg@.subrange(0, asg@.len() as int) =~= asg@);
        lemma_paint_wf(asg@);
    }
    // render the grid as nine newline-closed lines
    let ghost gfull = paint(asg@);
    let mut out = String::new();
    let mut r2: usize = 0;
    while r2 < 9
        invariant
            r2 <= 9,
            grid@ == gfull,
            gfull.len() == 81,
            forall|q: int| 0 <= q < 81 ==> grid_char(#[trigger] gfull[q]),
            out@ == render(gfull).subrange(0, r2 as int * 10),
        decreases 9 - r2,
    {
        let mut c2: usize = 0;
        while c2 < 9
            invariant
                r2 < 9,
                c2 <= 9,
                grid@ == gfull,
                gfull.len() == 81,
                forall|q: int| 0 <= q < 81 ==> grid_char(#[trigger] gfull[q]),
                out@ == render(gfull).subrange(0, r2 as int * 10 + c2),
            decreases 9 - c2,
        {
            push_char(&mut out, grid[r2 * 9 + c2]);
            proof {
                let pp = r2 as int * 10 + c2 as int;
                assert(pp % 10 == c2 as int && pp / 10 == r2 as int) by (nonlinear_arith)
                    requires
                        0 <= c2 < 10,
                        0 <= r2,
                        pp == r2 as int * 10 + c2 as int,
                ;
                assert(render(gfull)[pp] == gfull[r2 as int * 9 + c2 as int]);
                assert(out@ =~= render(gfull).subrange(0, pp + 1));
            }
            c2 += 1;
        }
        push_char(&mut out, '\n');
        proof {
            let pp = r2 as int * 10 + 9;
            assert(pp % 10 == 9) by (nonlinear_arith)
                requires
                    0 <= r2,
                    pp == r2 as int * 10 + 9,
            ;
            assert(render(gfull)[pp] == '\n');
            assert(out@ =~= render(gfull).subrange(0, pp + 1));
            assert(pp + 1 == (r2 + 1) as int * 10);
        }
        r2 += 1;
    }
    proof {
        assert(render(gfull).subrange(0, 90) =~= render(gfull));
        assert(out@ == render(paint(asg@)));
        assert(grid_render(out@)) by {
            assert forall|pq: int| 0 <= pq < 90 && pq % 10 != 9 implies grid_char(
                #[trigger] out@[pq],
            ) by {
                let qa = pq / 10;
                let qb = pq % 10;
                assert(pq == 10 * qa + qb && 0 <= qb < 10);
                assert(0 <= qa <= 8);
                assert(0 <= qa * 9 + qb < 81);
                assert(out@[pq] == render(gfull)[pq]);
                assert(render(gfull)[pq] == gfull[(pq / 10) * 9 + pq % 10]);
            }
        }
    }
    out
}

/// Solves a sudoku given as newline-separated lines of cell characters: a
/// digit fixes its cell, any other character leaves the cell open; lines
/// are padded to, and cut at, nine cells, and at most nine lines are
/// read.  Cells of missing lines are left unconstrained, as an embedding
/// caller that omits lines asks nothing of them.  Returns a solved grid
/// exactly when the parsed puzzle admits a completion; the returned text
/// renders an atom-unique assignment solving the puzzle, each positively
/// decided cell showing its digit, later decisions over earlier ones, and
/// every undecided cell blank.
pub fn solve_sudoku(sudoku: &str) -> (r: Option<String>)
    ensures
        (r is Some) <==> solvable(sudoku@),
        r matches Some(out) ==> grid_render(out@) && (exists|asg: Seq<Literal<SudokuCell>>|
            #![trigger unique_atoms(asg)]
            {
                &&& unique_atoms(asg)
                &&& (forall|k: int| 0 <= k < asg.len() ==> cell_ok((#[trigger] asg[k]).0))
                &&& grid_sat(val_of(asg), sudoku@)
                &&& out@ == render(paint(asg))
            }),
{
    let mut cnf = sudoku_constraints();
    let ghost base = cnf_view(cnf@);
    let ghost s = sudoku@;
    // parse the grid: a unit clause per given digit, a nine-way choice per
    // open cell
    let n = sudoku.unicode_len();
    let mut row: usize = 0;
    let mut col: usize = 0;
    let mut in_line = false;
    let mut i: usize = 0;
    while i < n && row < 9
        invariant
            s == sudoku@,
            n == s.len(),
            i <= n,
            all_excl(base),
            forall|a: SudokuCell, b: SudokuCell| #[trigger]
                excl_pair_ok(a, b) ==> excl_present(base, a, b),
            row == parse_state(s.subrange(0, i as int)).0,
            col == parse_state(s.subrange(0, i as int)).1,
            in_line == parse_state(s.subrange(0, i as int)).2,
            cnf_view(cnf@) == base + clauses_of(parse_state(s.subrange(0, i as int)).3),
        decreases n - i,
    {
        let ghost pre = s.subrange(0, i as int);
        let ghost st0 = parse_state(pre);
        proof {
            assert(s.subrange(0, i + 1).drop_last() =~= pre);
            assert(s.subrange(0, i + 1).last() == s[i as int]);
            lemma_parse_state_wf(pre);
        }
        let c = sudoku.get_char(i);
        let u = c as u32;
        if u == 10 {
            proof {
                assert(c == '\n');
            }
            push_domains(&mut cnf, row as u8, col as u8);
            row += 1;
            col = 0;
            in_line = false;
            proof {
                lemma_clauses_of_concat(st0.3, pad_row(st0.0, st0.1));
                assert(cnf_view(cnf@) =~= base + clauses_of(st0.3 + pad_row(st0.0, st0.1)));
            }
        } else {
            proof {
                assert(c != '\n');
            }
            in_line = true;
            if col < 9 {
                if 49 <= u && u <= 57 {
                    let d = (u - 48) as u8;
                    let cellv = SudokuCell::new(row as u8, col as u8, d);
                    let ghost ca = cellv;
                    push_given(&mut cnf, cellv);
                    proof {
                        assert(is_digit_char(c) && digit_of(c) == d as int);
                        assert(ca == cell_at(row as int, col as int, d as int));
                        assert(seq![Literal(ca, true)] =~= cell_clause(
                            (row as int, col as int, d as int),
                        ));
                        lemma_clauses_of_push(st0.3, (row as int, col as int, d as int));
                        assert(cnf_view(cnf@) =~= base + clauses_of(
                            st0.3.push((row as int, col as int, d as int)),
                        ));
                    }
                } else {
                    push_domain(&mut cnf, row as u8, col as u8);
                    proof {
                        assert(!is_digit_char(c));
                        assert(domain_clause(row as int, col as int) == cell_clause(
                            (row as int, col as int, 0int),
                        ));
                        lemma_clauses_of_push(st0.3, (row as int, col as int, 0int));
                        assert(cnf_view(cnf@) =~= base + clauses_of(
                            st0.3.push((row as int, col as int, 0int)),
                        ));
                    }
                }
                col += 1;
            }
        }
        i += 1;
    }
    proof {
        if i < n {
            lemma_parse_state_stable(s, i as int);
        } else {
            assert(s.subrange(0, i as int) =~= s);
        }
        lemma_parse_state_wf(s);
    }
    if in_line && row < 9 {
        let ghost st = parse_state(s);
        push_domains(&mut cnf, row as u8, col as u8);
        proof {
            lemma_clauses_of_concat(st.3, pad_row(st.0, st.1));
            assert(cnf_view(cnf@) =~= base + clauses_of(st.3 + pad_row(st.0, st.1)));
        }
    }
    proof {
        assert(cnf_view(cnf@) == base + clauses_of(parse_cells(s)));
        lemma_parse_cells_wf(s);
        lemma_built_ok(base, s);
        lemma_sudoku_atoms_reliable();
    }
    let ghost fv = cnf_view(cnf@);
    match solve(&cnf) {
        None => {
            proof {
                if solvable(s) {
                    let v = choose|v: spec_fn(SudokuCell) -> bool| grid_sat(v, s);
                    lemma_grid_to_formula(base, s, v);
                    assert(satisfiable(fv));
                }
            }
            None
        },
        Some(asg) => {
            proof {
                lemma_val_of_agrees(asg@);
                lemma_covers_sat(asg@, fv, val_of(asg@));
                lemma_formula_to_grid(base, s, val_of(asg@));
                assert(solvable(s));
                assert forall|k: int| 0 <= k < asg@.len() implies cell_ok(
                    (#[trigger] asg@[k]).0,
                ) by {
                    assert(atom_in_cnf(asg@[k].0, fv));
                    let (j, ii) = choose|j: int, ii: int|
                        0 <= j < fv.len() && 0 <= ii < fv[j].len() && fv[j][ii].0 == asg@[k].0;
                    assert(cell_ok(fv[j][ii].0));
                }
            }
            let out = render_assignment(&asg);
            proof {
                assert(unique_atoms(asg@) && (forall|k: int|
                    0 <= k < asg@.len() ==> cell_ok((#[trigger] asg@[k]).0)) && grid_sat(
                    val_of(asg@),
                    s,
                ) && out@ == render(paint(asg@)));
            }
            Some(out)
        },
    }
}

} // verus!
