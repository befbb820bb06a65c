//! A verified DPLL satisfiability solver.
//!
//! The solver decides satisfiability of formulas in conjunctive normal
//! form over an arbitrary atom type, combining unit propagation,
//! pure-literal elimination and recursive branch-and-backtrack search.
//!
//! - [`repr`] holds the literal/clause/formula data model;
//! - [`semantics`] gives the mathematical meaning of satisfaction that the
//!   contracts are stated against;
//! - [`solve`] holds the search procedure, whose contract states soundness
//!   (a returned assignment touches every clause of the input) and
//!   completeness (a refusal means no valuation satisfies the input);
//! - [`sudoku`] encodes 9x9 grids into formulas and decodes assignments
//!   back into grid text.

pub mod repr;
pub mod semantics;
pub mod solve;
pub mod sudoku;
