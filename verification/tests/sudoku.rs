use dpll::repr::Literal;
use dpll::solve::solve;
use dpll::sudoku::{solve_sudoku, SudokuCell};

#[test]
fn solve_2x2_sudoku() {
    // +-+-+
    // |2| |
    // +-+-+
    // |1| |
    // +-+-+
    let cnf = vec![
        vec![
            Literal::negated(SudokuCell::new(0, 0, 1)),
            Literal::negated(SudokuCell::new(0, 1, 1)),
        ],
        vec![
            Literal::negated(SudokuCell::new(1, 0, 1)),
            Literal::negated(SudokuCell::new(1, 1, 1)),
        ],
        vec![
            Literal::negated(SudokuCell::new(0, 0, 1)),
            Literal::negated(SudokuCell::new(1, 0, 1)),
        ],
        vec![
            Literal::negated(SudokuCell::new(0, 1, 1)),
            Literal::negated(SudokuCell::new(1, 1, 1)),
        ],
        vec![
            Literal::negated(SudokuCell::new(0, 0, 2)),
            Literal::negated(SudokuCell::new(0, 1, 2)),
        ],
        vec![
            Literal::negated(SudokuCell::new(1, 0, 2)),
            Literal::negated(SudokuCell::new(1, 1, 2)),
        ],
        vec![
            Literal::negated(SudokuCell::new(0, 0, 2)),
            Literal::negated(SudokuCell::new(1, 0, 2)),
        ],
        vec![
            Literal::negated(SudokuCell::new(0, 1, 2)),
            Literal::negated(SudokuCell::new(1, 1, 2)),
        ],
        vec![Literal::new(SudokuCell::new(0, 0, 2))],
        vec![Literal::new(SudokuCell::new(1, 0, 1))],
        vec![
            Literal::new(SudokuCell::new(0, 1, 1)),
            Literal::new(SudokuCell::new(0, 1, 2)),
        ],
        vec![
            Literal::new(SudokuCell::new(1, 1, 1)),
            Literal::new(SudokuCell::new(1, 1, 2)),
        ],
    ];
    let solution = solve(&cnf);
    assert!(solution.is_some());
}

#[test]
fn solve_already_solved_sudoku() {
    let sudoku_grid = r###"324569187
716824935
958713264
642381579
875496312
139257648
283145796
597638421
461972853
"###;
    let solution = solve_sudoku(sudoku_grid);
    assert_eq!(Some(sudoku_grid.to_string()), solution);
}

#[test]
fn solve_simple_sudoku() {
    let solution = solve_sudoku(
        r###"53__7____
6__195___
_98____6_
8___6___3
4__8_3__1
7___2___6
_6____28_
___419__5
____8__79
"###,
    );

    assert_eq!(
        Some(
            r###"534678912
672195348
198342567
859761423
426853791
713924856
961537284
287419635
345286179
"###
            .to_string()
        ),
        solution
    );
}

#[test]
fn cannot_solve_unsolvable_sudoku() {
    let solution = solve_sudoku(
        r###"516849732
3 76 5
8 97   65
135 6 9 7
472591  6
96837  5
253186 74
6842 75
791 5 6 8
"###,
    );

    assert!(solution.is_none());
}

#[test]
fn solve_sudoku_with_multiple_solutions() {
    let solution = solve_sudoku(
        r###"286159743
357648219
4197__568
821965437
693874125
7453__896
5682__974
134597682
972486351
"###,
    );

    assert!(solution.is_some());
}

#[test]
fn solved_grid_has_nine_newline_closed_lines() {
    let solution = solve_sudoku(
        r###"324569187
716824935
958713264
642381579
875496312
139257648
283145796
597638421
461972853
"###,
    )
    .expect("a solved grid stays solvable");
    assert_eq!(solution.len(), 90);
    for (p, c) in solution.chars().enumerate() {
        if p % 10 == 9 {
            assert_eq!(c, '\n');
        } else {
            assert!(c.is_ascii_digit() && c != '0');
        }
    }
}

#[test]
fn cell_coordinates_round_trip() {
    let cell = SudokuCell::new(4, 7, 3);
    assert_eq!(cell.as_tuple(), (4, 7, 3));
}

#[test]
fn clashing_givens_are_unsolvable() {
    // two fives given in one row exclude each other
    let solution = solve_sudoku("55\n");
    assert!(solution.is_none());
}
