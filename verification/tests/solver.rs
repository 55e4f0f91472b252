use nonogram::Grid;
use nonogram::PartialSquare;
use nonogram::Puzzle;
use nonogram::Solver;
use nonogram::SolverError;
use nonogram::Square;

fn snake() -> Puzzle {
    Puzzle::new()
        .push_row(vec![5])
        .push_row(vec![1])
        .push_row(vec![5])
        .push_row(vec![1])
        .push_row(vec![5])
        .push_col(vec![3, 1])
        .push_col(vec![1, 1, 1])
        .push_col(vec![1, 1, 1])
        .push_col(vec![1, 1, 1])
        .push_col(vec![1, 3])
}

fn checkerboard() -> Puzzle {
    Puzzle::new()
        .push_row(vec![1, 1, 1])
        .push_row(vec![1, 1])
        .push_row(vec![1, 1, 1])
        .push_row(vec![1, 1])
        .push_row(vec![1, 1, 1])
        .push_col(vec![1, 1, 1])
        .push_col(vec![1, 1])
        .push_col(vec![1, 1, 1])
        .push_col(vec![1, 1])
        .push_col(vec![1, 1, 1])
}

fn stairs() -> Puzzle {
    Puzzle::new()
        .push_row(vec![2])
        .push_row(vec![3])
        .push_row(vec![2, 1])
        .push_row(vec![2, 1])
        .push_row(vec![5])
        .push_col(vec![2])
        .push_col(vec![3])
        .push_col(vec![2, 1])
        .push_col(vec![2, 1])
        .push_col(vec![5])
}

fn smiley() -> Puzzle {
    Puzzle::new()
        .push_row(vec![2, 2])
        .push_row(vec![2, 2])
        .push_row(vec![])
        .push_row(vec![1, 1])
        .push_row(vec![3])
        .push_col(vec![2, 1])
        .push_col(vec![2, 1])
        .push_col(vec![1])
        .push_col(vec![2, 1])
        .push_col(vec![2, 1])
}

fn picture(grid: &Grid) -> Vec<Vec<bool>> {
    let mut rows = Vec::new();
    let mut i = 0;
    while i < grid.h() {
        let mut row = Vec::new();
        let mut j = 0;
        while j < grid.w() {
            match grid.get(i, j) {
                PartialSquare::Known(Square::Full) => row.push(true),
                PartialSquare::Known(Square::Empty) => row.push(false),
                PartialSquare::Unknown => panic!("cell left unknown in a solved grid"),
            }
            j += 1;
        }
        rows.push(row);
        i += 1;
    }
    rows
}

#[test]
fn easy_puzzle_snake() {
    let puzzle = snake();
    let solver = Solver::new();
    let worker = solver.delegate(&puzzle);

    assert!(worker.solve().is_ok());
}

#[test]
fn easy_puzzle_checkerboard() {
    let puzzle = checkerboard();
    let solver = Solver::new();
    let worker = solver.delegate(&puzzle);

    assert!(worker.solve().is_ok());
}

#[test]
fn easy_puzzle_stairs() {
    let puzzle = stairs();
    let solver = Solver::new();
    let worker = solver.delegate(&puzzle);

    assert!(worker.solve().is_ok());
}

#[test]
fn nonlinear_puzzle_smiley() {
    let puzzle = smiley();
    let solver = Solver::new();
    let worker = solver.delegate(&puzzle);

    assert_eq!(worker.solve(), Err(SolverError::Stuck));
}

#[test]
fn snake_matches_the_zigzag() {
    let puzzle = snake();
    let grid = Solver::new().delegate(&puzzle).solve().expect("snake should solve");
    let expected = vec![
        vec![true, true, true, true, true],
        vec![true, false, false, false, false],
        vec![true, true, true, true, true],
        vec![false, false, false, false, true],
        vec![true, true, true, true, true],
    ];
    assert_eq!(picture(&grid), expected);
}

#[test]
fn checkerboard_matches_parity() {
    let puzzle = checkerboard();
    let grid = Solver::new().delegate(&puzzle).solve().expect("checkerboard should solve");
    let cells = picture(&grid);
    for i in 0..5 {
        for j in 0..5 {
            assert_eq!(cells[i][j], (i + j) % 2 == 0);
        }
    }
}

#[test]
fn stairs_grid_is_symmetric() {
    let puzzle = stairs();
    let grid = Solver::new().delegate(&puzzle).solve().expect("stairs should solve");
    let cells = picture(&grid);
    for i in 0..5 {
        for j in 0..5 {
            assert_eq!(cells[i][j], cells[j][i]);
        }
    }
}

#[test]
fn degenerate_empty_puzzle_is_all_empty() {
    let puzzle = Puzzle::new()
        .push_row(vec![])
        .push_row(vec![])
        .push_row(vec![])
        .push_col(vec![])
        .push_col(vec![])
        .push_col(vec![]);
    let grid = Solver::new().delegate(&puzzle).solve().expect("empty puzzle should solve");
    let cells = picture(&grid);
    for i in 0..3 {
        for j in 0..3 {
            assert!(!cells[i][j]);
        }
    }
}

#[test]
fn contradiction_is_invalid() {
    let puzzle = Puzzle::new().push_row(vec![1]).push_col(vec![]);
    let solver = Solver::new();
    assert_eq!(solver.delegate(&puzzle).solve(), Err(SolverError::Invalid));
}

#[test]
fn oversized_hints_are_malformed() {
    let puzzle = Puzzle::new()
        .push_row(vec![6])
        .push_row(vec![])
        .push_row(vec![])
        .push_row(vec![])
        .push_row(vec![])
        .push_col(vec![])
        .push_col(vec![])
        .push_col(vec![])
        .push_col(vec![])
        .push_col(vec![]);
    let solver = Solver::new();
    assert_eq!(solver.delegate(&puzzle).solve(), Err(SolverError::MalformedPuzzle));
}

#[test]
fn crowded_hints_are_malformed() {
    // 3 + 1 + one separating cell need five cells; four are not enough.
    let puzzle = Puzzle::new()
        .push_row(vec![3, 1])
        .push_row(vec![])
        .push_row(vec![])
        .push_row(vec![])
        .push_col(vec![])
        .push_col(vec![])
        .push_col(vec![])
        .push_col(vec![]);
    let solver = Solver::new();
    assert_eq!(solver.delegate(&puzzle).solve(), Err(SolverError::MalformedPuzzle));
}

#[test]
fn zero_hint_is_malformed() {
    let puzzle = Puzzle::new().push_row(vec![0]).push_col(vec![]);
    let solver = Solver::new();
    assert_eq!(solver.delegate(&puzzle).solve(), Err(SolverError::MalformedPuzzle));
}

#[test]
fn grid_set_and_get_round_trip() {
    let mut grid = Grid::new(2, 3);
    assert_eq!(grid.h(), 2);
    assert_eq!(grid.w(), 3);
    for i in 0..2 {
        for j in 0..3 {
            assert_eq!(grid.get(i, j), PartialSquare::Unknown);
        }
    }
    grid.set(1, 2, PartialSquare::Known(Square::Full));
    grid.set(0, 0, PartialSquare::Known(Square::Empty));
    assert_eq!(grid.get(1, 2), PartialSquare::Known(Square::Full));
    assert_eq!(grid.get(0, 0), PartialSquare::Known(Square::Empty));
    assert_eq!(grid.get(0, 2), PartialSquare::Unknown);
}
