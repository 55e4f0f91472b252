use nonogram::LineIndex;
use nonogram::PartialRun;
use nonogram::PartialSquare;
use nonogram::Puzzle;
use nonogram::Square;

#[test]
fn new_puzzle_grid_has_correct_dimensions() {
    let puzzle = Puzzle::new()
        .push_row(vec![5])
        .push_row(vec![1])
        .push_row(vec![5])
        .push_row(vec![1])
        .push_row(vec![5])
        .push_col(vec![3, 1])
        .push_col(vec![1, 1, 1])
        .push_col(vec![1, 1, 1])
        .push_col(vec![1, 1, 1])
        .push_col(vec![1, 3]);

    assert_eq!(puzzle.w(), 5);
    assert_eq!(puzzle.h(), 5);
}

#[test]
fn line_through_crosses_the_axis() {
    assert_eq!(LineIndex::Row(2).line_through(4), LineIndex::Col(4));
    assert_eq!(LineIndex::Col(3).line_through(0), LineIndex::Row(0));
}

#[test]
fn index_iter_yields_rows_then_cols() {
    let puzzle = Puzzle::new()
        .push_row(vec![1])
        .push_row(vec![1])
        .push_col(vec![2])
        .push_col(vec![])
        .push_col(vec![1]);
    let mut it = puzzle.index_iter();
    let mut seen = Vec::new();
    while let Some(li) = it.next() {
        seen.push(li);
    }
    assert_eq!(
        seen,
        vec![
            LineIndex::Row(0),
            LineIndex::Row(1),
            LineIndex::Col(0),
            LineIndex::Col(1),
            LineIndex::Col(2),
        ]
    );
}

#[test]
fn index_iter_of_empty_puzzle_is_empty() {
    let puzzle = Puzzle::new();
    let mut it = puzzle.index_iter();
    assert_eq!(it.next(), None);
}

#[test]
fn partial_square_knows_its_state() {
    assert!(!PartialSquare::Unknown.is_known());
    assert!(PartialSquare::Known(Square::Full).is_known());
    assert_eq!(PartialSquare::Known(Square::Empty).collapse(), Square::Empty);
}

#[test]
fn partial_square_settle_reports_change() {
    let mut sq = PartialSquare::Unknown;
    assert!(sq.settle(Square::Full));
    assert_eq!(sq, PartialSquare::Known(Square::Full));
    assert!(!sq.settle(Square::Full));
    assert!(sq.settle(Square::Empty));
    assert_eq!(sq, PartialSquare::Known(Square::Empty));
}

#[test]
fn partial_run_update_tightens_only() {
    let mut run = PartialRun::new(10);
    assert_eq!(run.lo, 0);
    assert_eq!(run.hi, 10);
    run.update(3, 8);
    assert_eq!(run.lo, 3);
    assert_eq!(run.hi, 8);
    run.update(1, 9);
    assert_eq!(run.lo, 3);
    assert_eq!(run.hi, 8);
}

#[test]
fn hints_returns_the_right_line() {
    let puzzle = Puzzle::new()
        .push_row(vec![2, 1])
        .push_row(vec![3])
        .push_col(vec![1])
        .push_col(vec![2])
        .push_col(vec![1, 1]);
    assert_eq!(puzzle.hints(LineIndex::Row(0)).as_slice(), &[2, 1]);
    assert_eq!(puzzle.hints(LineIndex::Row(1)).as_slice(), &[3]);
    assert_eq!(puzzle.hints(LineIndex::Col(2)).as_slice(), &[1, 1]);
}

#[test]
fn with_capacity_starts_empty() {
    let puzzle = Puzzle::with_capacity(4, 7);
    assert_eq!(puzzle.w(), 0);
    assert_eq!(puzzle.h(), 0);
}
