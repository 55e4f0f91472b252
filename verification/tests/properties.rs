use nonogram::PartialSquare;
use nonogram::Puzzle;
use nonogram::Rule;
use nonogram::Solver;
use nonogram::SolverError;

fn smiley() -> Puzzle {
    Puzzle::new()
        .push_row(vec![2, 2])
        .push_row(vec![2, 2])
        .push_row(vec![])
        .push_row(vec![1, 1])
        .push_row(vec![3])
        .push_col(vec![2, 1])
        .push_col(vec![2, 1])
        .push_col(vec![1])
        .push_col(vec![2, 1])
        .push_col(vec![2, 1])
}

fn stairs() -> Puzzle {
    Puzzle::new()
        .push_row(vec![2])
        .push_row(vec![3])
        .push_row(vec![2, 1])
        .push_row(vec![2, 1])
        .push_row(vec![5])
        .push_col(vec![2])
        .push_col(vec![3])
        .push_col(vec![2, 1])
        .push_col(vec![2, 1])
        .push_col(vec![5])
}

#[test]
fn known_cells_persist_across_steps() {
    let puzzle = stairs();
    let solver = Solver::new();
    let mut worker = solver.delegate(&puzzle);
    let mut snapshot: Vec<Vec<PartialSquare>> = vec![vec![PartialSquare::Unknown; 5]; 5];
    loop {
        let progressed = match worker.step() {
            Ok(p) => p,
            Err(e) => panic!("unexpected error {:?}", e),
        };
        for i in 0..5 {
            for j in 0..5 {
                let now = worker.cell(i, j);
                if let PartialSquare::Known(x) = snapshot[i][j] {
                    assert_eq!(now, PartialSquare::Known(x));
                }
                snapshot[i][j] = now;
            }
        }
        if !progressed {
            break;
        }
    }
}

#[test]
fn solving_twice_gives_the_same_grid() {
    let puzzle = stairs();
    let solver = Solver::new();
    let first = solver.delegate(&puzzle).solve().expect("stairs should solve");
    let second = solver.delegate(&puzzle).solve().expect("stairs should solve");
    assert_eq!(first, second);
}

#[test]
fn stuck_outcome_is_repeatable() {
    let puzzle = smiley();
    let solver = Solver::new();
    assert_eq!(solver.delegate(&puzzle).solve(), Err(SolverError::Stuck));
    assert_eq!(solver.delegate(&puzzle).solve(), Err(SolverError::Stuck));
}

#[test]
fn rule_order_does_not_change_the_result() {
    let puzzle = stairs();
    let forward = Solver::with_rules(vec![Rule::Overlap, Rule::GapFill]);
    let backward = Solver::with_rules(vec![Rule::GapFill, Rule::Overlap]);
    let a = forward.delegate(&puzzle).solve().expect("stairs should solve");
    let b = backward.delegate(&puzzle).solve().expect("stairs should solve");
    assert_eq!(a, b);

    let hard = smiley();
    assert_eq!(forward.delegate(&hard).solve(), Err(SolverError::Stuck));
    assert_eq!(backward.delegate(&hard).solve(), Err(SolverError::Stuck));
}

#[test]
fn registering_extra_rules_keeps_the_result() {
    let puzzle = stairs();
    let mut extended = Solver::new();
    extended.register(Rule::GapFill);
    extended.register(Rule::Overlap);
    let base = Solver::new().delegate(&puzzle).solve().expect("stairs should solve");
    let more = extended.delegate(&puzzle).solve().expect("stairs should solve");
    assert_eq!(base, more);
}
