use bakeru::cancel::CancelToken;
use bakeru::solver::{ShapeData, SolveError, SolveOutcome, Solver, SolverInput};

fn input(
    width: usize,
    height: usize,
    grid: Vec<u8>,
    goal: u8,
    shapes: Vec<(usize, Vec<usize>)>,
) -> SolverInput {
    SolverInput {
        width,
        height,
        grid,
        goal,
        shapes: shapes
            .into_iter()
            .map(|(id, points)| ShapeData { id, points })
            .collect(),
    }
}

fn solve(inp: SolverInput) -> SolveOutcome {
    let mut s = Solver::new(inp).expect("valid input");
    let token = CancelToken::new();
    s.solve(&token)
}

#[test]
fn zero_shapes_rejected() {
    let r = Solver::new(input(2, 2, vec![0, 0, 0, 0], 0, vec![]));
    assert!(matches!(r, Err(SolveError::NoShapes)));
}

#[test]
fn point_out_of_range_rejected() {
    let r = Solver::new(input(2, 2, vec![1, 1, 1, 1], 0, vec![(0, vec![4])]));
    assert!(matches!(r, Err(SolveError::PointOutOfRange)));
}

#[test]
fn duplicate_point_rejected() {
    let r = Solver::new(input(2, 2, vec![1, 1, 1, 1], 0, vec![(0, vec![0, 0])]));
    assert!(matches!(r, Err(SolveError::DuplicatePoint)));
}

#[test]
fn duplicate_id_rejected() {
    let r = Solver::new(input(
        2,
        2,
        vec![1, 1, 1, 1],
        0,
        vec![(0, vec![0]), (0, vec![1])],
    ));
    assert!(matches!(r, Err(SolveError::InvalidShapeId)));
}

#[test]
fn inexact_totals_rejected() {
    // required decrements 1, coverage 2, cycle 2: slack 1/2 is not whole
    let r = Solver::new(input(2, 1, vec![1, 0], 0, vec![(0, vec![0, 1])]));
    assert!(matches!(r, Err(SolveError::InconsistentTotals)));
}

#[test]
fn coverage_deficit_rejected() {
    // required decrements 2, coverage 1: the slack would be negative
    let r = Solver::new(input(2, 1, vec![1, 1], 0, vec![(0, vec![0])]));
    assert!(matches!(r, Err(SolveError::InconsistentTotals)));
}

#[test]
fn normalization_is_goal_relative() {
    let s = Solver::new(input(3, 1, vec![0, 1, 2], 2, vec![(0, vec![0, 1, 2])])).unwrap();
    assert_eq!(s.tokens(), vec![2, 1, 0]);
}

#[test]
fn full_cover_square_solves_in_place() {
    // every cell one decrement from the goal; one shape covers all four
    let r = solve(input(2, 2, vec![1, 1, 1, 1], 0, vec![(0, vec![0, 1, 2, 3])]));
    match r {
        SolveOutcome::Solved(steps) => {
            assert_eq!(steps.len(), 1);
            assert_eq!(steps[0].original_shape_id, 0);
            assert_eq!(steps[0].placement_x, 0);
            assert_eq!(steps[0].placement_y, 0);
            assert_eq!(steps[0].placement_seq, 0);
        }
        other => panic!("expected a solution, got {:?}", other),
    }
}

#[test]
fn shape_forced_onto_goal_grid_finds_no_solution() {
    // the grid is already at the goal, but the shape must still be placed
    // and would wrap every cell with no slack to spend
    let r = solve(input(2, 2, vec![1, 1, 1, 1], 1, vec![(0, vec![0, 1, 2, 3])]));
    assert_eq!(r, SolveOutcome::NoSolution);
}

#[test]
fn larger_shape_is_placed_first() {
    // 1x3 column, tokens [0,1,2]; B covers rows 1-2 and must be tried first
    let r = solve(input(
        1,
        3,
        vec![2, 1, 0],
        2,
        vec![(0, vec![0]), (1, vec![1, 2])],
    ));
    match r {
        SolveOutcome::Solved(steps) => {
            assert_eq!(steps.len(), 2);
            // shape A (id 0, single cell) ends on row 2
            assert_eq!(steps[0].original_shape_id, 0);
            assert_eq!(steps[0].placement_x, 0);
            assert_eq!(steps[0].placement_y, 2);
            assert_eq!(steps[0].placement_seq, 2);
            // shape B (id 1) sits at the origin translation
            assert_eq!(steps[1].original_shape_id, 1);
            assert_eq!(steps[1].placement_seq, 0);
        }
        other => panic!("expected a solution, got {:?}", other),
    }
}

#[test]
fn steps_are_ordered_by_id_not_search_order() {
    let r = solve(input(
        1,
        3,
        vec![2, 1, 0],
        2,
        vec![(1, vec![0]), (0, vec![1, 2])],
    ));
    match r {
        SolveOutcome::Solved(steps) => {
            assert_eq!(steps.len(), 2);
            assert_eq!(steps[0].original_shape_id, 0);
            assert_eq!(steps[0].placement_seq, 0);
            assert_eq!(steps[1].original_shape_id, 1);
            assert_eq!(steps[1].placement_seq, 2);
        }
        other => panic!("expected a solution, got {:?}", other),
    }
}

#[test]
fn replaying_a_solution_reaches_the_goal_everywhere() {
    let width = 1usize;
    let shapes = vec![(0usize, vec![0usize]), (1usize, vec![1, 2])];
    let solver = Solver::new(input(1, 3, vec![2, 1, 0], 2, shapes.clone())).unwrap();
    let mut grid = solver.tokens();
    let mt = 3u8;
    let r = solve(input(1, 3, vec![2, 1, 0], 2, shapes.clone()));
    match r {
        SolveOutcome::Solved(steps) => {
            for st in steps {
                let (_, points) = shapes
                    .iter()
                    .find(|(id, _)| *id == st.original_shape_id)
                    .unwrap();
                for &p in points {
                    let cell =
                        (p / width + st.placement_y) * width + (p % width + st.placement_x);
                    grid[cell] = if grid[cell] == 0 { mt - 1 } else { grid[cell] - 1 };
                }
            }
            assert!(grid.iter().all(|&t| t == 0));
        }
        other => panic!("expected a solution, got {:?}", other),
    }
}

#[test]
fn identical_inputs_give_identical_solutions() {
    let mk = || {
        input(
            1,
            3,
            vec![2, 1, 0],
            2,
            vec![(0, vec![0]), (1, vec![1, 2])],
        )
    };
    let a = solve(mk());
    let b = solve(mk());
    assert_eq!(a, b);
}

// A 4x4 board, one decrement needed everywhere except two same-colored
// cells: seven dominoes can never balance the two colors, so the search
// backtracks heavily and proves the instance unsolvable.
fn parity_blocked_input() -> SolverInput {
    let mut grid = vec![1u8; 16];
    grid[0] = 0;
    grid[2] = 0;
    let shapes = (0..7usize).map(|id| (id, vec![0usize, 1])).collect();
    input(4, 4, grid, 0, shapes)
}

#[test]
fn exhaustive_backtracking_reports_no_solution() {
    assert_eq!(solve(parity_blocked_input()), SolveOutcome::NoSolution);
}

#[test]
fn failed_search_restores_the_grid() {
    let mut s = Solver::new(parity_blocked_input()).unwrap();
    let before = s.tokens();
    let token = CancelToken::new();
    assert_eq!(s.solve(&token), SolveOutcome::NoSolution);
    assert_eq!(s.tokens(), before);
}

#[test]
fn cancellation_aborts_a_heavy_search() {
    let mut s = Solver::new(parity_blocked_input()).unwrap();
    let token = CancelToken::new();
    token.cancel();
    assert_eq!(s.solve(&token), SolveOutcome::Cancelled);
}

#[test]
fn uncancelled_token_does_not_abort() {
    let mut s = Solver::new(input(2, 2, vec![1, 1, 1, 1], 0, vec![(0, vec![0, 1, 2, 3])]))
        .unwrap();
    let token = CancelToken::new();
    assert!(matches!(s.solve(&token), SolveOutcome::Solved(_)));
}

#[test]
fn empty_shape_is_placed_without_covering_anything() {
    // a zero-point shape can go anywhere and changes nothing
    let r = solve(input(
        1,
        1,
        vec![1],
        0,
        vec![(0, vec![0]), (1, vec![])],
    ));
    match r {
        SolveOutcome::Solved(steps) => {
            assert_eq!(steps.len(), 2);
            assert_eq!(steps[0].original_shape_id, 0);
            assert_eq!(steps[0].placement_seq, 0);
            assert_eq!(steps[1].original_shape_id, 1);
            assert_eq!(steps[1].placement_seq, 0);
        }
        other => panic!("expected a solution, got {:?}", other),
    }
}

#[test]
fn cycle_of_length_one_wraps_in_place() {
    // all raw values equal: every decrement wraps straight back to the goal
    let r = solve(input(2, 2, vec![0, 0, 0, 0], 0, vec![(0, vec![0])]));
    match r {
        SolveOutcome::Solved(steps) => {
            assert_eq!(steps.len(), 1);
            assert_eq!(steps[0].placement_seq, 0);
        }
        other => panic!("expected a solution, got {:?}", other),
    }
}

#[test]
fn equivalent_shapes_commit_in_seed_order() {
    // two identical dominoes: the second starts its trials at the first's
    // committed placement, so its final index is never smaller
    let r = solve(input(
        4,
        1,
        vec![1, 1, 1, 1],
        0,
        vec![(0, vec![0, 1]), (1, vec![0, 1])],
    ));
    match r {
        SolveOutcome::Solved(steps) => {
            assert_eq!(steps.len(), 2);
            assert_eq!(steps[0].placement_seq, 0);
            assert_eq!(steps[1].placement_seq, 2);
            assert!(steps[1].placement_seq >= steps[0].placement_seq);
        }
        other => panic!("expected a solution, got {:?}", other),
    }
}

#[test]
fn single_shape_no_solution_is_exhaustive() {
    // one shape, no placement fits the slack: the contract owes that no
    // placement at all would have solved it
    let r = solve(input(2, 2, vec![1, 1, 1, 1], 1, vec![(0, vec![0, 1])]));
    assert_eq!(r, SolveOutcome::NoSolution);
}
