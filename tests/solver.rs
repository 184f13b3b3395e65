use rand_pcg::Pcg32;
use slidart::closed::ClosedSet;
use slidart::{Board, DistanceFn, ScoreFn, Solver, SolverError};

fn replay_to_start(result: &Board) -> Board {
    let mut b = result.clone();
    while !b.path.is_empty() {
        b.undo();
    }
    b
}

#[test]
fn solves_one_displaced_tile_in_one_move() {
    for distance_fn in [
        DistanceFn::BorderStripping,
        DistanceFn::SquaredManhattan,
        DistanceFn::ExclusiveSquared,
    ] {
        for cutoff in [1, 2, 50] {
            let goal = Board::new(2, vec![0, 1, 2, 3]);
            let start = Board::new(2, vec![1, 0, 2, 3]);
            let mut solver = Solver::new(goal, start).unwrap();
            solver.distance_fn = distance_fn;
            solver.check_mate_cutoff = cutoff;
            assert!(solver.search());
            assert_eq!(solver.open_node_count, 1);
            let result = solver.result.unwrap();
            assert_eq!(result.cells, vec![0, 1, 2, 3]);
            assert_eq!(result.path, vec![1]);
        }
    }
}

#[test]
fn start_equal_to_goal_solves_with_no_moves() {
    let goal = Board::new(3, vec![1, 2, 3, 4, 0, 5, 6, 7, 8]);
    let start = goal.clone();
    let mut solver = Solver::new(goal.clone(), start).unwrap();
    assert!(solver.search());
    assert_eq!(solver.open_node_count, 1);
    let result = solver.result.unwrap();
    assert!(result.path.is_empty());
    assert_eq!(result.cells, goal.cells);
}

#[test]
fn solves_a_scramble_of_a_hundred_moves() {
    let goal = Board::new(4, vec![0, 1, 1, 1, 2, 2, 2, 2, 3, 3, 3, 3, 4, 4, 4, 4]);
    let mut rng = Pcg32::new(0, 0xa02bdbf7bb3c0a7);
    let mut start = goal.clone();
    start.shuffle(100, &mut rng);
    start.path = vec![];
    assert_ne!(start.cells, goal.cells);
    let mut solver = Solver::new(goal.clone(), start.clone()).unwrap();
    solver.beam_width = 1000;
    solver.open_node_limit = 10000;
    assert!(solver.search());
    let result = solver.result.clone().unwrap();
    assert_eq!(result.cells, goal.cells);
    assert!(!result.path.is_empty());
    assert_eq!(replay_to_start(&result).cells, start.cells);
}

#[test]
fn mismatched_tiles_are_refused() {
    let goal = Board::new(2, vec![0, 1, 2, 3]);
    let start = Board::new(2, vec![0, 1, 2, 2]);
    assert_eq!(Solver::new(goal, start).err(), Some(SolverError::TileMismatch));
    let goal = Board::new(2, vec![0, 1, 2, 3]);
    let start = Board::new(3, vec![0, 1, 2, 3, 4, 5]);
    assert_eq!(Solver::new(goal, start).err(), Some(SolverError::TileMismatch));
}

#[test]
fn oversized_boards_are_refused() {
    let n = 2_100_000;
    let mut cells = vec![1u8; n];
    cells[0] = 0;
    let goal = Board::new(1, cells.clone());
    let start = Board::new(1, cells);
    assert_eq!(Solver::new(goal, start).err(), Some(SolverError::TooLarge));
}

#[test]
fn new_solver_has_the_default_settings() {
    let goal = Board::new(2, vec![0, 1, 2, 3]);
    let start = Board::new(2, vec![1, 0, 2, 3]);
    let solver = Solver::new(goal, start).unwrap();
    assert_eq!(solver.states.len(), 1);
    assert_eq!(solver.states[0].score, isize::MIN);
    assert_eq!(solver.open_node_count, 0);
    assert_eq!(solver.open_node_limit, usize::MAX);
    assert_eq!(solver.check_mate_cutoff, 50);
    assert_eq!(solver.beam_width, 1000);
    assert_eq!(solver.random_walk, 1);
    assert_eq!(solver.random_walk_len, 10);
    assert_eq!(solver.score_fn, ScoreFn::NegatedDistance);
    assert_eq!(solver.distance_fn, DistanceFn::SquaredManhattan);
    assert!(solver.result.is_none());
    assert!(solver.closed.contains(&vec![1, 0, 2, 3]));
}

#[test]
fn node_limit_stops_and_resumes() {
    let goal = Board::new(3, vec![0, 1, 2, 3, 4, 5, 6, 7, 8]);
    let mut rng = Pcg32::new(5, 0xa02bdbf7bb3c0a7);
    let mut start = goal.clone();
    start.shuffle(60, &mut rng);
    start.path = vec![];
    let mut solver = Solver::new(goal.clone(), start).unwrap();
    solver.check_mate_cutoff = 0;
    solver.open_node_limit = 3;
    let found = solver.search();
    if !found {
        assert_eq!(solver.open_node_count, 3);
        assert!(solver.result.is_none());
    }
    solver.open_node_limit = 100000;
    solver.check_mate_cutoff = 50;
    let found = found || solver.search();
    assert!(found);
    assert_eq!(solver.result.unwrap().cells, goal.cells);
}

#[test]
fn search_without_limit_room_returns_at_once() {
    let goal = Board::new(2, vec![0, 1, 2, 3]);
    let start = Board::new(2, vec![1, 2, 0, 3]);
    let mut solver = Solver::new(goal, start).unwrap();
    solver.open_node_limit = 0;
    assert!(!solver.search());
    assert_eq!(solver.open_node_count, 0);
    assert_eq!(solver.states.len(), 1);
}

#[test]
fn beam_width_bounds_the_open_population() {
    let goal = Board::new(4, vec![0, 1, 2, 3, 4, 5, 6, 7, 8, 9, 10, 11, 12, 13, 14, 15]);
    let mut rng = Pcg32::new(1, 0xa02bdbf7bb3c0a7);
    let mut start = goal.clone();
    start.shuffle(40, &mut rng);
    start.path = vec![];
    let mut solver = Solver::new(goal, start).unwrap();
    solver.beam_width = 5;
    solver.check_mate_cutoff = 0;
    solver.open_node_limit = 20;
    solver.search();
    assert!(solver.states.len() <= 5);
    for w in solver.states.windows(2) {
        assert!(w[0].score <= w[1].score);
    }
}

#[test]
fn distance_gain_scoring_solves() {
    let goal = Board::new(3, vec![0, 1, 2, 3, 4, 5, 6, 7, 8]);
    let mut rng = Pcg32::new(9, 0xa02bdbf7bb3c0a7);
    let mut start = goal.clone();
    start.shuffle(30, &mut rng);
    start.path = vec![];
    let mut solver = Solver::new(goal.clone(), start.clone()).unwrap();
    solver.score_fn = ScoreFn::DistanceGain;
    solver.distance_fn = DistanceFn::ExclusiveSquared;
    solver.open_node_limit = 100000;
    assert!(solver.search());
    let result = solver.result.unwrap();
    assert_eq!(result.cells, goal.cells);
    assert_eq!(replay_to_start(&result).cells, start.cells);
}

#[test]
fn closed_set_keeps_layouts() {
    let mut closed = ClosedSet::new();
    assert!(!closed.contains(&vec![1, 2, 3]));
    closed.insert(vec![1, 2, 3]);
    closed.insert(vec![3, 2, 1]);
    assert!(closed.contains(&vec![1, 2, 3]));
    assert!(closed.contains(&vec![3, 2, 1]));
    assert!(!closed.contains(&vec![1, 2]));
    assert!(!closed.contains(&vec![2, 1, 3]));
}

#[test]
fn open_population_holds_distinct_closed_layouts() {
    let goal = Board::new(3, vec![0, 1, 2, 3, 4, 5, 6, 7, 8]);
    let mut rng = Pcg32::new(2, 0xa02bdbf7bb3c0a7);
    let mut start = goal.clone();
    start.shuffle(50, &mut rng);
    start.path = vec![];
    let mut solver = Solver::new(goal, start).unwrap();
    solver.check_mate_cutoff = 0;
    solver.open_node_limit = 30;
    solver.search();
    for (i, a) in solver.states.iter().enumerate() {
        assert!(solver.closed.contains(&a.board.cells));
        for b in solver.states.iter().skip(i + 1) {
            assert_ne!(a.board.cells, b.board.cells);
        }
    }
}

#[test]
fn step_keeps_a_finished_state() {
    let goal = Board::new(2, vec![0, 1, 2, 3]);
    let start = Board::new(2, vec![1, 0, 2, 3]);
    let mut solver = Solver::new(goal, start).unwrap();
    assert!(solver.step());
    assert_eq!(solver.open_node_count, 1);
    assert!(solver.states.is_empty());
    assert_eq!(solver.result.unwrap().path, vec![1]);
}

#[test]
fn step_expands_an_unfinished_state() {
    // blank in the middle of a 3x3 grid, far from finishing with no lookahead
    let goal = Board::new(3, vec![0, 1, 2, 3, 4, 5, 6, 7, 8]);
    let start = Board::new(3, vec![1, 2, 3, 4, 0, 5, 6, 7, 8]);
    let mut solver = Solver::new(goal, start).unwrap();
    solver.check_mate_cutoff = 0;
    solver.random_walk = 0;
    assert!(!solver.step());
    assert_eq!(solver.open_node_count, 1);
    assert!(solver.result.is_none());
    // all four neighbours join, sorted by score
    assert_eq!(solver.states.len(), 4);
    for w in solver.states.windows(2) {
        assert!(w[0].score <= w[1].score);
    }
    for cells in [
        vec![1, 0, 3, 4, 2, 5, 6, 7, 8],
        vec![1, 2, 3, 4, 5, 0, 6, 7, 8],
        vec![1, 2, 3, 4, 7, 5, 6, 0, 8],
        vec![1, 2, 3, 0, 4, 5, 6, 7, 8],
    ] {
        assert!(solver.closed.contains(&cells));
        let d = solver.distance(&Board::new(3, cells.clone()));
        assert!(solver.states.iter().any(|s| s.board.cells == cells && s.score == -d));
    }
}

#[test]
fn step_truncates_to_the_beam() {
    let goal = Board::new(3, vec![0, 1, 2, 3, 4, 5, 6, 7, 8]);
    let start = Board::new(3, vec![1, 2, 3, 4, 0, 5, 6, 7, 8]);
    let mut solver = Solver::new(goal, start).unwrap();
    solver.check_mate_cutoff = 0;
    solver.random_walk = 0;
    solver.beam_width = 2;
    assert!(!solver.step());
    assert_eq!(solver.states.len(), 2);
    assert!(solver.states[0].score <= solver.states[1].score);
}
