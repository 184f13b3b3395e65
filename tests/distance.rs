use rand_pcg::Pcg32;
use slidart::{compute_distance1, compute_distance2, compute_distance3, Board};

#[test]
fn test_distance() {
    let seed = 0;
    let mut rnd = Pcg32::new(seed, 0xa02bdbf7bb3c0a7);

    let initial_board = Board::new(4, vec![0, 1, 1, 1, 2, 2, 2, 2, 3, 3, 3, 3, 4, 4, 4, 4]);
    let mut board = initial_board.clone();
    for _ in 0..30 {
        println!("distance: {}", compute_distance2(&board, &initial_board));
        board.shuffle(1, &mut rnd);
    }
    println!("{:?}", board.cells);
    board.shuffle(100, &mut rnd);
    println!("{:?}", board.cells);
    println!("distance: {}", compute_distance2(&board, &initial_board));
}

#[test]
fn squared_distance_of_one_displaced_tile() {
    let goal = Board::new(2, vec![0, 1, 2, 3]);
    let board = Board::new(2, vec![1, 0, 2, 3]);
    assert_eq!(compute_distance2(&board, &goal), 1);
    assert_eq!(compute_distance3(&board, &goal), 1);
}

#[test]
fn squared_distance_squares_each_tile() {
    // tile 1 sits four steps away from its goal cell
    let goal = Board::new(3, vec![1, 2, 3, 4, 5, 6, 7, 8, 0]);
    let board = Board::new(3, vec![0, 2, 3, 4, 5, 6, 7, 8, 1]);
    assert_eq!(compute_distance2(&board, &goal), 16);
}

#[test]
fn exclusive_distance_keeps_goal_cells_apart() {
    let goal = Board::new(3, vec![1, 1, 0]);
    let board = Board::new(3, vec![0, 1, 1]);
    // both tiles may use the goal cell next to them
    assert_eq!(compute_distance2(&board, &goal), 1);
    // the first tile takes it, the second must go two cells further
    assert_eq!(compute_distance3(&board, &goal), 4);
}

#[test]
fn exclusive_distance_takes_the_nearest_cell() {
    let goal = Board::new(3, vec![1, 1, 0]);
    let board = Board::new(3, vec![1, 0, 1]);
    // the first tile takes the goal cell it sits on, the second the middle one
    assert_eq!(compute_distance3(&board, &goal), 1);
}

#[test]
fn border_distance_counts_peeled_cells() {
    let goal = Board::new(2, vec![0, 1, 2, 3]);
    let board = Board::new(2, vec![1, 0, 2, 3]);
    assert_eq!(compute_distance1(&board, &goal), -8);
    assert_eq!(compute_distance1(&goal, &goal), -14);
}

#[test]
fn goal_is_at_its_minimum_distance() {
    let goal = Board::new(4, vec![0, 1, 1, 1, 2, 2, 2, 2, 3, 3, 3, 3, 4, 4, 4, 4]);
    let mut rng = Pcg32::new(3, 0xa02bdbf7bb3c0a7);
    assert_eq!(compute_distance2(&goal, &goal), 0);
    assert_eq!(compute_distance3(&goal, &goal), 0);
    let own = compute_distance1(&goal, &goal);
    let mut board = goal.clone();
    for _ in 0..20 {
        board.shuffle(3, &mut rng);
        assert!(compute_distance1(&board, &goal) >= own);
        assert!(compute_distance2(&board, &goal) >= 0);
        assert!(compute_distance3(&board, &goal) >= 0);
    }
}

#[test]
fn distances_are_repeatable() {
    let goal = Board::new(3, vec![1, 2, 3, 4, 5, 6, 7, 8, 0]);
    let mut rng = Pcg32::new(11, 0xa02bdbf7bb3c0a7);
    let mut board = goal.clone();
    board.shuffle(40, &mut rng);
    let mut other = Board::new(3, board.cells.clone());
    other.path = vec![8, 7];
    assert_eq!(compute_distance1(&board, &goal), compute_distance1(&other, &goal));
    assert_eq!(compute_distance2(&board, &goal), compute_distance2(&other, &goal));
    assert_eq!(compute_distance3(&board, &goal), compute_distance3(&board, &goal));
    assert_eq!(compute_distance3(&board, &goal), compute_distance3(&other, &goal));
}
