use slidart::{check_mate, check_mate2, Board};

#[test]
fn check_mate_finds_one_move() {
    let goal = Board::new(2, vec![0, 1, 2, 3]);
    let mut board = Board::new(2, vec![1, 0, 2, 3]);
    let r = check_mate(&mut board, &goal, 1).unwrap();
    assert_eq!(r.cells, goal.cells);
    assert_eq!(r.path, vec![1]);
    assert_eq!(board.cells, vec![1, 0, 2, 3]);
    assert!(board.path.is_empty());
}

#[test]
fn check_mate_needs_the_depth() {
    let goal = Board::new(2, vec![0, 1, 2, 3]);
    let mut board = Board::new(2, vec![1, 0, 2, 3]);
    assert!(check_mate(&mut board, &goal, 0).is_none());
    assert_eq!(board.empty_cell, 1);
}

#[test]
fn check_mate_at_goal_blank_compares_cells() {
    let goal = Board::new(2, vec![0, 1, 2, 3]);
    let mut same = Board::new(2, vec![0, 1, 2, 3]);
    assert!(check_mate(&mut same, &goal, 0).is_some());
    let mut other = Board::new(2, vec![0, 1, 3, 2]);
    assert!(check_mate(&mut other, &goal, 10).is_none());
}

#[test]
fn check_mate_follows_a_longer_line() {
    let goal = Board::new(3, vec![0, 1, 2, 3, 4, 5, 6, 7, 8]);
    let mut board = goal.clone();
    board.move_right();
    board.move_right();
    board.move_down();
    board.path.clear();
    let start = board.clone();
    assert!(check_mate(&mut board, &goal, 2).is_none());
    let r = check_mate(&mut board, &goal, 3).unwrap();
    assert_eq!(r.cells, goal.cells);
    assert_eq!(r.path.len(), 3);
    assert_eq!(board.cells, start.cells);
    assert!(board.path.is_empty());
}

#[test]
fn check_mate2_approaches_the_goal_blank() {
    let goal = Board::new(3, vec![0, 1, 2, 3, 4, 5, 6, 7, 8]);
    let mut board = goal.clone();
    board.move_right();
    board.move_down();
    board.path.clear();
    let r = check_mate2(&mut board, &goal).unwrap();
    assert_eq!(r.cells, goal.cells);
    assert_eq!(r.path.len(), 2);
    assert!(board.path.is_empty());
    let mut stuck = Board::new(2, vec![1, 0, 3, 2]);
    let goal2 = Board::new(2, vec![0, 1, 2, 3]);
    assert!(check_mate2(&mut stuck, &goal2).is_none());
}
