use rand_pcg::Pcg32;
use slidart::{Board, BoardError};

fn grid(width: usize, cells: Vec<u8>) -> Board {
    Board::new(width, cells)
}

#[test]
fn new_finds_first_blank() {
    let b = grid(2, vec![1, 0, 2, 3]);
    assert_eq!(b.width, 2);
    assert_eq!(b.empty_cell, 1);
    assert!(b.path.is_empty());
}

#[test]
fn try_new_reports_each_error() {
    assert_eq!(Board::try_new(0, vec![0, 1]).err(), Some(BoardError::ZeroWidth));
    assert_eq!(Board::try_new(2, vec![0, 1, 2]).err(), Some(BoardError::RaggedRows));
    assert_eq!(Board::try_new(2, vec![1, 1, 2, 3]).err(), Some(BoardError::MissingBlank));
    assert_eq!(Board::try_new(2, vec![]).err(), Some(BoardError::MissingBlank));
    assert_eq!(Board::try_new(3, vec![4, 5, 0, 0, 1, 2]).err(), Some(BoardError::ExtraBlank));
    let b = Board::try_new(3, vec![4, 5, 0, 3, 1, 2]).unwrap();
    assert_eq!(b.empty_cell, 2);
}

#[test]
fn candidates_at_root_follow_the_border() {
    // blank in the top left corner of a 3x3 grid
    let b = grid(3, vec![0, 1, 2, 3, 4, 5, 6, 7, 8]);
    assert_eq!(b.move_candidates(), [false, true, true, false]);
    // blank in the middle
    let b = grid(3, vec![1, 2, 3, 4, 0, 5, 6, 7, 8]);
    assert_eq!(b.move_candidates(), [true, true, true, true]);
    // blank in the bottom right corner
    let b = grid(3, vec![1, 2, 3, 4, 5, 6, 7, 8, 0]);
    assert_eq!(b.move_candidates(), [true, false, false, true]);
}

#[test]
fn candidates_never_backtrack() {
    let mut b = grid(3, vec![1, 2, 3, 4, 0, 5, 6, 7, 8]);
    b.move_up();
    // the blank came from below: going down again is no candidate
    assert_eq!(b.move_candidates(), [false, true, false, true]);
    b.move_left();
    // the blank came from the right
    assert_eq!(b.move_candidates(), [false, false, true, false]);
}

#[test]
fn moves_swap_the_blank() {
    let mut b = grid(2, vec![0, 1, 2, 3]);
    b.move_right();
    assert_eq!(b.cells, vec![1, 0, 2, 3]);
    assert_eq!(b.empty_cell, 1);
    assert_eq!(b.path, vec![0]);
    b.move_down();
    assert_eq!(b.cells, vec![1, 3, 2, 0]);
    b.move_left();
    assert_eq!(b.cells, vec![1, 3, 0, 2]);
    b.move_up();
    assert_eq!(b.cells, vec![0, 3, 1, 2]);
    assert_eq!(b.empty_cell, 0);
    assert_eq!(b.path, vec![0, 1, 3, 2]);
}

#[test]
fn moves_then_undos_restore_the_board() {
    let start = grid(3, vec![1, 2, 3, 4, 0, 5, 6, 7, 8]);
    let mut b = start.clone();
    b.move_up();
    b.move_right();
    b.move_down();
    b.move_down();
    b.move_left();
    assert_eq!(b.path.len(), 5);
    for _ in 0..5 {
        b.undo();
    }
    assert_eq!(b.cells, start.cells);
    assert_eq!(b.empty_cell, start.empty_cell);
    assert!(b.path.is_empty());
}

#[test]
fn shuffle_then_undo_restores_the_board() {
    let start = grid(4, vec![0, 1, 1, 1, 2, 2, 2, 2, 3, 3, 3, 3, 4, 4, 4, 4]);
    let mut rng = Pcg32::new(7, 0xa02bdbf7bb3c0a7);
    let mut b = start.clone();
    b.shuffle(50, &mut rng);
    assert_eq!(b.path.len(), 50);
    while !b.path.is_empty() {
        b.undo();
    }
    assert_eq!(b.cells, start.cells);
    assert_eq!(b.empty_cell, start.empty_cell);
}

#[test]
fn random_move_takes_the_next_candidate() {
    let start = grid(2, vec![0, 1, 2, 3]);
    let mut b = start.clone();
    b.random_move(0); // up is off the grid, right is next
    assert_eq!(b.cells, vec![1, 0, 2, 3]);
    let mut b = start.clone();
    b.random_move(6); // 6 % 4 is down
    assert_eq!(b.cells, vec![2, 1, 0, 3]);
    let mut b = start.clone();
    b.random_move(3); // left is off the grid, then up, then right
    assert_eq!(b.cells, vec![1, 0, 2, 3]);
}

#[test]
fn random_move_without_candidate_keeps_the_board() {
    let mut b = grid(1, vec![0]);
    b.random_move(5);
    assert_eq!(b.cells, vec![0]);
    assert!(b.path.is_empty());
}

#[test]
fn index_distance_is_manhattan() {
    let b = grid(4, (0..12).collect());
    assert_eq!(b.index_distance(0, 0), 0);
    assert_eq!(b.index_distance(0, 11), 5);
    assert_eq!(b.index_distance(11, 0), 5);
    assert_eq!(b.index_distance(3, 8), 5);
    assert_eq!(b.index_distance(5, 6), 1);
    assert_eq!(b.index_to_xy(7), (3, 1));
    assert_eq!(b.index_to_xy(8), (0, 2));
}

#[test]
fn neighbor_gives_each_direction() {
    let b = grid(3, vec![1, 2, 3, 4, 0, 5, 6, 7, 8]);
    assert_eq!(b.neighbor(0), 1);
    assert_eq!(b.neighbor(1), 5);
    assert_eq!(b.neighbor(2), 7);
    assert_eq!(b.neighbor(3), 3);
}

#[test]
fn history_lists_boards_before_each_undo() {
    let mut b = grid(2, vec![0, 1, 2, 3]);
    b.move_right();
    b.move_down();
    let h = b.history();
    assert_eq!(h.len(), 2);
    assert_eq!(h[0].cells, vec![1, 3, 2, 0]);
    assert_eq!(h[1].cells, vec![1, 0, 2, 3]);
    assert_eq!(h[1].path, vec![0]);
}

#[test]
fn snapshot_is_independent() {
    let mut b = grid(2, vec![0, 1, 2, 3]);
    let s = b.snapshot();
    b.move_right();
    assert_eq!(s.cells, vec![0, 1, 2, 3]);
    assert!(s.path.is_empty());
}
