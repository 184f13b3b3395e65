//! Exact depth-bounded search for a short finishing sequence.
use crate::board::{
    lemma_after_moves_cons, lemma_legal_cons, lemma_move_undo, lemma_moved_wf,
    lemma_target_on_grid, manhattan, view_of, Board, BoardView,
};
use crate::closed::same_cells;
use vstd::prelude::*;

verus! {

/// The tile that the goal holds where the blank of `b` is: a move is tried
/// only when it brings that tile there.
pub open spec fn brings_goal_tile(b: BoardView, goal: BoardView, dir: int) -> bool {
    b.cells[b.target(dir)] == goal.cells[b.empty_cell as int]
}

/// What `check_mate` returns from board `b`.
pub open spec fn mate(b: BoardView, goal: BoardView, cutoff: nat) -> Option<BoardView>
    decreases cutoff, 5int,
{
    if b.empty_cell == goal.empty_cell {
        if b.cells == goal.cells {
            Some(b)
        } else {
            None
        }
    } else if cutoff == 0 {
        None
    } else {
        mate_from(b, goal, cutoff, 0)
    }
}

/// The first success of the lookahead over directions `dir` to 3.
pub open spec fn mate_from(b: BoardView, goal: BoardView, cutoff: nat, dir: int) -> Option<
    BoardView,
>
    decreases cutoff, 4 - dir,
{
    if dir < 0 || dir >= 4 || cutoff == 0 {
        None
    } else if b.can_move(dir) && brings_goal_tile(b, goal, dir) {
        match mate(b.moved(b.target(dir)), goal, (cutoff - 1) as nat) {
            Some(r) => Some(r),
            None => mate_from(b, goal, cutoff, dir + 1),
        }
    } else {
        mate_from(b, goal, cutoff, dir + 1)
    }
}

/// Moving in direction `dir` brings the blank strictly nearer to the goal's blank.
pub open spec fn nearer(b: BoardView, goal: BoardView, dir: int) -> bool {
    let w = b.width as int;
    let ge = goal.empty_cell as int;
    manhattan(w, b.moved(b.target(dir)).empty_cell as int, ge) < manhattan(
        w,
        b.empty_cell as int,
        ge,
    )
}

/// What `check_mate2` returns from board `b`.
pub open spec fn mate2(b: BoardView, goal: BoardView) -> Option<BoardView>
    decreases manhattan(b.width as int, b.empty_cell as int, goal.empty_cell as int), 5int,
{
    if b.empty_cell == goal.empty_cell {
        if b.cells == goal.cells {
            Some(b)
        } else {
            None
        }
    } else {
        mate2_from(b, goal, 0)
    }
}

/// The first success of the approaching lookahead over directions `dir` to 3.
pub open spec fn mate2_from(b: BoardView, goal: BoardView, dir: int) -> Option<BoardView>
    decreases manhattan(b.width as int, b.empty_cell as int, goal.empty_cell as int), 4 - dir,
{
    if dir < 0 || dir >= 4 {
        None
    } else if b.can_move(dir) && brings_goal_tile(b, goal, dir) && nearer(b, goal, dir) {
        match mate2(b.moved(b.target(dir)), goal) {
            Some(r) => Some(r),
            None => mate2_from(b, goal, dir + 1),
        }
    } else {
        mate2_from(b, goal, dir + 1)
    }
}

/// Can `board` reach the goal within `cutoff` more moves? Only moves that
/// bring the tile the goal expects into the blank are tried, depth first, in
/// the order up, right, down, left; once the blank is where the goal has it,
/// the answer is whether all cells match. The board is restored before the
/// call returns.
pub fn check_mate(board: &mut Board, goal: &Board, cutoff: usize) -> (r: Option<Board>)
    requires
        old(board).wf(),
        goal.cells@.len() == old(board).cells@.len(),
    ensures
        view_of(r) == mate(old(board)@, goal@, cutoff as nat),
        final(board)@ == old(board)@,
    decreases cutoff,
{
    if board.empty_cell == goal.empty_cell {
        return if same_cells(&board.cells, &goal.cells) {
            Some(board.snapshot())
        } else {
            None
        };
    }
    if cutoff == 0 {
        return None;
    }
    let ghost b0 = board@;
    let cs = board.move_candidates();
    let mut i: usize = 0;
    while i < 4
        invariant
            board@ == b0,
            b0 == old(board)@,
            b0.wf(),
            goal.cells@.len() == b0.cells.len(),
            b0.empty_cell != goal.empty_cell,
            cutoff > 0,
            i <= 4,
            forall|d: int| 0 <= d < 4 ==> cs@[d] == b0.can_move(d),
            mate(b0, goal@, cutoff as nat) == mate_from(b0, goal@, cutoff as nat, i as int),
        decreases 4 - i,
    {
        if cs[i] {
            let t = board.neighbor(i);
            if board.cells[t] == goal.cells[board.empty_cell] {
                board.move_to(t);
                let res = check_mate(board, goal, cutoff - 1);
                board.undo();
                proof {
                    lemma_move_undo(b0, t as int);
                }
                if res.is_some() {
                    return res;
                }
            }
        }
        i = i + 1;
    }
    None
}

/// Like `check_mate` without a depth bound: a move is tried only when it also
/// brings the blank strictly nearer to where the goal has it, which ends the
/// search but may miss solutions.
pub fn check_mate2(board: &mut Board, goal: &Board) -> (r: Option<Board>)
    requires
        old(board).wf(),
        goal.cells@.len() == old(board).cells@.len(),
        goal.empty_cell < goal.cells@.len(),
        goal.cells@.len() <= isize::MAX,
    ensures
        view_of(r) == mate2(old(board)@, goal@),
        final(board)@ == old(board)@,
    decreases manhattan(old(board).width as int, old(board).empty_cell as int, goal.empty_cell as int),
{
    if board.empty_cell == goal.empty_cell {
        return if same_cells(&board.cells, &goal.cells) {
            Some(board.snapshot())
        } else {
            None
        };
    }
    let ghost b0 = board@;
    let cs = board.move_candidates();
    let distance = board.index_distance(board.empty_cell, goal.empty_cell);
    let mut i: usize = 0;
    while i < 4
        invariant
            board@ == b0,
            b0 == old(board)@,
            b0.wf(),
            goal.cells@.len() == b0.cells.len(),
            goal.empty_cell < goal.cells@.len(),
            goal.cells@.len() <= isize::MAX,
            b0.empty_cell != goal.empty_cell,
            i <= 4,
            forall|d: int| 0 <= d < 4 ==> cs@[d] == b0.can_move(d),
            distance == manhattan(b0.width as int, b0.empty_cell as int, goal.empty_cell as int),
            mate2(b0, goal@) == mate2_from(b0, goal@, i as int),
        decreases 4 - i,
    {
        if cs[i] {
            let t = board.neighbor(i);
            if board.cells[t] == goal.cells[board.empty_cell] && board.index_distance(
                t,
                goal.empty_cell,
            ) < distance {
                board.move_to(t);
                assert(manhattan(board.width as int, board.empty_cell as int, goal.empty_cell as int)
                    < manhattan(b0.width as int, b0.empty_cell as int, goal.empty_cell as int));
                let res = check_mate2(board, goal);
                board.undo();
                proof {
                    lemma_move_undo(b0, t as int);
                }
                if res.is_some() {
                    return res;
                }
            }
        }
        i = i + 1;
    }
    None
}

/// A board that `check_mate` returns holds exactly the goal's cells and is
/// reached from the given board by at most `cutoff` candidate moves; so when
/// no such sequence of moves reaches the goal, it returns nothing.
pub proof fn lemma_check_mate_sound(b: BoardView, goal: BoardView, cutoff: nat)
    requires
        b.wf(),
        goal.cells.len() == b.cells.len(),
        mate(b, goal, cutoff) is Some,
    ensures
        mate(b, goal, cutoff).unwrap().cells == goal.cells,
        mate(b, goal, cutoff).unwrap().empty_cell == goal.empty_cell,
        exists|ts: Seq<int>|
            #![trigger b.after_moves(ts)]
            {
                &&& ts.len() <= cutoff
                &&& b.on_grid(ts)
                &&& b.legal_moves(ts)
                &&& b.after_moves(ts) == mate(b, goal, cutoff).unwrap()
            },
{
    let ts = mate_witness(b, goal, cutoff);
}

proof fn mate_witness(b: BoardView, goal: BoardView, cutoff: nat) -> (ts: Seq<int>)
    requires
        b.wf(),
        goal.cells.len() == b.cells.len(),
        mate(b, goal, cutoff) is Some,
    ensures
        mate(b, goal, cutoff).unwrap().cells == goal.cells,
        mate(b, goal, cutoff).unwrap().empty_cell == goal.empty_cell,
        ts.len() <= cutoff,
        b.on_grid(ts),
        b.legal_moves(ts),
        b.after_moves(ts) == mate(b, goal, cutoff).unwrap(),
    decreases cutoff, 5int,
{
    if b.empty_cell == goal.empty_cell {
        Seq::empty()
    } else {
        mate_from_witness(b, goal, cutoff, 0)
    }
}

proof fn mate_from_witness(b: BoardView, goal: BoardView, cutoff: nat, dir: int) -> (ts: Seq<
    int,
>)
    requires
        b.wf(),
        goal.cells.len() == b.cells.len(),
        mate_from(b, goal, cutoff, dir) is Some,
    ensures
        mate_from(b, goal, cutoff, dir).unwrap().cells == goal.cells,
        mate_from(b, goal, cutoff, dir).unwrap().empty_cell == goal.empty_cell,
        ts.len() <= cutoff,
        b.on_grid(ts),
        b.legal_moves(ts),
        b.after_moves(ts) == mate_from(b, goal, cutoff, dir).unwrap(),
    decreases cutoff, 4 - dir,
{
    let t = b.target(dir);
    if b.can_move(dir) && brings_goal_tile(b, goal, dir) && mate(
        b.moved(t),
        goal,
        (cutoff - 1) as nat,
    ) is Some {
        lemma_target_on_grid(b, dir);
        lemma_moved_wf(b, t);
        let rest = mate_witness(b.moved(t), goal, (cutoff - 1) as nat);
        let ts = seq![t] + rest;
        lemma_after_moves_cons(b, t, rest);
        lemma_legal_cons(b, dir, rest);
        assert forall|i: int| 0 <= i < ts.len() implies 0 <= #[trigger] ts[i] < b.cells.len() by {
            if i > 0 {
                assert(ts[i] == rest[i - 1]);
            }
        }
        ts
    } else {
        mate_from_witness(b, goal, cutoff, dir + 1)
    }
}

/// A board that `check_mate2` returns holds exactly the goal's cells, has its
/// blank where the goal has it, and is reached from the given board by
/// candidate moves.
pub proof fn lemma_check_mate2_sound(b: BoardView, goal: BoardView)
    requires
        b.wf(),
        goal.cells.len() == b.cells.len(),
        mate2(b, goal) is Some,
    ensures
        mate2(b, goal).unwrap().cells == goal.cells,
        mate2(b, goal).unwrap().empty_cell == goal.empty_cell,
        exists|ts: Seq<int>|
            #![trigger b.after_moves(ts)]
            {
                &&& b.on_grid(ts)
                &&& b.legal_moves(ts)
                &&& b.after_moves(ts) == mate2(b, goal).unwrap()
            },
{
    let ts = mate2_witness(b, goal);
}

proof fn mate2_witness(b: BoardView, goal: BoardView) -> (ts: Seq<int>)
    requires
        b.wf(),
        goal.cells.len() == b.cells.len(),
        mate2(b, goal) is Some,
    ensures
        mate2(b, goal).unwrap().cells == goal.cells,
        mate2(b, goal).unwrap().empty_cell == goal.empty_cell,
        b.on_grid(ts),
        b.legal_moves(ts),
        b.after_moves(ts) == mate2(b, goal).unwrap(),
    decreases manhattan(b.width as int, b.empty_cell as int, goal.empty_cell as int), 5int,
{
    if b.empty_cell == goal.empty_cell {
        Seq::empty()
    } else {
        mate2_from_witness(b, goal, 0)
    }
}

proof fn mate2_from_witness(b: BoardView, goal: BoardView, dir: int) -> (ts: Seq<int>)
    requires
        b.wf(),
        goal.cells.len() == b.cells.len(),
        mate2_from(b, goal, dir) is Some,
    ensures
        mate2_from(b, goal, dir).unwrap().cells == goal.cells,
        mate2_from(b, goal, dir).unwrap().empty_cell == goal.empty_cell,
        b.on_grid(ts),
        b.legal_moves(ts),
        b.after_moves(ts) == mate2_from(b, goal, dir).unwrap(),
    decreases manhattan(b.width as int, b.empty_cell as int, goal.empty_cell as int), 4 - dir,
{
    let t = b.target(dir);
    if b.can_move(dir) && brings_goal_tile(b, goal, dir) && nearer(b, goal, dir) && mate2(
        b.moved(t),
        goal,
    ) is Some {
        lemma_target_on_grid(b, dir);
        lemma_moved_wf(b, t);
        let rest = mate2_witness(b.moved(t), goal);
        let ts = seq![t] + rest;
        lemma_after_moves_cons(b, t, rest);
        lemma_legal_cons(b, dir, rest);
        assert forall|i: int| 0 <= i < ts.len() implies 0 <= #[trigger] ts[i] < b.cells.len() by {
            if i > 0 {
                assert(ts[i] == rest[i - 1]);
            }
        }
        ts
    } else {
        mate2_from_witness(b, goal, dir + 1)
    }
}

} // verus!
