//! The puzzle grid, with reversible moves of the blank cell.
use vstd::arithmetic::div_mod::{
    lemma_fundamental_div_mod, lemma_fundamental_div_mod_converse, lemma_small_mod,
};
use crate::distance_fn::{lemma_occurrences_multiset, occurrences};
use crate::random::next_draw;
use rand_pcg::Lcg64Xsh32;
use vstd::prelude::*;

verus! {

/// What a board is, as a mathematical value.
pub struct BoardView {
    pub width: usize,
    pub cells: Seq<u8>,
    pub empty_cell: usize,
    pub path: Seq<usize>,
}

/// Column of index `i` on a grid of width `w`.
pub open spec fn column(w: int, i: int) -> int {
    i % w
}

/// Row of index `i` on a grid of width `w`.
pub open spec fn row(w: int, i: int) -> int {
    i / w
}

pub open spec fn abs_diff(a: int, b: int) -> int {
    if a >= b {
        a - b
    } else {
        b - a
    }
}

/// Manhattan distance between two linear indices of a grid of width `w`.
pub open spec fn manhattan(w: int, a: int, b: int) -> int {
    abs_diff(column(w, a), column(w, b)) + abs_diff(row(w, a), row(w, b))
}

impl BoardView {
    /// A width that divides the cell count, exactly one blank, where
    /// `empty_cell` says, and a history of indices that lie on the grid.
    pub open spec fn wf(self) -> bool {
        &&& self.width > 0
        &&& self.cells.len() <= usize::MAX
        &&& (self.cells.len() as int) % (self.width as int) == 0
        &&& self.cells.to_multiset().count(0u8) == 1
        &&& self.empty_cell < self.cells.len()
        &&& self.cells[self.empty_cell as int] == 0
        &&& forall|i: int| 0 <= i < self.path.len() ==> #[trigger] self.path[i] < self.cells.len()
    }

    /// The blank can leave in direction `dir` (0 up, 1 right, 2 down, 3 left)
    /// without crossing the border of the grid.
    pub open spec fn inside(self, dir: int) -> bool {
        let e = self.empty_cell as int;
        let w = self.width as int;
        if dir == 0 {
            e >= w
        } else if dir == 1 {
            e % w != w - 1
        } else if dir == 2 {
            e + w < self.cells.len()
        } else if dir == 3 {
            e % w != 0
        } else {
            false
        }
    }

    /// The index the blank moves to in direction `dir`.
    pub open spec fn target(self, dir: int) -> int {
        let e = self.empty_cell as int;
        let w = self.width as int;
        if dir == 0 {
            e - w
        } else if dir == 1 {
            e + 1
        } else if dir == 2 {
            e + w
        } else {
            e - 1
        }
    }

    /// A move is a candidate when it stays on the grid and does not put the
    /// blank back where it just came from.
    pub open spec fn can_move(self, dir: int) -> bool {
        &&& self.inside(dir)
        &&& (self.path.len() == 0 || self.path.last() as int != self.target(dir))
    }

    /// The board after the tile at `t` slid into the blank.
    pub open spec fn moved(self, t: int) -> BoardView {
        BoardView {
            width: self.width,
            cells: self.cells.update(self.empty_cell as int, self.cells[t]).update(t, 0),
            empty_cell: t as usize,
            path: self.path.push(self.empty_cell),
        }
    }

    /// The board with its most recent move taken back.
    pub open spec fn undone(self) -> BoardView {
        let last = self.path.last();
        BoardView {
            width: self.width,
            cells: self.cells.update(self.empty_cell as int, self.cells[last as int]).update(
                last as int,
                0,
            ),
            empty_cell: last,
            path: self.path.drop_last(),
        }
    }

    /// The board after the blank moved to each index of `ts` in turn.
    pub open spec fn after_moves(self, ts: Seq<int>) -> BoardView
        decreases ts.len(),
    {
        if ts.len() == 0 {
            self
        } else {
            self.after_moves(ts.drop_last()).moved(ts.last())
        }
    }

    /// The board after `k` calls of `undo`.
    pub open spec fn undone_times(self, k: nat) -> BoardView
        decreases k,
    {
        if k == 0 {
            self
        } else {
            self.undone().undone_times((k - 1) as nat)
        }
    }

    /// Every index of `ts` lies on the grid.
    pub open spec fn on_grid(self, ts: Seq<int>) -> bool {
        forall|i: int| 0 <= i < ts.len() ==> 0 <= #[trigger] ts[i] < self.cells.len()
    }

    /// Each index of `ts` is, when its turn comes, the target of a candidate move.
    pub open spec fn legal_moves(self, ts: Seq<int>) -> bool
        decreases ts.len(),
    {
        if ts.len() == 0 {
            true
        } else {
            &&& self.legal_moves(ts.drop_last())
            &&& exists|d: int|
                0 <= d < 4 && #[trigger] self.after_moves(ts.drop_last()).can_move(d)
                    && self.after_moves(ts.drop_last()).target(d) == ts.last()
        }
    }

    /// Taking back the moves made since `start` gives `start` again.
    pub open spec fn rewinds_to(self, start: BoardView) -> bool {
        &&& start.path.len() <= self.path.len()
        &&& self.undone_times((self.path.len() - start.path.len()) as nat) == start
    }
}

/// The view of an optional board.
pub open spec fn view_of(r: Option<Board>) -> Option<BoardView> {
    match r {
        Some(b) => Some(b@),
        None => None,
    }
}

/// Moving first to `t` and then along `ts` is moving along `t` followed by `ts`.
pub proof fn lemma_after_moves_cons(b: BoardView, t: int, ts: Seq<int>)
    ensures
        b.after_moves(seq![t] + ts) == b.moved(t).after_moves(ts),
    decreases ts.len(),
{
    let st = seq![t] + ts;
    if ts.len() == 0 {
        assert(st.drop_last() =~= Seq::<int>::empty());
        assert(st.last() == t);
        assert(b.after_moves(Seq::<int>::empty()) == b);
        assert(b.after_moves(st) == b.after_moves(st.drop_last()).moved(st.last()));
    } else {
        assert(st.drop_last() =~= seq![t] + ts.drop_last());
        assert(st.last() == ts.last());
        lemma_after_moves_cons(b, t, ts.drop_last());
        assert(b.after_moves(st) == b.after_moves(st.drop_last()).moved(st.last()));
    }
}

/// A candidate move followed by legal moves is a legal sequence.
pub proof fn lemma_legal_cons(b: BoardView, d: int, ts: Seq<int>)
    requires
        0 <= d < 4,
        b.can_move(d),
        b.moved(b.target(d)).legal_moves(ts),
    ensures
        b.legal_moves(seq![b.target(d)] + ts),
    decreases ts.len(),
{
    let t = b.target(d);
    let st = seq![t] + ts;
    if ts.len() == 0 {
        assert(st.drop_last() =~= Seq::<int>::empty());
        assert(st.last() == t);
        assert(b.after_moves(Seq::<int>::empty()) == b);
        assert(b.after_moves(st.drop_last()).can_move(d));
        assert(b.legal_moves(st.drop_last()));
    } else {
        let ts0 = ts.drop_last();
        assert(st.drop_last() =~= seq![t] + ts0);
        assert(st.last() == ts.last());
        lemma_legal_cons(b, d, ts0);
        lemma_after_moves_cons(b, t, ts0);
        let d2 = choose|d2: int|
            0 <= d2 < 4 && #[trigger] b.moved(t).after_moves(ts0).can_move(d2) && b.moved(
                t,
            ).after_moves(ts0).target(d2) == ts.last();
        assert(b.after_moves(seq![t] + ts0).can_move(d2));
    }
}

pub proof fn lemma_pick_direction(b: BoardView, start: int, tried: int)
    requires
        0 <= start,
    ensures
        pick_direction(b, start, tried) matches Some(d) ==> 0 <= d < 4 && b.can_move(d),
    decreases 4 - tried,
{
    if 0 <= tried < 4 && !b.can_move((start + tried) % 4) {
        lemma_pick_direction(b, start, tried + 1);
    }
}

/// When no direction is picked, none of those left to try is a candidate.
pub proof fn lemma_pick_none(b: BoardView, start: int, tried: int)
    requires
        0 <= tried <= 4,
        pick_direction(b, start, tried) is None,
    ensures
        forall|t: int| tried <= t < 4 ==> !#[trigger] b.can_move((start + t) % 4),
    decreases 4 - tried,
{
    if tried < 4 {
        lemma_pick_none(b, start, tried + 1);
    }
}

/// On a grid of at least two rows and two columns the blank always has a
/// candidate move: one on the grid vertically and one horizontally, and only
/// one of them can lead back.
pub proof fn lemma_candidate_exists(b: BoardView)
    requires
        b.wf(),
        b.width >= 2,
        b.cells.len() >= 2 * b.width,
    ensures
        exists|d: int| 0 <= d < 4 && #[trigger] b.can_move(d),
{
    let e = b.empty_cell as int;
    let w = b.width as int;
    let dv: int = if e >= w {
        0
    } else {
        2
    };
    let dh: int = if e % w != w - 1 {
        1
    } else {
        3
    };
    assert(b.inside(dv));
    assert(b.inside(dh));
    assert(b.target(dv) != b.target(dh));
    assert(b.can_move(dv) || b.can_move(dh));
}

/// On a grid of at least two rows and two columns a direction is always picked.
pub proof fn lemma_pick_some(b: BoardView, start: int)
    requires
        b.wf(),
        b.width >= 2,
        b.cells.len() >= 2 * b.width,
        0 <= start < 4,
    ensures
        pick_direction(b, start, 0) is Some,
{
    lemma_candidate_exists(b);
    let d = choose|d: int| 0 <= d < 4 && #[trigger] b.can_move(d);
    if pick_direction(b, start, 0) is None {
        lemma_pick_none(b, start, 0);
        let t = if d >= start {
            d - start
        } else {
            d + 4 - start
        };
        assert((start + t) % 4 == d);
        assert(!b.can_move((start + t) % 4));
    }
}

pub proof fn lemma_width_fits(b: BoardView)
    requires
        b.wf(),
    ensures
        b.width <= b.cells.len(),
{
    if b.cells.len() < b.width {
        lemma_small_mod(b.cells.len(), b.width as nat);
    }
}

pub proof fn lemma_target_on_grid(b: BoardView, dir: int)
    requires
        b.wf(),
        b.inside(dir),
    ensures
        0 <= b.target(dir) < b.cells.len(),
{
    let e = b.empty_cell as int;
    let w = b.width as int;
    let n = b.cells.len() as int;
    if dir == 1 {
        lemma_fundamental_div_mod(e, w);
        if e + 1 == n {
            lemma_fundamental_div_mod_converse(e + 1, w, e / w, e % w + 1);
        }
    } else if dir == 3 {
        if e == 0 {
            assert(0int % w == 0);
        }
    }
}

pub proof fn lemma_moved_wf(b: BoardView, t: int)
    requires
        b.wf(),
        0 <= t < b.cells.len(),
    ensures
        b.moved(t).wf(),
        b.moved(t).cells.to_multiset() == b.cells.to_multiset(),
        b.moved(t).cells.len() == b.cells.len(),
{
    broadcast use vstd::seq_lib::to_multiset_update;
    broadcast use vstd::multiset::group_multiset_axioms;

    let m = b.moved(t);
    assert forall|i: int| 0 <= i < m.path.len() implies #[trigger] m.path[i] < m.cells.len() by {
        if i < b.path.len() {
            assert(m.path[i] == b.path[i]);
        }
    }
    assert(m.path[b.path.len() as int] == b.empty_cell);
    assert(m.cells[t] == 0);
    broadcast use vstd::seq_lib::to_multiset_contains;

    let e = b.empty_cell as int;
    assert(b.cells.to_multiset().count(0u8) > 0) by {
        assert(b.cells.contains(0u8)) by {
            assert(b.cells[e] == 0u8);
        }
    }
    let s1 = b.cells.update(e, b.cells[t]);
    assert(s1.to_multiset() == b.cells.to_multiset().insert(b.cells[t]).remove(0u8));
    assert(s1[t] == b.cells[t]);
    assert(m.cells.to_multiset() == s1.to_multiset().insert(0u8).remove(b.cells[t]));
    assert(m.cells.to_multiset() =~= b.cells.to_multiset());
}

pub proof fn lemma_undone_wf(b: BoardView)
    requires
        b.wf(),
        b.path.len() > 0,
    ensures
        b.undone().wf(),
        b.undone().cells.len() == b.cells.len(),
{
    let u = b.undone();
    assert(b.path[b.path.len() - 1] < b.cells.len());
    lemma_moved_wf(b, b.path.last() as int);
    assert(u.cells == b.moved(b.path.last() as int).cells);
    assert forall|i: int| 0 <= i < u.path.len() implies #[trigger] u.path[i] < u.cells.len() by {
        assert(u.path[i] == b.path[i]);
    }
}

/// A move followed by `undo` gives back the board it started from.
pub proof fn lemma_move_undo(b: BoardView, t: int)
    requires
        b.wf(),
        0 <= t < b.cells.len(),
    ensures
        b.moved(t).undone() == b,
{
    let m = b.moved(t);
    let u = m.undone();
    let e = b.empty_cell as int;
    assert(m.path.last() == b.empty_cell);
    assert(m.empty_cell as int == t);
    assert(u.empty_cell == b.empty_cell);
    assert forall|i: int| 0 <= i < b.cells.len() implies u.cells[i] == b.cells[i] by {
        if i == e {
        } else if i == t {
            assert(m.cells[e] == b.cells[t]);
        } else {
            assert(m.cells[i] == b.cells[i]);
        }
    }
    assert(u.cells =~= b.cells);
    assert(u.path =~= b.path);
}

pub proof fn lemma_after_moves_wf(b: BoardView, ts: Seq<int>)
    requires
        b.wf(),
        b.on_grid(ts),
    ensures
        b.after_moves(ts).wf(),
        b.after_moves(ts).cells.len() == b.cells.len(),
        b.after_moves(ts).cells.to_multiset() == b.cells.to_multiset(),
        b.after_moves(ts).path.len() == b.path.len() + ts.len(),
        b.after_moves(ts).width == b.width,
    decreases ts.len(),
{
    if ts.len() > 0 {
        let ts0 = ts.drop_last();
        assert(b.on_grid(ts0)) by {
            assert forall|i: int| 0 <= i < ts0.len() implies 0 <= #[trigger] ts0[i]
                < b.cells.len() by {
                assert(ts0[i] == ts[i]);
            }
        }
        lemma_after_moves_wf(b, ts0);
        assert(0 <= ts[ts.len() - 1] < b.cells.len());
        lemma_moved_wf(b.after_moves(ts0), ts.last());
    }
}

/// Moving the blank along any sequence of indices on the grid and then calling
/// `undo` as many times restores the cells, the blank and the history.
pub proof fn lemma_moves_then_undo(b: BoardView, ts: Seq<int>)
    requires
        b.wf(),
        b.on_grid(ts),
    ensures
        b.after_moves(ts).undone_times(ts.len()) == b,
    decreases ts.len(),
{
    if ts.len() > 0 {
        let ts0 = ts.drop_last();
        assert(b.on_grid(ts0)) by {
            assert forall|i: int| 0 <= i < ts0.len() implies 0 <= #[trigger] ts0[i]
                < b.cells.len() by {
                assert(ts0[i] == ts[i]);
            }
        }
        lemma_after_moves_wf(b, ts0);
        assert(0 <= ts[ts.len() - 1] < b.cells.len());
        lemma_move_undo(b.after_moves(ts0), ts.last());
        lemma_moves_then_undo(b, ts0);
        assert((ts.len() - 1) as nat == ts0.len());
    }
}

/// After moves along a sequence on the grid, the board rewinds to where it began.
pub proof fn lemma_moves_rewind(b: BoardView, ts: Seq<int>)
    requires
        b.wf(),
        b.on_grid(ts),
    ensures
        b.after_moves(ts).rewinds_to(b),
{
    lemma_after_moves_wf(b, ts);
    lemma_moves_then_undo(b, ts);
    assert((b.after_moves(ts).path.len() - b.path.len()) as nat == ts.len());
}

/// A candidate move never sends the blank back to the index it has just
/// left; on a board without history every move that stays on the grid is a
/// candidate.
pub proof fn lemma_no_backtrack(b: BoardView, dir: int)
    requires
        0 <= dir < 4,
    ensures
        b.can_move(dir) && b.path.len() > 0 ==> b.target(dir) != b.path.last() as int,
        b.path.len() == 0 ==> (b.can_move(dir) <==> b.inside(dir)),
{
}

/// The direction a random move takes: the first candidate among `start`,
/// `start + 1`, ... (counted modulo 4), having tried `tried` of them.
pub open spec fn pick_direction(b: BoardView, start: int, tried: int) -> Option<int>
    decreases 4 - tried,
{
    if tried < 0 || tried >= 4 {
        None
    } else if b.can_move((start + tried) % 4) {
        Some((start + tried) % 4)
    } else {
        pick_direction(b, start, tried + 1)
    }
}

/// The board after `random_move(draw)`.
pub open spec fn random_moved(b: BoardView, draw: u32) -> BoardView {
    match pick_direction(b, (draw % 4) as int, 0) {
        Some(d) => b.moved(b.target(d)),
        None => b,
    }
}

/// The board after one `random_move` for each of `draws`, in turn.
pub open spec fn shuffled(b: BoardView, draws: Seq<u32>) -> BoardView
    decreases draws.len(),
{
    if draws.len() == 0 {
        b
    } else {
        random_moved(shuffled(b, draws.drop_last()), draws.last())
    }
}

/// Undoing first `k1` and then `k2` moves is undoing `k1 + k2` moves.
pub proof fn lemma_undone_times_add(b: BoardView, k1: nat, k2: nat)
    ensures
        b.undone_times(k1 + k2) == b.undone_times(k1).undone_times(k2),
    decreases k1,
{
    if k1 > 0 {
        lemma_undone_times_add(b.undone(), (k1 - 1) as nat, k2);
        assert((k1 + k2 - 1) as nat == (k1 - 1) as nat + k2);
    }
}

/// Rewinding is transitive.
pub proof fn lemma_rewinds_trans(c: BoardView, b: BoardView, a: BoardView)
    requires
        c.rewinds_to(b),
        b.rewinds_to(a),
    ensures
        c.rewinds_to(a),
{
    let k1 = (c.path.len() - b.path.len()) as nat;
    let k2 = (b.path.len() - a.path.len()) as nat;
    lemma_undone_times_add(c, k1, k2);
    assert((c.path.len() - a.path.len()) as nat == k1 + k2);
}

/// The ways a tile layout can fail to be a board.
#[derive(Debug, Clone, Copy, PartialEq, Eq, Structural)]
pub enum BoardError {
    /// The width is zero.
    ZeroWidth,
    /// The cell count is not a multiple of the width.
    RaggedRows,
    /// No cell holds the blank `0`.
    MissingBlank,
    /// More than one cell holds the blank `0`.
    ExtraBlank,
}

/// A grid of tiles, `0` being the blank, with the history of its moves.
#[derive(Clone, Debug)]
pub struct Board {
    pub width: usize,
    pub cells: Vec<u8>,
    pub empty_cell: usize,
    /// For each move taken, the index the blank left.
    pub path: Vec<usize>,
}

impl View for Board {
    type V = BoardView;

    open spec fn view(&self) -> BoardView {
        BoardView {
            width: self.width,
            cells: self.cells@,
            empty_cell: self.empty_cell,
            path: self.path@,
        }
    }
}

impl Board {
    pub open spec fn wf(&self) -> bool {
        self@.wf()
    }

    /// A board over `cells` with rows of `width` cells and an empty history; the
    /// blank is the one cell that holds `0`.
    pub fn new(width: usize, cells: Vec<u8>) -> (r: Board)
        requires
            width > 0,
            (cells@.len() as int) % (width as int) == 0,
            cells@.to_multiset().count(0u8) == 1,
        ensures
            r.wf(),
            r.width == width,
            r.cells@ == cells@,
            r.path@.len() == 0,
            r.cells@[r.empty_cell as int] == 0,
            forall|i: int| 0 <= i < r.empty_cell ==> cells@[i] != 0,
    {
        proof {
            vstd::seq_lib::to_multiset_contains(cells@, 0u8);
        }
        let _n = cells.len();
        let mut i: usize = 0;
        while i < cells.len() && cells[i] != 0
            invariant
                i <= cells@.len(),
                cells@.contains(0),
                forall|k: int| 0 <= k < i ==> cells@[k] != 0,
            decreases cells.len() - i,
        {
            i = i + 1;
        }
        Board { width, cells, empty_cell: i, path: Vec::new() }
    }

    /// Like `new`, but reports a malformed layout instead of requiring a good one.
    pub fn try_new(width: usize, cells: Vec<u8>) -> (r: Result<Board, BoardError>)
        ensures
            width == 0 ==> r == Err::<Board, BoardError>(BoardError::ZeroWidth),
            width > 0 && (cells@.len() as int) % (width as int) != 0 ==> r == Err::<Board, BoardError>(
                BoardError::RaggedRows,
            ),
            width > 0 && (cells@.len() as int) % (width as int) == 0 && cells@.to_multiset().count(
                0u8,
            ) == 0 ==> r == Err::<Board, BoardError>(BoardError::MissingBlank),
            width > 0 && (cells@.len() as int) % (width as int) == 0 && cells@.to_multiset().count(
                0u8,
            ) > 1 ==> r == Err::<Board, BoardError>(BoardError::ExtraBlank),
            width > 0 && (cells@.len() as int) % (width as int) == 0 && cells@.to_multiset().count(
                0u8,
            ) == 1 ==> match r {
                Ok(b) => {
                    &&& b.wf()
                    &&& b.width == width
                    &&& b.cells@ == cells@
                    &&& b.path@.len() == 0
                    &&& forall|i: int| 0 <= i < b.empty_cell ==> cells@[i] != 0
                },
                Err(_) => false,
            },
    {
        if width == 0 {
            return Err(BoardError::ZeroWidth);
        }
        if cells.len() % width != 0 {
            return Err(BoardError::RaggedRows);
        }
        let mut blanks: usize = 0;
        let mut i: usize = 0;
        while i < cells.len()
            invariant
                i <= cells@.len(),
                blanks == occurrences(cells@, 0u8, i as int),
                blanks <= i,
            decreases cells.len() - i,
        {
            if cells[i] == 0 {
                blanks = blanks + 1;
            }
            i = i + 1;
        }
        proof {
            lemma_occurrences_multiset(cells@, 0u8, cells@.len() as int);
            assert(cells@.subrange(0, cells@.len() as int) =~= cells@);
        }
        if blanks == 0 {
            Err(BoardError::MissingBlank)
        } else if blanks > 1 {
            Err(BoardError::ExtraBlank)
        } else {
            Ok(Board::new(width, cells))
        }
    }

    /// An independent copy of this board.
    pub fn snapshot(&self) -> (r: Board)
        ensures
            r@ == self@,
    {
        let cells = self.cells.clone();
        let path = self.path.clone();
        assert(cells@ =~= self.cells@);
        assert(path@ =~= self.path@);
        Board { width: self.width, cells, empty_cell: self.empty_cell, path }
    }

    /// For up, right, down and left, in that order, whether the blank may move
    /// there: it stays on the grid and does not return to the index it just left.
    pub fn move_candidates(&self) -> (r: [bool; 4])
        requires
            self.wf(),
        ensures
            forall|d: int| 0 <= d < 4 ==> r@[d] == self@.can_move(d),
    {
        let n = self.cells.len();
        let e = self.empty_cell;
        let w = self.width;
        proof {
            lemma_width_fits(self@);
            if e == 0 {
                lemma_small_mod(0, w as nat);
            }
        }
        let has_last = self.path.len() > 0;
        let last: usize = if has_last {
            self.path[self.path.len() - 1]
        } else {
            0
        };
        let up = e > w - 1 && (!has_last || last != e - w);
        let right = e % w != w - 1 && (!has_last || last != e + 1);
        let down = e < n - w && (!has_last || last != e + w);
        let left = e % w != 0 && (!has_last || last != e - 1);
        [up, right, down, left]
    }

    /// The index the blank reaches when it moves in direction `dir`.
    pub fn neighbor(&self, dir: usize) -> (t: usize)
        requires
            self.wf(),
            dir < 4,
            self@.inside(dir as int),
        ensures
            t == self@.target(dir as int),
            t < self.cells@.len(),
    {
        let _n = self.cells.len();
        proof {
            lemma_target_on_grid(self@, dir as int);
        }
        if dir == 0 {
            self.empty_cell - self.width
        } else if dir == 1 {
            self.empty_cell + 1
        } else if dir == 2 {
            self.empty_cell + self.width
        } else {
            self.empty_cell - 1
        }
    }

    pub fn move_up(&mut self)
        requires
            old(self).wf(),
            old(self)@.inside(0),
        ensures
            final(self)@ == old(self)@.moved(old(self)@.target(0)),
            final(self).wf(),
    {
        let t = self.neighbor(0);
        self.move_to(t);
    }

    pub fn move_right(&mut self)
        requires
            old(self).wf(),
            old(self)@.inside(1),
        ensures
            final(self)@ == old(self)@.moved(old(self)@.target(1)),
            final(self).wf(),
    {
        let t = self.neighbor(1);
        self.move_to(t);
    }

    pub fn move_down(&mut self)
        requires
            old(self).wf(),
            old(self)@.inside(2),
        ensures
            final(self)@ == old(self)@.moved(old(self)@.target(2)),
            final(self).wf(),
    {
        let t = self.neighbor(2);
        self.move_to(t);
    }

    pub fn move_left(&mut self)
        requires
            old(self).wf(),
            old(self)@.inside(3),
        ensures
            final(self)@ == old(self)@.moved(old(self)@.target(3)),
            final(self).wf(),
    {
        let t = self.neighbor(3);
        self.move_to(t);
    }

    /// Slides the tile at `next_empty_cell` into the blank and records the move.
    pub fn move_to(&mut self, next_empty_cell: usize)
        requires
            old(self).wf(),
            next_empty_cell < old(self).cells@.len(),
        ensures
            final(self)@ == old(self)@.moved(next_empty_cell as int),
            final(self).wf(),
    {
        proof {
            lemma_moved_wf(self@, next_empty_cell as int);
        }
        self.path.push(self.empty_cell);
        let tile = self.cells[next_empty_cell];
        self.cells.set(self.empty_cell, tile);
        self.cells.set(next_empty_cell, 0);
        self.empty_cell = next_empty_cell;
    }

    /// Takes back the most recent move.
    pub fn undo(&mut self)
        requires
            old(self).wf(),
            old(self).path@.len() > 0,
        ensures
            final(self)@ == old(self)@.undone(),
            final(self).wf(),
    {
        proof {
            lemma_undone_wf(self@);
        }
        let last_cell = self.path.pop().unwrap();
        let tile = self.cells[last_cell];
        self.cells.set(self.empty_cell, tile);
        self.cells.set(last_cell, 0);
        self.empty_cell = last_cell;
    }

    /// Moves the blank in the first candidate direction from `draw % 4` on,
    /// trying the next direction (clockwise) while the current one is not a
    /// candidate; a board with no candidate stays as it is.
    pub fn random_move(&mut self, draw: u32)
        requires
            old(self).wf(),
        ensures
            final(self).wf(),
            final(self)@ == random_moved(old(self)@, draw),
    {
        let cs = self.move_candidates();
        let start = (draw % 4) as usize;
        let mut tried: usize = 0;
        while tried < 4
            invariant
                self.wf(),
                self@ == old(self)@,
                start < 4,
                start == draw % 4,
                tried <= 4,
                forall|d: int| 0 <= d < 4 ==> cs@[d] == self@.can_move(d),
                pick_direction(self@, start as int, 0) == pick_direction(
                    self@,
                    start as int,
                    tried as int,
                ),
            decreases 4 - tried,
        {
            let d = (start + tried) % 4;
            if cs[d] {
                let t = self.neighbor(d);
                self.move_to(t);
                return;
            }
            tried = tried + 1;
        }
    }

    /// Makes `n` random moves, drawing one number from `rng` for each: each
    /// draw moves the blank as `random_move` does.
    pub fn shuffle(&mut self, n: usize, rng: &mut Lcg64Xsh32)
        requires
            old(self).wf(),
        ensures
            final(self).wf(),
            exists|draws: Seq<u32>|
                draws.len() == n && #[trigger] shuffled(old(self)@, draws) == final(self)@,
            exists|ts: Seq<int>|
                {
                    &&& ts.len() <= n
                    &&& (old(self).width >= 2 && old(self).cells@.len() >= 2 * old(self).width
                        ==> ts.len() == n)
                    &&& old(self)@.on_grid(ts)
                    &&& old(self)@.legal_moves(ts)
                    &&& #[trigger] old(self)@.after_moves(ts) == final(self)@
                },
    {
        let ghost b0 = self@;
        let ghost mut ts: Seq<int> = Seq::empty();
        let ghost mut draws: Seq<u32> = Seq::empty();
        let mut i: usize = 0;
        while i < n
            invariant
                self.wf(),
                b0.wf(),
                draws.len() == i,
                shuffled(b0, draws) == self@,
                i <= n,
                ts.len() <= i,
                b0.width >= 2 && b0.cells.len() >= 2 * b0.width ==> ts.len() == i,
                b0.on_grid(ts),
                b0.legal_moves(ts),
                self@.width == b0.width,
                self@.cells.len() == b0.cells.len(),
                b0.after_moves(ts) == self@,
            decreases n - i,
        {
            let draw = next_draw(rng);
            let ghost before = self@;
            self.random_move(draw);
            proof {
                let draws2 = draws.push(draw);
                assert(draws2.drop_last() =~= draws);
                assert(shuffled(b0, draws2) == self@);
                draws = draws2;
                if b0.width >= 2 && b0.cells.len() >= 2 * b0.width {
                    lemma_pick_some(before, (draw % 4) as int);
                }
                if let Some(d) = pick_direction(before, (draw % 4) as int, 0) {
                    lemma_pick_direction(before, (draw % 4) as int, 0);
                    lemma_target_on_grid(before, d);
                    let t = before.target(d);
                    let ts2 = ts.push(t);
                    assert(ts2.drop_last() =~= ts);
                    assert(b0.on_grid(ts2)) by {
                        assert forall|k: int| 0 <= k < ts2.len() implies 0 <= #[trigger] ts2[k]
                            < b0.cells.len() by {
                            if k < ts.len() {
                                assert(ts2[k] == ts[k]);
                            }
                        }
                    }
                    assert(b0.after_moves(ts2.drop_last()).can_move(d));
                    assert(b0.legal_moves(ts2));
                    ts = ts2;
                }
            }
            i = i + 1;
        }
    }

    /// The boards that repeated calls of `undo` pass through, starting with
    /// this one and ending with the board that has a single move left.
    pub fn history(&self) -> (r: Vec<Board>)
        requires
            self.wf(),
        ensures
            r@.len() == self.path@.len(),
            forall|i: int| 0 <= i < r@.len() ==> (#[trigger] r@[i])@ == self@.undone_times(i as nat),
    {
        let mut b = self.snapshot();
        let mut r: Vec<Board> = Vec::new();
        while b.path.len() > 0
            invariant
                b.wf(),
                b@ == self@.undone_times(r@.len()),
                r@.len() + b.path@.len() == self.path@.len(),
                forall|i: int| 0 <= i < r@.len() ==> (#[trigger] r@[i])@ == self@.undone_times(i as nat),
            decreases b.path@.len(),
        {
            let ghost k = r@.len();
            r.push(b.snapshot());
            b.undo();
            proof {
                lemma_undone_times_add(self@, k, 1);
                assert(self@.undone_times(k).undone().undone_times(0) == self@.undone_times(k).undone());
            }
        }
        r
    }

    /// Manhattan distance between two indices of this grid.
    pub fn index_distance(&self, left: usize, right: usize) -> (r: isize)
        requires
            self.wf(),
            left < self.cells@.len(),
            right < self.cells@.len(),
            self.cells@.len() <= isize::MAX,
        ensures
            r == manhattan(self.width as int, left as int, right as int),
            0 <= r < self.cells@.len(),
    {
        let (lx, ly) = self.index_to_xy(left);
        let (rx, ry) = self.index_to_xy(right);
        proof {
            lemma_manhattan_bound(self.width as int, self.cells@.len() as int, left as int, right as int);
        }
        let dx = if lx >= rx {
            lx - rx
        } else {
            rx - lx
        };
        let dy = if ly >= ry {
            ly - ry
        } else {
            ry - ly
        };
        (dx + dy) as isize
    }

    /// Column and row of `index`.
    pub fn index_to_xy(&self, index: usize) -> (r: (usize, usize))
        requires
            self.width > 0,
        ensures
            r == (index % self.width, index / self.width),
    {
        (index % self.width, index / self.width)
    }
}

/// On a grid of `n` cells, two indices are at most `n - 1` apart.
pub proof fn lemma_manhattan_bound(w: int, n: int, a: int, b: int)
    requires
        w > 0,
        n % w == 0,
        0 <= a < n,
        0 <= b < n,
    ensures
        0 <= manhattan(w, a, b) <= n - 1,
        0 <= column(w, a) < w,
        0 <= row(w, a) < n / w,
{
    let h = n / w;
    lemma_fundamental_div_mod(n, w);
    lemma_fundamental_div_mod(a, w);
    lemma_fundamental_div_mod(b, w);
    assert(0 <= a % w < w) by (nonlinear_arith)
        requires
            w > 0,
    ;
    assert(0 <= b % w < w) by (nonlinear_arith)
        requires
            w > 0,
    ;
    assert(a / w < h) by (nonlinear_arith)
        requires
            a == w * (a / w) + a % w,
            n == w * h,
            a < n,
            0 <= a % w,
            w > 0,
    ;
    assert(b / w < h) by (nonlinear_arith)
        requires
            b == w * (b / w) + b % w,
            n == w * h,
            b < n,
            0 <= b % w,
            w > 0,
    ;
    assert(a / w >= 0 && b / w >= 0) by (nonlinear_arith)
        requires
            a >= 0,
            b >= 0,
            w > 0,
    ;
    assert(h >= 1) by (nonlinear_arith)
        requires
            n == w * h,
            n > 0,
            w > 0,
    ;
    assert((w - 1) + (h - 1) <= w * h - 1) by (nonlinear_arith)
        requires
            w >= 1,
            h >= 1,
    ;
}

} // verus!
