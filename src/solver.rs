//! Best-first search over boards, with a bounded open population and
//! suppression of tile layouts already met.
use crate::board::{
    lemma_after_moves_wf, lemma_moved_wf, lemma_moves_rewind, lemma_rewinds_trans, Board, BoardView,
};
use crate::check_mate::{check_mate, lemma_check_mate_sound, mate};
use crate::board::view_of;
use crate::closed::ClosedSet;
use crate::distance_fn::{
    border_distance, compute_distance1, compute_distance2, compute_distance3, exclusive_distance,
    goal_covers, lemma_occurrences_multiset, occurrences, squared_distance,
};
use rand_pcg::Lcg64Xsh32;
use vstd::multiset::Multiset;
use vstd::prelude::*;

verus! {

/// Seed of the generator that a new solver owns.
pub const DEFAULT_SEED: u64 = 0;

/// Stream selector of the generator that a new solver owns.
pub const DEFAULT_STREAM: u64 = 0xa02bdbf7bb3c0a7;

pub const DEFAULT_CHECK_MATE_CUTOFF: usize = 50;

pub const DEFAULT_BEAM_WIDTH: usize = 1000;

pub const DEFAULT_RANDOM_WALK: usize = 1;

pub const DEFAULT_RANDOM_WALK_LEN: usize = 10;

/// The heuristic a search ranks boards by.
#[derive(Clone, Copy, Debug, PartialEq, Eq, Structural)]
pub enum DistanceFn {
    /// `compute_distance1`.
    BorderStripping,
    /// `compute_distance2`.
    SquaredManhattan,
    /// `compute_distance3`.
    ExclusiveSquared,
}

/// How the score of a new state follows from its distance.
#[derive(Clone, Copy, Debug, PartialEq, Eq, Structural)]
pub enum ScoreFn {
    /// Minus the state's own distance.
    NegatedDistance,
    /// How much nearer the state is than the board it was made from.
    DistanceGain,
}

/// Why a solver cannot be built.
#[derive(Clone, Copy, Debug, PartialEq, Eq, Structural)]
pub enum SolverError {
    /// Start and goal do not hold the same tiles, so no moves can turn one
    /// into the other.
    TileMismatch,
    /// The boards have so many cells that distances may not fit in `isize`.
    TooLarge,
}

pub open spec fn distance_of(kind: DistanceFn, b: BoardView, goal: BoardView) -> int {
    match kind {
        DistanceFn::BorderStripping => border_distance(b, goal),
        DistanceFn::SquaredManhattan => squared_distance(b, goal),
        DistanceFn::ExclusiveSquared => exclusive_distance(b, goal),
    }
}

pub open spec fn score_of(kind: ScoreFn, distance: int, parent_distance: int) -> int {
    match kind {
        ScoreFn::NegatedDistance => -distance,
        ScoreFn::DistanceGain => parent_distance - distance,
    }
}

/// On boards of `n` cells every distance and score fits in `isize`.
pub open spec fn fits_scores(n: int) -> bool {
    2 * (n * n * n) <= isize::MAX
}

/// The range every heuristic stays in on boards of `n` cells.
pub open spec fn distance_range(n: int, d: int) -> bool {
    -(8 * n) <= d <= n * n * n
}

/// Scores ascend along the open population; the best state is last.
pub open spec fn sorted_by_score(s: Seq<State>) -> bool {
    forall|i: int, j: int|
        0 <= i <= j < s.len() ==> #[trigger] s[i].score <= #[trigger] s[j].score
}

/// A state as its board's view and its score.
pub open spec fn entry_of(s: State) -> (BoardView, int) {
    (s.board@, s.score as int)
}

pub open spec fn entries(s: Seq<State>) -> Seq<(BoardView, int)> {
    s.map_values(|x: State| entry_of(x))
}

/// The boards one candidate move away from `b`, over the first `n` of the
/// directions up, right, down, left, in that order.
pub open spec fn children_upto(b: BoardView, n: int) -> Seq<BoardView>
    decreases n,
{
    if n <= 0 {
        Seq::empty()
    } else if b.can_move(n - 1) {
        children_upto(b, n - 1).push(b.moved(b.target(n - 1)))
    } else {
        children_upto(b, n - 1)
    }
}

/// The tile layouts of `boards`.
pub open spec fn layouts(boards: Seq<BoardView>) -> Set<Seq<u8>> {
    Set::new(|l: Seq<u8>| exists|i: int| 0 <= i < boards.len() && (#[trigger] boards[i]).cells == l)
}

/// What offering `boards` in turn adds to the open population: each board
/// whose layout is neither in `closed` nor in an earlier board, with its score.
pub open spec fn fresh_entries(
    closed: Set<Seq<u8>>,
    boards: Seq<BoardView>,
    score_fn: ScoreFn,
    distance_fn: DistanceFn,
    goal: BoardView,
    parent_distance: int,
) -> Seq<(BoardView, int)>
    decreases boards.len(),
{
    if boards.len() == 0 {
        Seq::empty()
    } else {
        let prev = fresh_entries(
            closed,
            boards.drop_last(),
            score_fn,
            distance_fn,
            goal,
            parent_distance,
        );
        let c = boards.last();
        if closed.contains(c.cells) || layouts(boards.drop_last()).contains(c.cells) {
            prev
        } else {
            prev.push((c, score_of(score_fn, distance_of(distance_fn, c, goal), parent_distance)))
        }
    }
}

/// `w` is where a random walk of `len` draws from `b` may end: legal moves,
/// `len` of them whenever the grid has two rows and two columns.
pub open spec fn walked_from(b: BoardView, w: BoardView, len: nat) -> bool {
    exists|ts: Seq<int>|
        {
            &&& ts.len() <= len
            &&& (b.width >= 2 && b.cells.len() >= 2 * b.width ==> ts.len() == len)
            &&& b.on_grid(ts)
            &&& b.legal_moves(ts)
            &&& #[trigger] b.after_moves(ts) == w
        }
}

/// The `width` best states of a population ordered by ascending score.
pub open spec fn beam(s: Seq<State>, width: int) -> Seq<State> {
    if s.len() <= width {
        s
    } else {
        s.subrange(s.len() - width, s.len() as int)
    }
}

proof fn lemma_fresh_push(
    c0: Set<Seq<u8>>,
    added: Seq<BoardView>,
    c: BoardView,
    score_fn: ScoreFn,
    distance_fn: DistanceFn,
    goal: BoardView,
    pd: int,
)
    ensures
        c0.union(layouts(added.push(c))) == c0.union(layouts(added)).insert(c.cells),
        fresh_entries(c0, added.push(c), score_fn, distance_fn, goal, pd) == if c0.union(
            layouts(added),
        ).contains(c.cells) {
            fresh_entries(c0, added, score_fn, distance_fn, goal, pd)
        } else {
            fresh_entries(c0, added, score_fn, distance_fn, goal, pd).push(
                (c, score_of(score_fn, distance_of(distance_fn, c, goal), pd)),
            )
        },
{
    let a2 = added.push(c);
    assert(a2.drop_last() =~= added);
    assert(a2.last() == c);
    assert forall|l: Seq<u8>| layouts(a2).contains(l) <==> layouts(added).contains(l) || l == c.cells by {
        if layouts(a2).contains(l) {
            let i = choose|i: int| 0 <= i < a2.len() && (#[trigger] a2[i]).cells == l;
            if i < added.len() {
                assert(added[i] == a2[i]);
            }
        }
        if layouts(added).contains(l) {
            let i = choose|i: int| 0 <= i < added.len() && (#[trigger] added[i]).cells == l;
            assert(a2[i] == added[i]);
        }
        if l == c.cells {
            assert(a2[added.len() as int] == c);
        }
    }
    assert(layouts(a2) =~= layouts(added).insert(c.cells));
    assert(c0.union(layouts(a2)) =~= c0.union(layouts(added)).insert(c.cells));
}

proof fn lemma_population_grows(
    base: Multiset<(BoardView, int)>,
    fresh: Seq<(BoardView, int)>,
    before: Seq<State>,
    p: int,
    s: State,
)
    requires
        0 <= p <= before.len(),
        entries(before).to_multiset() == base.add(fresh.to_multiset()),
    ensures
        entries(before.insert(p, s)).to_multiset() == base.add(fresh.push(entry_of(s)).to_multiset()),
{
    broadcast use vstd::multiset::group_multiset_axioms;
    broadcast use vstd::seq_lib::to_multiset_build;

    let e = entry_of(s);
    assert(entries(before.insert(p, s)) =~= entries(before).insert(p, e));
    vstd::seq_lib::to_multiset_insert(entries(before), p, e);
    assert(base.add(fresh.to_multiset().insert(e)) =~= base.add(fresh.to_multiset()).insert(e));
}

/// `walks` are the ends of `n` random walks of `len` draws from `b`.
pub open spec fn walked_walks(b: BoardView, walks: Seq<BoardView>, n: nat, len: nat) -> bool {
    &&& walks.len() == n
    &&& forall|k: int| 0 <= k < walks.len() ==> walked_from(b, #[trigger] walks[k], len)
}

/// What expanding `b` makes of a population `states0` and a closed set
/// `closed0` under the settings of `s`, given the ends of the random walks and
/// the population before truncation.
pub open spec fn expansion_with(
    s: &Solver,
    states0: Seq<State>,
    closed0: Set<Seq<u8>>,
    b: BoardView,
    next: &Solver,
    walks: Seq<BoardView>,
    pre: Seq<State>,
) -> bool {
    let boards = children_upto(b, 4) + walks;
    let pd = distance_of(s.distance_fn, b, s.goal@);
    &&& walked_walks(b, walks, s.random_walk as nat, s.random_walk_len as nat)
    &&& sorted_by_score(pre)
    &&& entries(pre).to_multiset() == entries(states0).to_multiset().add(
        fresh_entries(closed0, boards, s.score_fn, s.distance_fn, s.goal@, pd).to_multiset(),
    )
    &&& next.closed@ == closed0.union(layouts(boards))
    &&& next.states@ == beam(pre, s.beam_width as int)
}

/// `next` holds what expanding `b` makes of `states0` and `closed0`: the
/// candidate children of `b`, in the order up, right, down, left, and then
/// the ends of `random_walk` random walks from `b` are offered; each whose
/// layout is new joins the closed set and the open population with its score;
/// then the population is cut to its `beam_width` best states.
pub open spec fn expansion(
    s: &Solver,
    states0: Seq<State>,
    closed0: Set<Seq<u8>>,
    b: BoardView,
    next: &Solver,
) -> bool {
    exists|walks: Seq<BoardView>, pre: Seq<State>|
        #[trigger] expansion_with(s, states0, closed0, b, next, walks, pre)
}

/// `next` is `s` after one round of `step` that returned `found`: the last
/// (best-scored) state of `s` is taken; when `check_mate` finishes it, its
/// result is kept; otherwise it is expanded.
pub open spec fn round(s: Solver, next: Solver, found: bool) -> bool {
    let b = s.states@.last().board@;
    let m = mate(b, s.goal@, s.check_mate_cutoff as nat);
    &&& s.states@.len() > 0
    &&& next.same_setup(&s)
    &&& next.open_node_count == s.open_node_count + 1
    &&& next.expanded@ == s.expanded@.push(s.states@.last().board.cells@)
    &&& (found <==> m is Some)
    &&& found ==> {
        &&& view_of(next.result) == m
        &&& next.states@ == s.states@.drop_last()
        &&& next.closed@ == s.closed@
    }
    &&& !found ==> {
        &&& next.result == s.result
        &&& expansion(&s, s.states@.drop_last(), s.closed@, b, &next)
    }
}

/// `trace` runs from `first` to `last` by rounds of `step`, the last of which
/// returned `found`.
pub open spec fn rounds(trace: Seq<Solver>, first: Solver, last: Solver, found: bool) -> bool {
    &&& trace.len() >= 1
    &&& trace[0] == first
    &&& trace.last() == last
    &&& forall|k: int|
        #![trigger trace[k]]
        0 <= k < trace.len() - 1 ==> round(trace[k], trace[k + 1], found && k == trace.len() - 2)
}

/// A board in the open population, with its score.
pub struct State {
    pub board: Board,
    pub score: isize,
}

/// A best-first search from a start board towards a goal board.
pub struct Solver {
    /// The generator behind random walks, seeded once per solver.
    pub rng: Lcg64Xsh32,
    pub goal: Board,
    /// The open population, by ascending score.
    pub states: Vec<State>,
    /// Every tile layout ever placed in the open population.
    pub closed: ClosedSet,
    /// The best-scored state seen so far.
    pub best_state: State,
    /// How many states have been taken from the open population.
    pub open_node_count: usize,
    /// The search stops once `open_node_count` reaches this.
    pub open_node_limit: usize,
    /// How deep `check_mate` looks from each state taken.
    pub check_mate_cutoff: usize,
    /// How many states the open population keeps after each expansion.
    pub beam_width: usize,
    /// How many random walks each expansion adds.
    pub random_walk: usize,
    /// How many moves each random walk makes.
    pub random_walk_len: usize,
    pub score_fn: ScoreFn,
    pub distance_fn: DistanceFn,
    /// The solved board, once found.
    pub result: Option<Board>,
    /// The board the search started from.
    pub start: Ghost<BoardView>,
    /// The tile layouts placed in the open population, in order.
    pub pushed: Ghost<Seq<Seq<u8>>>,
    /// The tile layouts of the states taken from the open population, in order.
    pub expanded: Ghost<Seq<Seq<u8>>>,
}

/// Boards of `n` cells with `fits_scores` keep every heuristic in range.
proof fn lemma_fits_scores(n: int)
    requires
        n >= 0,
        fits_scores(n),
    ensures
        8 * n <= isize::MAX,
        n * n * n <= isize::MAX,
        n * n * n + 8 * n <= isize::MAX,
{
    if n >= 3 {
        assert(8 * n <= n * n * n) by (nonlinear_arith)
            requires
                n >= 3,
        ;
    } else {
        assert(n * n * n <= 8) by (nonlinear_arith)
            requires
                0 <= n < 3,
        ;
    }
    assert(n * n * n >= 0) by (nonlinear_arith)
        requires
            n >= 0,
    ;
}

/// Boards with the same tiles have the same size, and each tile of one occurs
/// in the other.
proof fn lemma_same_tiles(b: BoardView, goal: BoardView)
    requires
        b.cells.to_multiset() == goal.cells.to_multiset(),
    ensures
        b.cells.len() == goal.cells.len(),
        goal_covers(b, goal),
        forall|i: int|
            0 <= i < b.cells.len() && b.cells[i] != 0 ==> goal.cells.contains(#[trigger] b.cells[i]),
{
    broadcast use vstd::seq_lib::to_multiset_len;
    broadcast use vstd::seq_lib::to_multiset_contains;

    vstd::seq_lib::to_multiset_len(b.cells);
    vstd::seq_lib::to_multiset_len(goal.cells);
    assert forall|i: int| 0 <= i < b.cells.len() && b.cells[i] != 0 implies goal.cells.contains(
        #[trigger] b.cells[i],
    ) by {
        assert(b.cells.contains(b.cells[i]));
        assert(b.cells.to_multiset().count(b.cells[i]) > 0);
    }
}

/// For each of the 256 tile labels, how many cells hold it.
fn tile_counts(cells: &Vec<u8>) -> (r: Vec<usize>)
    ensures
        r@.len() == 256,
        forall|v: u8| #[trigger] r@[v as int] == cells@.to_multiset().count(v),
{
    let mut counts: Vec<usize> = Vec::new();
    let mut z: usize = 0;
    while z < 256
        invariant
            z <= 256,
            counts@.len() == z,
            forall|k: int| 0 <= k < z ==> counts@[k] == 0,
        decreases 256 - z,
    {
        counts.push(0);
        z = z + 1;
    }
    let mut i: usize = 0;
    while i < cells.len()
        invariant
            i <= cells@.len(),
            counts@.len() == 256,
            forall|v: u8| #[trigger] counts@[v as int] == occurrences(cells@, v, i as int),
            forall|v: u8| counts@[v as int] <= i,
        decreases cells.len() - i,
    {
        let c = cells[i];
        let old_count = counts[c as usize];
        let ghost prev = counts@;
        counts.set(c as usize, old_count + 1);
        i = i + 1;
        assert forall|v: u8| #[trigger] counts@[v as int] == occurrences(cells@, v, i as int) by {
            if v != c {
                assert(counts@[v as int] == prev[v as int]);
            }
        }
    }
    proof {
        assert forall|v: u8| #[trigger] counts@[v as int] == cells@.to_multiset().count(v) by {
            lemma_occurrences_multiset(cells@, v, cells@.len() as int);
            assert(cells@.subrange(0, cells@.len() as int) =~= cells@);
        }
    }
    counts
}

fn scores_fit(n: usize) -> (r: bool)
    ensures
        r == fits_scores(n as int),
{
    match n.checked_mul(n) {
        None => {
            assert(2 * (n * n * n) > isize::MAX) by (nonlinear_arith)
                requires
                    n * n > usize::MAX,
                    usize::MAX >= isize::MAX,
            ;
            false
        },
        Some(n2) => match n2.checked_mul(n) {
            None => {
                assert(2 * (n * n * n) > isize::MAX) by (nonlinear_arith)
                    requires
                        n2 == n * n,
                        n2 * n > usize::MAX,
                        usize::MAX >= isize::MAX,
                ;
                false
            },
            Some(n3) => {
                assert(n3 == n * n * n) by (nonlinear_arith)
                    requires
                        n2 == n * n,
                        n3 == n2 * n,
                ;
                n3 <= (isize::MAX as usize) / 2
            },
        },
    }
}

proof fn lemma_prefix_trans<A>(a: Seq<A>, b: Seq<A>, c: Seq<A>)
    requires
        a.is_prefix_of(b),
        b.is_prefix_of(c),
    ensures
        a.is_prefix_of(c),
{
    assert forall|i: int| 0 <= i < a.len() implies a[i] == c[i] by {
        assert(a[i] == b[i]);
        assert(b[i] == c[i]);
    }
    assert(a =~= c.subrange(0, a.len() as int));
}

/// Places `s` after every state that scores no more than it.
fn insert_by_score(states: &mut Vec<State>, s: State)
    requires
        sorted_by_score(old(states)@),
    ensures
        sorted_by_score(final(states)@),
        exists|p: int| 0 <= p <= old(states)@.len() && final(states)@ == old(states)@.insert(p, s),
{
    let mut i: usize = states.len();
    while i > 0 && states[i - 1].score > s.score
        invariant
            i <= states@.len(),
            states@ == old(states)@,
            sorted_by_score(states@),
            forall|k: int| i <= k < states@.len() ==> states@[k].score > s.score,
        decreases i,
    {
        i = i - 1;
    }
    let ghost before = states@;
    states.insert(i, s);
    proof {
        let after = states@;
        assert forall|a: int, b: int| 0 <= a <= b < after.len() implies #[trigger] after[a].score
            <= #[trigger] after[b].score by {
            if i > 0 {
                assert(before[i - 1].score <= s.score);
            }
            if a < i && b > i {
                assert(before[a].score <= before[b - 1].score);
            } else if a < i && b < i {
                assert(before[a].score <= before[b].score);
            } else if a > i && b > i {
                assert(before[a - 1].score <= before[b - 1].score);
            } else if a < i && b == i {
                assert(before[a].score <= before[i - 1].score);
            }
        }
    }
}

impl Solver {
    /// A board this search may hold: well formed, with the goal's tiles, and
    /// reached from the start board by moves that its history records.
    pub open spec fn reachable(&self, b: BoardView) -> bool {
        &&& b.wf()
        &&& b.cells.to_multiset() == self.goal@.cells.to_multiset()
        &&& b.rewinds_to(self.start@)
    }

    pub open spec fn open_cells(&self, i: int) -> Seq<u8> {
        self.states@[i].board.cells@
    }

    pub open spec fn wf(&self) -> bool {
        let n = self.goal.cells@.len() as int;
        let len = self.states@.len();
        &&& self.goal.wf()
        &&& fits_scores(n)
        &&& forall|i: int| 0 <= i < len ==> self.reachable(#[trigger] self.states@[i].board@)
        &&& sorted_by_score(self.states@)
        &&& forall|i: int, j: int|
            0 <= i < j < len ==> #[trigger] self.open_cells(i) != #[trigger] self.open_cells(j)
        &&& forall|i: int| 0 <= i < len ==> self.closed@.contains(#[trigger] self.open_cells(i))
        &&& forall|i: int| 0 <= i < len ==> !self.expanded@.contains(#[trigger] self.open_cells(i))
        &&& forall|i: int| 0 <= i < len ==> #[trigger] self.states@[i].score <= self.best_state.score
        &&& self.expanded@.no_duplicates()
        &&& forall|k: int|
            0 <= k < self.expanded@.len() ==> self.closed@.contains(#[trigger] self.expanded@[k])
        &&& self.pushed@.no_duplicates()
        &&& self.pushed@.to_set() == self.closed@
        &&& self.result matches Some(r) ==> {
            &&& r.cells@ == self.goal.cells@
            &&& r.empty_cell == self.goal.empty_cell
            &&& self.reachable(r@)
        }
    }

    /// The parts of a solver that a search leaves as they are.
    pub open spec fn same_setup(&self, other: &Solver) -> bool {
        &&& self.goal@ == other.goal@
        &&& self.start@ == other.start@
        &&& self.open_node_limit == other.open_node_limit
        &&& self.check_mate_cutoff == other.check_mate_cutoff
        &&& self.beam_width == other.beam_width
        &&& self.random_walk == other.random_walk
        &&& self.random_walk_len == other.random_walk_len
        &&& self.score_fn == other.score_fn
        &&& self.distance_fn == other.distance_fn
    }

    /// A solver searching from `board` towards `goal`, with the default
    /// settings. It fails when the two boards hold different tiles, or so many
    /// cells that distances may not fit in `isize`.
    pub fn new(goal: Board, board: Board) -> (r: Result<Solver, SolverError>)
        requires
            goal.wf(),
            board.wf(),
        ensures
            r matches Err(SolverError::TileMismatch) <==> board.cells@.to_multiset()
                != goal.cells@.to_multiset(),
            r matches Err(SolverError::TooLarge) <==> board.cells@.to_multiset()
                == goal.cells@.to_multiset() && !fits_scores(goal.cells@.len() as int),
            r matches Ok(s) ==> {
                &&& s.wf()
                &&& s.goal@ == goal@
                &&& s.start@ == board@
                &&& s.states@.len() == 1
                &&& s.states@[0].board@ == board@
                &&& s.states@[0].score == isize::MIN
                &&& s.closed@ == set![board.cells@]
                &&& s.pushed@ == seq![board.cells@]
                &&& s.expanded@.len() == 0
                &&& s.result is None
                &&& s.open_node_count == 0
                &&& s.open_node_limit == usize::MAX
                &&& s.check_mate_cutoff == DEFAULT_CHECK_MATE_CUTOFF
                &&& s.beam_width == DEFAULT_BEAM_WIDTH
                &&& s.random_walk == DEFAULT_RANDOM_WALK
                &&& s.random_walk_len == DEFAULT_RANDOM_WALK_LEN
                &&& s.score_fn == ScoreFn::NegatedDistance
                &&& s.distance_fn == DistanceFn::SquaredManhattan
            },
    {
        let goal_counts = tile_counts(&goal.cells);
        let board_counts = tile_counts(&board.cells);
        let mut v: usize = 0;
        while v < 256
            invariant
                v <= 256,
                goal_counts@.len() == 256,
                board_counts@.len() == 256,
                forall|x: u8| #[trigger] goal_counts@[x as int] == goal.cells@.to_multiset().count(x),
                forall|x: u8|
                    #[trigger] board_counts@[x as int] == board.cells@.to_multiset().count(x),
                forall|k: int| 0 <= k < v ==> goal_counts@[k] == board_counts@[k],
            decreases 256 - v,
        {
            if goal_counts[v] != board_counts[v] {
                proof {
                    let x = v as u8;
                    assert(goal_counts@[x as int] != board_counts@[x as int]);
                }
                return Err(SolverError::TileMismatch);
            }
            v = v + 1;
        }
        proof {
            assert forall|x: u8| #[trigger]
                goal.cells@.to_multiset().count(x) == board.cells@.to_multiset().count(x) by {
                assert(goal_counts@[x as int] == board_counts@[x as int]);
            }
            assert(goal.cells@.to_multiset() =~= board.cells@.to_multiset());
        }
        if !scores_fit(goal.cells.len()) {
            return Err(SolverError::TooLarge);
        }
        let rng = Lcg64Xsh32::new(DEFAULT_SEED, DEFAULT_STREAM);
        let mut closed = ClosedSet::new();
        let key = board.cells.clone();
        assert(key@ =~= board.cells@);
        closed.insert(key);
        assert(closed@ == Set::<Seq<u8>>::empty().insert(board.cells@));
        let best_state = State { board: board.snapshot(), score: isize::MIN };
        let ghost start = board@;
        let ghost first = Seq::<Seq<u8>>::empty().push(start.cells);
        let mut states: Vec<State> = Vec::new();
        states.push(State { board, score: isize::MIN });
        let s = Solver {
            rng,
            goal,
            states,
            closed,
            best_state,
            open_node_count: 0,
            open_node_limit: usize::MAX,
            check_mate_cutoff: DEFAULT_CHECK_MATE_CUTOFF,
            beam_width: DEFAULT_BEAM_WIDTH,
            random_walk: DEFAULT_RANDOM_WALK,
            random_walk_len: DEFAULT_RANDOM_WALK_LEN,
            score_fn: ScoreFn::NegatedDistance,
            distance_fn: DistanceFn::SquaredManhattan,
            result: None,
            start: Ghost(start),
            pushed: Ghost(first),
            expanded: Ghost(Seq::empty()),
        };
        proof {
            assert(s.closed@ =~= set![start.cells]);
            assert(s.pushed@[0] == start.cells);
            assert(s.pushed@.to_set() =~= set![start.cells]);
            assert(start.undone_times(0) == start);
        }
        Ok(s)
    }

    /// Registers `child` in the closed set and places it in the open
    /// population, unless its tile layout was met before.
    fn add_state(&mut self, child: Board, parent_distance: isize)
        requires
            old(self).wf(),
            old(self).reachable(child@),
            distance_range(old(self).goal.cells@.len() as int, parent_distance as int),
        ensures
            final(self).wf(),
            final(self).same_setup(old(self)),
            final(self).result == old(self).result,
            final(self).expanded@ == old(self).expanded@,
            final(self).open_node_count == old(self).open_node_count,
            final(self).closed@ == old(self).closed@.insert(child.cells@),
            old(self).pushed@.is_prefix_of(final(self).pushed@),
            old(self).closed@.contains(child.cells@) ==> final(self).states@ == old(self).states@,
            !old(self).closed@.contains(child.cells@) ==> final(self).states@.len() == old(
                self,
            ).states@.len() + 1,
            !old(self).closed@.contains(child.cells@) ==> exists|p: int, st: State|
                {
                    &&& 0 <= p <= old(self).states@.len()
                    &&& #[trigger] old(self).states@.insert(p, st) == final(self).states@
                    &&& st.board@ == child@
                    &&& st.score == score_of(
                        old(self).score_fn,
                        distance_of(old(self).distance_fn, child@, old(self).goal@),
                        parent_distance as int,
                    )
                },
    {
        if self.closed.contains(&child.cells) {
            proof {
                assert(old(self).closed@.insert(child.cells@) =~= old(self).closed@);
            }
            return;
        }
        let ghost cells = child.cells@;
        let ghost old_pushed = self.pushed@;
        let key = child.cells.clone();
        assert(key@ =~= child.cells@);
        self.closed.insert(key);
        self.pushed = Ghost(self.pushed@.push(cells));
        proof {
            old_pushed.lemma_push_to_set_commute(cells);
            assert(!old_pushed.contains(cells));
            assert(self.pushed@.no_duplicates()) by {
                assert forall|a: int, b: int|
                    0 <= a < self.pushed@.len() && 0 <= b < self.pushed@.len() && a != b implies self.pushed@[a]
                    != self.pushed@[b] by {
                    if a < old_pushed.len() && b < old_pushed.len() {
                    } else if a < old_pushed.len() {
                        assert(old_pushed.contains(old_pushed[a]));
                    } else {
                        assert(old_pushed.contains(old_pushed[b]));
                    }
                }
            }
            assert(old_pushed =~= self.pushed@.subrange(0, old_pushed.len() as int));
            lemma_fits_scores(self.goal.cells@.len() as int);
        }
        let d = self.distance(&child);
        let score: isize = match self.score_fn {
            ScoreFn::NegatedDistance => -d,
            ScoreFn::DistanceGain => parent_distance - d,
        };
        if score > self.best_state.score {
            self.best_state = State { board: child.snapshot(), score };
        }
        let st = State { board: child, score };
        let ghost sv = st;
        let ghost before = self.states@;
        insert_by_score(&mut self.states, st);
        proof {
            let after = self.states@;
            let p = choose|p: int| 0 <= p <= before.len() && after == before.insert(p, sv);
            assert(after[p] == sv);
            assert(sv.board@ == child@);
            assert(before.insert(p, sv) == after);
            assert forall|i: int| 0 <= i < after.len() implies {
                &&& self.reachable(#[trigger] after[i].board@)
                &&& self.closed@.contains(after[i].board.cells@)
                &&& !self.expanded@.contains(after[i].board.cells@)
                &&& after[i].score <= self.best_state.score
                &&& (i != p ==> after[i].board.cells@ != cells)
            } by {
                if i < p {
                    assert(after[i] == before[i]);
                    assert(old(self).open_cells(i) == before[i].board.cells@);
                } else if i > p {
                    assert(after[i] == before[i - 1]);
                    assert(old(self).open_cells(i - 1) == before[i - 1].board.cells@);
                } else {
                    if self.expanded@.contains(cells) {
                        let k = choose|k: int| 0 <= k < self.expanded@.len() && self.expanded@[k] == cells;
                        assert(old(self).closed@.contains(old(self).expanded@[k]));
                    }
                }
            }
            assert forall|i: int, j: int| 0 <= i < j < after.len() implies #[trigger] self.open_cells(i)
                != #[trigger] self.open_cells(j) by {
                if i != p && j != p {
                    let i0 = if i < p { i } else { i - 1 };
                    let j0 = if j < p { j } else { j - 1 };
                    assert(after[i] == before[i0]);
                    assert(after[j] == before[j0]);
                    assert(old(self).open_cells(i0) != old(self).open_cells(j0));
                } else if i == p {
                    assert(self.reachable(after[j].board@));
                    assert(self.open_cells(j) != cells);
                } else {
                    assert(self.reachable(after[i].board@));
                    assert(self.open_cells(i) != cells);
                }
            }
            assert forall|i: int| 0 <= i < after.len() implies self.closed@.contains(
                #[trigger] self.open_cells(i),
            ) by {
                assert(self.reachable(after[i].board@));
                assert(self.closed@.contains(after[i].board.cells@));
            }
            assert forall|i: int| 0 <= i < after.len() implies !self.expanded@.contains(
                #[trigger] self.open_cells(i),
            ) by {
                assert(self.reachable(after[i].board@));
                assert(!self.expanded@.contains(after[i].board.cells@));
            }
            assert forall|i: int| 0 <= i < after.len() implies #[trigger] after[i].score
                <= self.best_state.score by {
                assert(self.reachable(after[i].board@));
                assert(after[i].score <= self.best_state.score);
            }
        }
    }

    /// Keeps only the `beam_width` best-scored states of the open population.
    fn truncate_open(&mut self)
        requires
            old(self).wf(),
        ensures
            final(self).wf(),
            final(self).same_setup(old(self)),
            final(self).result == old(self).result,
            final(self).expanded@ == old(self).expanded@,
            final(self).pushed@ == old(self).pushed@,
            final(self).open_node_count == old(self).open_node_count,
            old(self).states@.len() <= old(self).beam_width ==> final(self).states@ == old(
                self,
            ).states@,
            old(self).states@.len() > old(self).beam_width ==> final(self).states@ == old(
                self,
            ).states@.subrange(
                old(self).states@.len() - old(self).beam_width,
                old(self).states@.len() as int,
            ),
    {
        if self.states.len() > self.beam_width {
            let excess = self.states.len() - self.beam_width;
            let ghost before = self.states@;
            let kept = self.states.split_off(excess);
            self.states = kept;
            proof {
                let after = self.states@;
                let e = excess as int;
                assert forall|i: int| 0 <= i < after.len() implies after[i] == before[i + e] by {}
                assert forall|i: int| 0 <= i < after.len() implies self.reachable(
                    #[trigger] after[i].board@,
                ) by {
                    assert(old(self).reachable(before[i + e].board@));
                }
                assert forall|i: int, j: int| 0 <= i <= j < after.len() implies #[trigger] after[i].score
                    <= #[trigger] after[j].score by {
                    assert(before[i + e].score <= before[j + e].score);
                }
                assert forall|i: int, j: int| 0 <= i < j < after.len() implies #[trigger] self.open_cells(i)
                    != #[trigger] self.open_cells(j) by {
                    assert(old(self).open_cells(i + e) != old(self).open_cells(j + e));
                }
                assert forall|i: int| 0 <= i < after.len() implies self.closed@.contains(
                    #[trigger] self.open_cells(i),
                ) by {
                    assert(old(self).closed@.contains(old(self).open_cells(i + e)));
                }
                assert forall|i: int| 0 <= i < after.len() implies !self.expanded@.contains(
                    #[trigger] self.open_cells(i),
                ) by {
                    assert(!old(self).expanded@.contains(old(self).open_cells(i + e)));
                }
                assert forall|i: int| 0 <= i < after.len() implies #[trigger] after[i].score
                    <= self.best_state.score by {
                    assert(before[i + e].score <= old(self).best_state.score);
                }
            }
        }
    }

    /// Adds to the open population every board one candidate move away from
    /// `board`, then the boards that `random_walk` random walks from `board`
    /// reach, and truncates the population to the beam width.
    fn expand(&mut self, board: Board)
        requires
            old(self).wf(),
            old(self).reachable(board@),
        ensures
            final(self).wf(),
            final(self).same_setup(old(self)),
            final(self).result == old(self).result,
            final(self).expanded@ == old(self).expanded@,
            final(self).open_node_count == old(self).open_node_count,
            old(self).pushed@.is_prefix_of(final(self).pushed@),
            expansion(old(self), old(self).states@, old(self).closed@, board@, final(self)),
    {
        let parent_distance = self.distance(&board);
        let ghost pd = parent_distance as int;
        let ghost c0 = self.closed@;
        let ghost base = entries(self.states@).to_multiset();
        let ghost mut added: Seq<BoardView> = Seq::empty();
        proof {
            assert(c0.union(layouts(added)) =~= c0);
            assert(base.add(Seq::<(BoardView, int)>::empty().to_multiset()) =~= base) by {
                broadcast use vstd::multiset::group_multiset_axioms;
                broadcast use vstd::seq_lib::to_multiset_contains;

                assert forall|e: (BoardView, int)| #[trigger] Seq::<(BoardView, int)>::empty().to_multiset().count(e) == 0 by {
                    assert(!Seq::<(BoardView, int)>::empty().contains(e));
                }
            }
        }
        let cs = board.move_candidates();
        let mut i: usize = 0;
        while i < 4
            invariant
                self.wf(),
                self.same_setup(old(self)),
                self.result == old(self).result,
                self.expanded@ == old(self).expanded@,
                self.open_node_count == old(self).open_node_count,
                old(self).pushed@.is_prefix_of(self.pushed@),
                self.reachable(board@),
                distance_range(self.goal.cells@.len() as int, parent_distance as int),
                pd == distance_of(old(self).distance_fn, board@, old(self).goal@),
                pd == parent_distance as int,
                forall|d: int| 0 <= d < 4 ==> cs@[d] == board@.can_move(d),
                i <= 4,
                c0 == old(self).closed@,
                base == entries(old(self).states@).to_multiset(),
                added == children_upto(board@, i as int),
                self.closed@ == c0.union(layouts(added)),
                entries(self.states@).to_multiset() == base.add(
                    fresh_entries(c0, added, old(self).score_fn, old(self).distance_fn, old(self).goal@, pd).to_multiset(),
                ),
            decreases 4 - i,
        {
            if cs[i] {
                let t = board.neighbor(i);
                let mut child = board.snapshot();
                child.move_to(t);
                proof {
                    let ts = seq![t as int];
                    assert(ts.drop_last() =~= Seq::<int>::empty());
                    assert(ts.last() == t as int);
                    assert(board@.after_moves(Seq::<int>::empty()) == board@);
                    assert(board@.after_moves(ts) == board@.moved(t as int));
                    lemma_moved_wf(board@, t as int);
                    lemma_moves_rewind(board@, ts);
                    lemma_rewinds_trans(child@, board@, self.start@);
                }
                let ghost prev = self.pushed@;
                let ghost cv = child@;
                let ghost before = self.states@;
                self.add_state(child, parent_distance);
                proof {
                    lemma_prefix_trans(old(self).pushed@, prev, self.pushed@);
                    self.lemma_tracked_add(c0, base, added, cv, before, pd);
                    added = added.push(cv);
                }
            }
            i = i + 1;
        }
        let ghost children = added;
        let ghost mut walks: Seq<BoardView> = Seq::empty();
        proof {
            assert(added =~= children + walks);
        }
        let mut walk: usize = 0;
        while walk < self.random_walk
            invariant
                self.wf(),
                self.same_setup(old(self)),
                self.result == old(self).result,
                self.expanded@ == old(self).expanded@,
                self.open_node_count == old(self).open_node_count,
                old(self).pushed@.is_prefix_of(self.pushed@),
                self.reachable(board@),
                distance_range(self.goal.cells@.len() as int, parent_distance as int),
                pd == distance_of(old(self).distance_fn, board@, old(self).goal@),
                pd == parent_distance as int,
                c0 == old(self).closed@,
                base == entries(old(self).states@).to_multiset(),
                children == children_upto(board@, 4),
                walks.len() == walk,
                walk <= self.random_walk,
                forall|k: int| 0 <= k < walks.len() ==> walked_from(board@, #[trigger] walks[k], self.random_walk_len as nat),
                added == children + walks,
                self.closed@ == c0.union(layouts(added)),
                entries(self.states@).to_multiset() == base.add(
                    fresh_entries(c0, added, old(self).score_fn, old(self).distance_fn, old(self).goal@, pd).to_multiset(),
                ),
            decreases self.random_walk - walk,
        {
            let mut child = board.snapshot();
            let ghost b0 = child@;
            let ghost s0 = *self;
            child.shuffle(self.random_walk_len, &mut self.rng);
            proof {
                assert forall|a: int, b: int| 0 <= a < b < self.states@.len() implies #[trigger] self.open_cells(a)
                    != #[trigger] self.open_cells(b) by {
                    assert(s0.open_cells(a) != s0.open_cells(b));
                }
                assert forall|a: int| 0 <= a < self.states@.len() implies self.closed@.contains(
                    #[trigger] self.open_cells(a),
                ) by {
                    assert(s0.closed@.contains(s0.open_cells(a)));
                }
                assert forall|a: int| 0 <= a < self.states@.len() implies !self.expanded@.contains(
                    #[trigger] self.open_cells(a),
                ) by {
                    assert(!s0.expanded@.contains(s0.open_cells(a)));
                }
                assert(b0 == board@);
                let ts = choose|ts: Seq<int>|
                    {
                        &&& ts.len() <= self.random_walk_len
                        &&& (b0.width >= 2 && b0.cells.len() >= 2 * b0.width ==> ts.len() == self.random_walk_len)
                        &&& b0.on_grid(ts)
                        &&& b0.legal_moves(ts)
                        &&& #[trigger] b0.after_moves(ts) == child@
                    };
                assert(walked_from(board@, child@, self.random_walk_len as nat));
                lemma_after_moves_wf(board@, ts);
                lemma_moves_rewind(board@, ts);
                lemma_rewinds_trans(child@, board@, self.start@);
            }
            let ghost prev = self.pushed@;
            let ghost cv = child@;
            let ghost before = self.states@;
            self.add_state(child, parent_distance);
            proof {
                lemma_prefix_trans(old(self).pushed@, prev, self.pushed@);
                self.lemma_tracked_add(c0, base, added, cv, before, pd);
                let walks2 = walks.push(cv);
                assert(added.push(cv) =~= children + walks2);
                assert forall|k: int| 0 <= k < walks2.len() implies walked_from(board@, #[trigger] walks2[k], self.random_walk_len as nat) by {
                    if k < walks.len() {
                        assert(walks2[k] == walks[k]);
                    }
                }
                added = added.push(cv);
                walks = walks2;
            }
            walk = walk + 1;
        }
        let ghost pre = self.states@;
        self.truncate_open();
        proof {
            assert(walked_walks(board@, walks, old(self).random_walk as nat, old(self).random_walk_len as nat));
            assert(expansion_with(old(self), old(self).states@, old(self).closed@, board@, self, walks, pre));
        }
    }

    /// After `add_state(child, parent_distance)`, the closed set and the open
    /// population still follow `fresh_entries` over the boards offered so far.
    proof fn lemma_tracked_add(
        &self,
        c0: Set<Seq<u8>>,
        base: Multiset<(BoardView, int)>,
        added: Seq<BoardView>,
        c: BoardView,
        before: Seq<State>,
        pd: int,
    )
        requires
            ({
                let f = fresh_entries(c0, added, self.score_fn, self.distance_fn, self.goal@, pd);
                &&& entries(before).to_multiset() == base.add(f.to_multiset())
                &&& c0.union(layouts(added)).insert(c.cells) == self.closed@
                &&& c0.union(layouts(added)).contains(c.cells) ==> self.states@ == before
                &&& !c0.union(layouts(added)).contains(c.cells) ==> exists|p: int, st: State|
                    {
                        &&& 0 <= p <= before.len()
                        &&& #[trigger] before.insert(p, st) == self.states@
                        &&& st.board@ == c
                        &&& st.score == score_of(self.score_fn, distance_of(self.distance_fn, c, self.goal@), pd)
                    }
            }),
        ensures
            self.closed@ == c0.union(layouts(added.push(c))),
            entries(self.states@).to_multiset() == base.add(
                fresh_entries(c0, added.push(c), self.score_fn, self.distance_fn, self.goal@, pd).to_multiset(),
            ),
    {
        lemma_fresh_push(c0, added, c, self.score_fn, self.distance_fn, self.goal@, pd);
        if !c0.union(layouts(added)).contains(c.cells) {
            let (p, st) = choose|p: int, st: State|
                {
                    &&& 0 <= p <= before.len()
                    &&& #[trigger] before.insert(p, st) == self.states@
                    &&& st.board@ == c
                    &&& st.score == score_of(self.score_fn, distance_of(self.distance_fn, c, self.goal@), pd)
                };
            lemma_population_grows(
                base,
                fresh_entries(c0, added, self.score_fn, self.distance_fn, self.goal@, pd),
                before,
                p,
                st,
            );
        }
    }

    /// One round of the search: takes the best-scored state (the last one);
    /// when `check_mate` finishes it within `check_mate_cutoff` moves, keeps
    /// that board as the result and returns `true`; otherwise expands it and
    /// returns `false`.
    pub fn step(&mut self) -> (found: bool)
        requires
            old(self).wf(),
            old(self).states@.len() > 0,
            old(self).open_node_count < usize::MAX,
        ensures
            final(self).wf(),
            final(self).same_setup(old(self)),
            final(self).open_node_count == old(self).open_node_count + 1,
            final(self).expanded@ == old(self).expanded@.push(old(self).states@.last().board.cells@),
            old(self).pushed@.is_prefix_of(final(self).pushed@),
            round(*old(self), *final(self), found),
            !found ==> final(self).states@.len() <= old(self).beam_width,
    {
        let ghost before = self.states@;
        let ghost prev_expanded = self.expanded@;
        proof {
            assert forall|i: int| 0 <= i < before.len() implies !prev_expanded.contains(
                #[trigger] before[i].board.cells@,
            ) by {
                assert(!self.expanded@.contains(self.open_cells(i)));
            }
            assert forall|a: int, b: int| 0 <= a < b < before.len() implies #[trigger] before[a].board.cells@
                != #[trigger] before[b].board.cells@ by {
                assert(self.open_cells(a) != self.open_cells(b));
            }
            assert forall|i: int| 0 <= i < before.len() implies self.closed@.contains(
                #[trigger] before[i].board.cells@,
            ) by {
                assert(self.closed@.contains(self.open_cells(i)));
            }
        }
        let state = self.states.pop().unwrap();
        self.open_node_count = self.open_node_count + 1;
        let mut board = state.board;
        self.expanded = Ghost(self.expanded@.push(board.cells@));
        proof {
            let last = before.len() - 1;
            let after = self.states@;
            let popped = board.cells@;
            assert(before[last].board == board);
            assert(self.reachable(before[last].board@));
            assert(!prev_expanded.contains(popped));
            assert forall|i: int| 0 <= i < after.len() implies after[i] == before[i] by {}
            assert forall|i: int| 0 <= i < after.len() implies !self.expanded@.contains(
                #[trigger] self.open_cells(i),
            ) by {
                assert(before[i].board.cells@ != before[last].board.cells@);
                assert(!prev_expanded.contains(before[i].board.cells@));
            }
            assert forall|i: int| 0 <= i < after.len() implies self.reachable(
                #[trigger] after[i].board@,
            ) by {
                assert(self.reachable(before[i].board@));
            }
            assert forall|a: int, b: int| 0 <= a < b < after.len() implies #[trigger] self.open_cells(a)
                != #[trigger] self.open_cells(b) by {
                assert(before[a].board.cells@ != before[b].board.cells@);
            }
            assert forall|a: int, b: int| 0 <= a <= b < after.len() implies #[trigger] after[a].score
                <= #[trigger] after[b].score by {
                assert(before[a].score <= before[b].score);
            }
            assert forall|i: int| 0 <= i < after.len() implies self.closed@.contains(
                #[trigger] self.open_cells(i),
            ) by {
                assert(self.closed@.contains(before[i].board.cells@));
            }
            assert forall|i: int| 0 <= i < after.len() implies #[trigger] after[i].score
                <= self.best_state.score by {
                assert(before[i].score <= self.best_state.score);
            }
            assert forall|k: int| 0 <= k < self.expanded@.len() implies self.closed@.contains(
                #[trigger] self.expanded@[k],
            ) by {
                if k < prev_expanded.len() {
                    assert(self.expanded@[k] == prev_expanded[k]);
                }
            }
            assert(self.expanded@.no_duplicates()) by {
                assert forall|a: int, b: int|
                    0 <= a < self.expanded@.len() && 0 <= b < self.expanded@.len() && a != b implies self.expanded@[a]
                    != self.expanded@[b] by {
                    if a < prev_expanded.len() && b < prev_expanded.len() {
                    } else if a < prev_expanded.len() {
                        assert(prev_expanded.contains(prev_expanded[a]));
                    } else {
                        assert(prev_expanded.contains(prev_expanded[b]));
                    }
                }
            }
            assert(prev_expanded =~= self.expanded@.subrange(0, prev_expanded.len() as int));
            lemma_prefix_trans(old(self).expanded@, prev_expanded, self.expanded@);
        }
        proof {
            lemma_same_tiles(board@, self.goal@);
            assert(self.states@ == old(self).states@.drop_last());
        }
        match check_mate(&mut board, &self.goal, self.check_mate_cutoff) {
            Some(r) => {
                proof {
                    lemma_check_mate_sound(board@, self.goal@, self.check_mate_cutoff as nat);
                    let ts = choose|ts: Seq<int>|
                        {
                            &&& ts.len() <= self.check_mate_cutoff as nat
                            &&& board@.on_grid(ts)
                            &&& board@.legal_moves(ts)
                            &&& #[trigger] board@.after_moves(ts) == mate(
                                board@,
                                self.goal@,
                                self.check_mate_cutoff as nat,
                            ).unwrap()
                        };
                    lemma_after_moves_wf(board@, ts);
                    lemma_moves_rewind(board@, ts);
                    lemma_rewinds_trans(r@, board@, self.start@);
                }
                self.result = Some(r);
                return true;
            },
            None => {},
        }
        let ghost mid = *self;
        let ghost b = board@;
        self.expand(board);
        proof {
            let (walks, pre) = choose|walks: Seq<BoardView>, pre: Seq<State>|
                #[trigger] expansion_with(&mid, mid.states@, mid.closed@, b, self, walks, pre);
            assert(expansion_with(old(self), old(self).states@.drop_last(), old(self).closed@, b, self, walks, pre));
        }
        false
    }

    /// Runs rounds of `step` until one finds a solution (`true`, with
    /// `result` set), the open population runs empty, or `open_node_limit`
    /// states have been taken (`false` in both cases, with everything else
    /// kept, so that a later call resumes where this one stopped).
    pub fn search(&mut self) -> (found: bool)
        requires
            old(self).wf(),
        ensures
            final(self).wf(),
            final(self).same_setup(old(self)),
            old(self).open_node_count <= final(self).open_node_count,
            final(self).open_node_count <= old(self).open_node_count || final(self).open_node_count
                <= final(self).open_node_limit,
            old(self).pushed@.is_prefix_of(final(self).pushed@),
            old(self).expanded@.is_prefix_of(final(self).expanded@),
            found ==> final(self).result is Some,
            !found ==> final(self).result == old(self).result,
            !found ==> final(self).states@.len() == 0 || final(self).open_node_count
                >= final(self).open_node_limit,
            old(self).states@.len() > 0 && old(self).open_node_count < old(self).open_node_limit
                ==> final(self).open_node_count > old(self).open_node_count,
            old(self).states@.len() > 0 && old(self).open_node_count < old(self).open_node_limit
                && mate(
                old(self).states@.last().board@,
                old(self).goal@,
                old(self).check_mate_cutoff as nat,
            ) is Some ==> {
                &&& found
                &&& final(self).open_node_count == old(self).open_node_count + 1
                &&& view_of(final(self).result) == mate(
                    old(self).states@.last().board@,
                    old(self).goal@,
                    old(self).check_mate_cutoff as nat,
                )
            },
            old(self).states@.len() <= old(self).beam_width ==> final(self).states@.len()
                <= final(self).beam_width,
            exists|trace: Seq<Solver>|
                #[trigger] rounds(trace, *old(self), *final(self), found) && trace.len() - 1
                    == final(self).open_node_count - old(self).open_node_count,
    {
        let ghost mut trace: Seq<Solver> = Seq::empty().push(*self);
        proof {
            assert(rounds(trace, *old(self), *self, false));
            assert(old(self).pushed@ =~= old(self).pushed@.subrange(0, old(self).pushed@.len() as int));
            assert(old(self).expanded@ =~= old(self).expanded@.subrange(0, old(self).expanded@.len() as int));
        }
        while self.states.len() > 0
            invariant
                self.wf(),
                self.same_setup(old(self)),
                old(self).open_node_count <= self.open_node_count,
                self.open_node_count <= old(self).open_node_count || self.open_node_count
                    <= self.open_node_limit,
                old(self).pushed@.is_prefix_of(self.pushed@),
                old(self).expanded@.is_prefix_of(self.expanded@),
                self.result == old(self).result,
                self.open_node_count == old(self).open_node_count ==> self.states@ == old(
                    self,
                ).states@,
                old(self).states@.len() > 0 && old(self).open_node_count < old(self).open_node_limit
                    && mate(
                    old(self).states@.last().board@,
                    old(self).goal@,
                    old(self).check_mate_cutoff as nat,
                ) is Some ==> self.open_node_count == old(self).open_node_count,
                old(self).states@.len() <= old(self).beam_width ==> self.states@.len()
                    <= self.beam_width,
                rounds(trace, *old(self), *self, false),
                trace.len() - 1 == self.open_node_count - old(self).open_node_count,
            decreases self.open_node_limit - self.open_node_count,
        {
            if self.open_node_count >= self.open_node_limit {
                return false;
            }
            let ghost prev_pushed = self.pushed@;
            let ghost prev_expanded = self.expanded@;
            let ghost prev_trace = trace;
            let found = self.step();
            proof {
                trace = prev_trace.push(*self);
                assert(trace[trace.len() - 2] == prev_trace.last());
                assert forall|k: int|
                    #![trigger trace[k]]
                    0 <= k < trace.len() - 1 implies round(
                        trace[k],
                        trace[k + 1],
                        found && k == trace.len() - 2,
                    ) by {
                    if k < trace.len() - 2 {
                        assert(trace[k] == prev_trace[k]);
                        assert(trace[k + 1] == prev_trace[k + 1]);
                        assert(round(prev_trace[k], prev_trace[k + 1], false));
                    }
                }
                assert(rounds(trace, *old(self), *self, found));
                assert(prev_expanded =~= self.expanded@.subrange(0, prev_expanded.len() as int));
                lemma_prefix_trans(old(self).expanded@, prev_expanded, self.expanded@);
                lemma_prefix_trans(old(self).pushed@, prev_pushed, self.pushed@);
            }
            if found {
                return true;
            }
        }
        false
    }

    /// The configured heuristic distance from `board` to the goal.
    pub fn distance(&self, board: &Board) -> (r: isize)
        requires
            self.goal.wf(),
            fits_scores(self.goal.cells@.len() as int),
            board.wf(),
            board.cells@.to_multiset() == self.goal.cells@.to_multiset(),
        ensures
            r == distance_of(self.distance_fn, board@, self.goal@),
            distance_range(self.goal.cells@.len() as int, r as int),
    {
        proof {
            lemma_same_tiles(board@, self.goal@);
            lemma_fits_scores(self.goal.cells@.len() as int);
        }
        match self.distance_fn {
            DistanceFn::BorderStripping => compute_distance1(board, &self.goal),
            DistanceFn::SquaredManhattan => compute_distance2(board, &self.goal),
            DistanceFn::ExclusiveSquared => compute_distance3(board, &self.goal),
        }
    }
}

/// In any search, no tile layout is expanded twice, and the layouts ever
/// placed in the open population are exactly as many as the closed set holds.
pub proof fn lemma_closed_set_accounting(s: &Solver)
    requires
        s.wf(),
    ensures
        s.expanded@.no_duplicates(),
        s.pushed@.no_duplicates(),
        s.closed@ == s.pushed@.to_set(),
        s.closed@.len() == s.pushed@.len(),
{
    s.pushed@.unique_seq_to_set();
}

} // verus!
