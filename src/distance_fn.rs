//! Heuristic distances from a board to a goal; lower is closer.
use crate::board::{lemma_manhattan_bound, manhattan, Board, BoardView};
use vstd::arithmetic::div_mod::lemma_fundamental_div_mod;
use vstd::prelude::*;

verus! {

/// Cell `p` already holds the tile the goal has there, and that tile is not the blank.
pub open spec fn settled(cells: Seq<u8>, goal: Seq<u8>, p: int) -> bool {
    goal[p] != 0 && cells[p] == goal[p]
}

/// Scans 0 to 3 walk the columns, 4 to 7 the rows.
pub open spec fn scan_lines(k: int, w: int, h: int) -> int {
    if k < 4 {
        w
    } else {
        h
    }
}

/// How many cells a line of scan `k` has.
pub open spec fn scan_len(k: int, w: int, h: int) -> int {
    if k < 4 {
        h
    } else {
        w
    }
}

/// The index of step `t` along line `l` of scan `k`. Scans 2, 3, 6 and 7 take
/// the lines from the far side; the odd scans walk each line from its far end.
pub open spec fn scan_cell(k: int, w: int, h: int, l: int, t: int) -> int {
    let line = if k % 4 >= 2 {
        scan_lines(k, w, h) - 1 - l
    } else {
        l
    };
    let along = if k % 2 == 1 {
        scan_len(k, w, h) - 1 - t
    } else {
        t
    };
    if k < 4 {
        line + along * w
    } else {
        along + line * w
    }
}

/// The number of settled cells that open line `l` of scan `k`, counting no
/// further than `m` steps.
pub open spec fn run(cells: Seq<u8>, goal: Seq<u8>, k: int, w: int, h: int, l: int, m: int) -> int
    decreases m,
{
    if m <= 0 {
        0
    } else {
        let r = run(cells, goal, k, w, h, l, m - 1);
        if r == m - 1 && settled(cells, goal, scan_cell(k, w, h, l, m - 1)) {
            m
        } else {
            r
        }
    }
}

/// After the first `n` lines of scan `k`: the cells peeled so far, and how far
/// the next line may go (no further than the run of the line before).
pub open spec fn peel(cells: Seq<u8>, goal: Seq<u8>, k: int, w: int, h: int, n: int) -> (int, int)
    decreases n,
{
    if n <= 0 {
        (0, scan_len(k, w, h))
    } else {
        let (count, bound) = peel(cells, goal, k, w, h, n - 1);
        let r = run(cells, goal, k, w, h, n - 1, bound);
        (count + r, r)
    }
}

/// The cells peeled by the first `n` scans.
pub open spec fn peel_total(cells: Seq<u8>, goal: Seq<u8>, w: int, h: int, n: int) -> int
    decreases n,
{
    if n <= 0 {
        0
    } else {
        peel_total(cells, goal, w, h, n - 1) + peel(
            cells,
            goal,
            n - 1,
            w,
            h,
            scan_lines(n - 1, w, h),
        ).0
    }
}

/// The border-stripping distance of `b` to `goal`: minus the cells peeled by
/// all eight scans.
pub open spec fn border_distance(b: BoardView, goal: BoardView) -> int {
    let w = b.width as int;
    -peel_total(b.cells, goal.cells, w, (b.cells.len() as int) / w, 8)
}

proof fn lemma_run_stops(
    cells: Seq<u8>,
    goal: Seq<u8>,
    k: int,
    w: int,
    h: int,
    l: int,
    t: int,
    m: int,
)
    requires
        0 <= t < m,
        run(cells, goal, k, w, h, l, t) == t,
        !settled(cells, goal, scan_cell(k, w, h, l, t)),
    ensures
        run(cells, goal, k, w, h, l, m) == t,
    decreases m,
{
    if m > t + 1 {
        lemma_run_stops(cells, goal, k, w, h, l, t, m - 1);
    }
}

proof fn lemma_run_bound(cells: Seq<u8>, goal: Seq<u8>, k: int, w: int, h: int, l: int, m: int)
    requires
        m >= 0,
    ensures
        0 <= run(cells, goal, k, w, h, l, m) <= m,
    decreases m,
{
    if m > 0 {
        lemma_run_bound(cells, goal, k, w, h, l, m - 1);
    }
}

fn scan_index(k: usize, w: usize, h: usize, l: usize, t: usize) -> (p: usize)
    requires
        k < 8,
        w * h <= usize::MAX,
        l < scan_lines(k as int, w as int, h as int),
        t < scan_len(k as int, w as int, h as int),
    ensures
        p == scan_cell(k as int, w as int, h as int, l as int, t as int),
        p < w * h,
{
    let lines = if k < 4 {
        w
    } else {
        h
    };
    let steps = if k < 4 {
        h
    } else {
        w
    };
    let line = if k % 4 >= 2 {
        lines - 1 - l
    } else {
        l
    };
    let along = if k % 2 == 1 {
        steps - 1 - t
    } else {
        t
    };
    if k < 4 {
        assert(line + along * w < w * h) by (nonlinear_arith)
            requires
                line < w,
                along < h,
        ;
        line + along * w
    } else {
        assert(along + line * w < w * h) by (nonlinear_arith)
            requires
                along < w,
                line < h,
        ;
        along + line * w
    }
}

/// Counts the cells peeled by scan `k`: each line gives the run of settled
/// cells at its start, and no line may run further than the one before it.
fn peel_scan(board: &Board, goal: &Board, k: usize, w: usize, h: usize) -> (c: usize)
    requires
        k < 8,
        board.wf(),
        w == board.width,
        w * h == board.cells@.len(),
        goal.cells@.len() == board.cells@.len(),
    ensures
        c == peel(board.cells@, goal.cells@, k as int, w as int, h as int, scan_lines(k as int, w as int, h as int)).0,
        c <= w * h,
{
    let ghost cs = board.cells@;
    let ghost gs = goal.cells@;
    let lines = if k < 4 {
        w
    } else {
        h
    };
    let steps = if k < 4 {
        h
    } else {
        w
    };
    let mut count: usize = 0;
    let mut bound: usize = steps;
    let mut l: usize = 0;
    assert(lines * steps == w * h) by (nonlinear_arith)
        requires
            (lines == w && steps == h) || (lines == h && steps == w),
    ;
    while l < lines
        invariant
            k < 8,
            cs.len() <= usize::MAX,
            cs == board.cells@,
            gs == goal.cells@,
            w * h == cs.len(),
            gs.len() == cs.len(),
            lines == scan_lines(k as int, w as int, h as int),
            steps == scan_len(k as int, w as int, h as int),
            lines * steps == w * h,
            l <= lines,
            (count as int, bound as int) == peel(cs, gs, k as int, w as int, h as int, l as int),
            bound <= steps,
            count <= l * steps,
        decreases lines - l,
    {
        let mut t: usize = 0;
        while t < bound && settled_at(board, goal, scan_index(k, w, h, l, t))
            invariant
                k < 8,
                cs.len() <= usize::MAX,
                cs == board.cells@,
                gs == goal.cells@,
                w * h == cs.len(),
                gs.len() == cs.len(),
                lines == scan_lines(k as int, w as int, h as int),
                steps == scan_len(k as int, w as int, h as int),
                l < lines,
                bound <= steps,
                t <= bound,
                run(cs, gs, k as int, w as int, h as int, l as int, t as int) == t,
            decreases bound - t,
        {
            t = t + 1;
        }
        proof {
            if t < bound {
                lemma_run_stops(cs, gs, k as int, w as int, h as int, l as int, t as int, bound as int);
            }
            assert(count + t <= (l + 1) * steps) by (nonlinear_arith)
                requires
                    count <= l * steps,
                    t <= bound,
                    bound <= steps,
            ;
            assert((l + 1) * steps <= lines * steps) by (nonlinear_arith)
                requires
                    l < lines,
                    steps >= 0,
            ;
        }
        count = count + t;
        bound = t;
        l = l + 1;
    }
    count
}

fn settled_at(board: &Board, goal: &Board, p: usize) -> (r: bool)
    requires
        p < board.cells@.len(),
        p < goal.cells@.len(),
    ensures
        r == settled(board.cells@, goal.cells@, p as int),
{
    goal.cells[p] != 0 && board.cells[p] == goal.cells[p]
}

/// Border-stripping distance: eight scans, down and up each column from the
/// left and from the right, and along each row both ways from the top and from
/// the bottom, peel the runs of cells that already hold the goal's tile; the
/// result is minus the number of cells peeled.
pub fn compute_distance1(board: &Board, goal: &Board) -> (r: isize)
    requires
        board.wf(),
        goal.cells@.len() == board.cells@.len(),
        8 * board.cells@.len() <= isize::MAX,
    ensures
        r == border_distance(board@, goal@),
        -(8 * board.cells@.len()) <= r <= 0,
{
    let n = board.cells.len();
    let w = board.width;
    let h = n / w;
    proof {
        lemma_fundamental_div_mod(n as int, w as int);
    }
    let mut distance: isize = 0;
    let mut k: usize = 0;
    while k < 8
        invariant
            board.wf(),
            goal.cells@.len() == board.cells@.len(),
            n == board.cells@.len(),
            8 * n <= isize::MAX,
            w == board.width,
            h as int == (n as int) / (w as int),
            w * h == n,
            k <= 8,
            distance == -peel_total(board.cells@, goal.cells@, w as int, h as int, k as int),
            -(k * n) <= distance <= 0,
        decreases 8 - k,
    {
        let c = peel_scan(board, goal, k, w, h);
        assert(-((k + 1) * n) == -(k * n) - n && (k + 1) * n <= 8 * n) by (nonlinear_arith)
            requires
                k < 8,
                n >= 0,
        ;
        distance = distance - c as isize;
        k = k + 1;
    }
    distance
}

/// The nearest goal cell among the first `n` that holds `v` and is not `used`,
/// as its distance from `pos` and its index; on a tie the lowest index wins.
pub open spec fn nearest_match(
    w: int,
    goal: Seq<u8>,
    used: Seq<bool>,
    v: u8,
    pos: int,
    n: int,
) -> Option<(int, int)>
    decreases n,
{
    if n <= 0 {
        None
    } else {
        let prev = nearest_match(w, goal, used, v, pos, n - 1);
        if goal[n - 1] == v && !used[n - 1] {
            let d = manhattan(w, pos, n - 1);
            match prev {
                Some(p) => if d < p.0 {
                    Some((d, n - 1))
                } else {
                    prev
                },
                None => Some((d, n - 1)),
            }
        } else {
            prev
        }
    }
}

/// No goal cell is taken yet.
pub open spec fn none_used(n: nat) -> Seq<bool> {
    Seq::new(n, |j: int| false)
}

/// The squared distance from tile `i` of `cells` to the nearest goal cell with
/// the same label; the blank counts nothing.
pub open spec fn squared_term(w: int, cells: Seq<u8>, goal: Seq<u8>, i: int) -> int {
    if cells[i] == 0 {
        0
    } else {
        match nearest_match(w, goal, none_used(goal.len()), cells[i], i, goal.len() as int) {
            Some(p) => p.0 * p.0,
            None => 0,
        }
    }
}

/// The sum of `squared_term` over the first `n` tiles.
pub open spec fn squared_sum(w: int, cells: Seq<u8>, goal: Seq<u8>, n: int) -> int
    decreases n,
{
    if n <= 0 {
        0
    } else {
        squared_sum(w, cells, goal, n - 1) + squared_term(w, cells, goal, n - 1)
    }
}

/// The squared-Manhattan assignment distance of `b` to `goal`.
pub open spec fn squared_distance(b: BoardView, goal: BoardView) -> int {
    squared_sum(b.width as int, b.cells, goal.cells, b.cells.len() as int)
}

/// After the first `n` tiles of the exclusive assignment: the sum so far and
/// the goal cells taken.
pub open spec fn exclusive_state(w: int, cells: Seq<u8>, goal: Seq<u8>, n: int) -> (int, Seq<bool>)
    decreases n,
{
    if n <= 0 {
        (0, none_used(goal.len()))
    } else {
        let (total, used) = exclusive_state(w, cells, goal, n - 1);
        if cells[n - 1] == 0 {
            (total, used)
        } else {
            match nearest_match(w, goal, used, cells[n - 1], n - 1, goal.len() as int) {
                Some(p) => (total + p.0 * p.0, used.update(p.1, true)),
                None => (total, used),
            }
        }
    }
}

/// The exclusive-assignment distance of `b` to `goal`.
pub open spec fn exclusive_distance(b: BoardView, goal: BoardView) -> int {
    exclusive_state(b.width as int, b.cells, goal.cells, b.cells.len() as int).0
}

/// How many of the first `n` cells of `s` hold `v`.
pub open spec fn occurrences(s: Seq<u8>, v: u8, n: int) -> int
    decreases n,
{
    if n <= 0 {
        0
    } else {
        occurrences(s, v, n - 1) + if s[n - 1] == v {
            1int
        } else {
            0int
        }
    }
}

/// How many of the first `n` goal cells hold `v` and are taken.
pub open spec fn taken(goal: Seq<u8>, used: Seq<bool>, v: u8, n: int) -> int
    decreases n,
{
    if n <= 0 {
        0
    } else {
        taken(goal, used, v, n - 1) + if goal[n - 1] == v && used[n - 1] {
            1int
        } else {
            0int
        }
    }
}

/// Every tile but the blank occurs in the goal at least as often as on the board.
pub open spec fn goal_covers(b: BoardView, goal: BoardView) -> bool {
    forall|v: u8|
        v != 0 ==> #[trigger] b.cells.to_multiset().count(v) <= goal.cells.to_multiset().count(v)
}

proof fn lemma_nearest_match(w: int, goal: Seq<u8>, used: Seq<bool>, v: u8, pos: int, n: int)
    requires
        n <= goal.len(),
        n <= used.len(),
    ensures
        nearest_match(w, goal, used, v, pos, n) matches Some(p) ==> {
            &&& 0 <= p.1 < n
            &&& goal[p.1] == v
            &&& !used[p.1]
            &&& p.0 == manhattan(w, pos, p.1)
        },
        forall|j: int|
            0 <= j < n && goal[j] == v && !used[j] ==> (nearest_match(w, goal, used, v, pos, n) matches Some(p)
                && p.0 <= manhattan(w, pos, j)),
    decreases n,
{
    if n > 0 {
        lemma_nearest_match(w, goal, used, v, pos, n - 1);
    }
}

pub proof fn lemma_occurrences_multiset(s: Seq<u8>, v: u8, n: int)
    requires
        0 <= n <= s.len(),
    ensures
        occurrences(s, v, n) == s.subrange(0, n).to_multiset().count(v),
    decreases n,
{
    broadcast use vstd::seq_lib::to_multiset_build;
    broadcast use vstd::multiset::group_multiset_axioms;

    if n == 0 {
        assert(s.subrange(0, 0).len() == 0);
        broadcast use vstd::seq_lib::to_multiset_contains;

        assert(!s.subrange(0, 0).contains(v));
        assert(s.subrange(0, 0).to_multiset().count(v) == 0);
    } else {
        lemma_occurrences_multiset(s, v, n - 1);
        assert(s.subrange(0, n) =~= s.subrange(0, n - 1).push(s[n - 1]));
        let m0 = s.subrange(0, n - 1).to_multiset();
        assert(s.subrange(0, n).to_multiset() == m0.insert(s[n - 1]));
        if s[n - 1] == v {
            assert(m0.insert(v).count(v) == m0.count(v) + 1);
        } else {
            assert(m0.insert(s[n - 1]).count(v) == m0.count(v));
        }
    }
}

proof fn lemma_occurrences_monotone(s: Seq<u8>, v: u8, i: int, j: int)
    requires
        i <= j,
    ensures
        occurrences(s, v, i) <= occurrences(s, v, j),
    decreases j - i,
{
    if i < j {
        lemma_occurrences_monotone(s, v, i, j - 1);
    }
}

proof fn lemma_taken_bound(goal: Seq<u8>, used: Seq<bool>, v: u8, n: int)
    ensures
        taken(goal, used, v, n) <= occurrences(goal, v, n),
    decreases n,
{
    if n > 0 {
        lemma_taken_bound(goal, used, v, n - 1);
    }
}

/// While fewer cells with `v` are taken than the goal holds, an untaken one is found.
proof fn lemma_free_match(w: int, goal: Seq<u8>, used: Seq<bool>, v: u8, pos: int, n: int)
    requires
        n <= goal.len(),
        n <= used.len(),
        taken(goal, used, v, n) < occurrences(goal, v, n),
    ensures
        nearest_match(w, goal, used, v, pos, n) is Some,
    decreases n,
{
    if n > 0 {
        if !(goal[n - 1] == v && !used[n - 1]) {
            lemma_free_match(w, goal, used, v, pos, n - 1);
        }
    }
}

proof fn lemma_taken_update(goal: Seq<u8>, used: Seq<bool>, v: u8, k: int, n: int)
    requires
        0 <= k < used.len(),
        n <= used.len(),
        !used[k],
    ensures
        taken(goal, used.update(k, true), v, n) == taken(goal, used, v, n) + if 0 <= k < n
            && goal[k] == v {
            1int
        } else {
            0int
        },
    decreases n,
{
    if n > 0 {
        lemma_taken_update(goal, used, v, k, n - 1);
    }
}

proof fn lemma_none_taken(goal: Seq<u8>, v: u8, n: int)
    requires
        n <= goal.len(),
    ensures
        taken(goal, none_used(goal.len()), v, n) == 0,
    decreases n,
{
    if n > 0 {
        lemma_none_taken(goal, v, n - 1);
    }
}

proof fn lemma_square_bound(d: int, m: int, total: int, i: int)
    requires
        0 <= d <= m,
        0 <= total <= i * (m * m),
        0 <= i,
    ensures
        0 <= d * d <= m * m,
        total + d * d <= (i + 1) * (m * m),
{
    assert(0 <= d * d <= m * m) by (nonlinear_arith)
        requires
            0 <= d <= m,
    ;
    assert((i + 1) * (m * m) == i * (m * m) + m * m) by (nonlinear_arith);
}

proof fn lemma_cube_bound(i: int, n: int)
    requires
        0 <= i <= n,
        n >= 1,
    ensures
        i * ((n - 1) * (n - 1)) <= n * n * n,
        n <= n * n * n,
{
    assert(n <= n * n * n) by (nonlinear_arith)
        requires
            n >= 1,
    ;
    assert(i * ((n - 1) * (n - 1)) <= n * n * n) by (nonlinear_arith)
        requires
            0 <= i <= n,
            n >= 1,
    ;
}

/// Squared-Manhattan assignment distance: for every tile but the blank, the
/// squared distance to the nearest goal cell with the same label, summed.
pub fn compute_distance2(board: &Board, goal: &Board) -> (r: isize)
    requires
        board.wf(),
        goal.cells@.len() == board.cells@.len(),
        forall|i: int|
            0 <= i < board.cells@.len() && board.cells@[i] != 0 ==> goal.cells@.contains(
                #[trigger] board.cells@[i],
            ),
        board.cells@.len() * board.cells@.len() * board.cells@.len() <= isize::MAX,
    ensures
        r == squared_distance(board@, goal@),
        0 <= r <= board.cells@.len() * board.cells@.len() * board.cells@.len(),
{
    let n = board.cells.len();
    let ghost w = board.width as int;
    let ghost g = goal.cells@;
    let mut distance: isize = 0;
    let mut i: usize = 0;
    while i < n
        invariant
            board.wf(),
            n == board.cells@.len(),
            g == goal.cells@,
            w == board.width,
            g.len() == n,
            forall|k: int|
                0 <= k < n && board.cells@[k] != 0 ==> g.contains(#[trigger] board.cells@[k]),
            n * n * n <= isize::MAX,
            i <= n,
            distance == squared_sum(w, board.cells@, g, i as int),
            0 <= distance <= i * ((n - 1) * (n - 1)),
        decreases n - i,
    {
        proof {
            lemma_cube_bound(i as int + 1, n as int);
            lemma_square_bound(0, n - 1, distance as int, i as int);
        }
        if board.cells[i] != 0 {
            let v = board.cells[i];
            let ghost used = none_used(g.len());
            let mut d: isize = isize::MAX;
            let mut j: usize = 0;
            while j < n
                invariant
                    board.wf(),
                    n == board.cells@.len(),
                    g == goal.cells@,
                    w == board.width,
                    g.len() == n,
                    n * n * n <= isize::MAX,
                    n <= isize::MAX,
                    i < n,
                    v == board.cells@[i as int],
                    used == none_used(g.len()),
                    j <= n,
                    match nearest_match(w, g, used, v, i as int, j as int) {
                        Some(p) => d == p.0,
                        None => d == isize::MAX,
                    },
                decreases n - j,
            {
                if goal.cells[j] == v {
                    let dd = board.index_distance(i, j);
                    proof {
                        lemma_nearest_match(w, g, used, v, i as int, j as int);
                    }
                    if dd < d {
                        d = dd;
                    }
                }
                j = j + 1;
            }
            proof {
                let k = choose|k: int| 0 <= k < g.len() && g[k] == v;
                lemma_nearest_match(w, g, used, v, i as int, n as int);
                let p = nearest_match(w, g, used, v, i as int, n as int).unwrap();
                lemma_manhattan_bound(w, n as int, i as int, p.1);
                lemma_square_bound(d as int, n - 1, distance as int, i as int);
            }
            distance = distance + d * d;
        }
        i = i + 1;
    }
    proof {
        if n > 0 {
            lemma_cube_bound(n as int, n as int);
        }
    }
    distance
}

/// Like `compute_distance2`, but each goal cell serves one tile only: tiles
/// are matched in index order, each to the nearest goal cell with its label
/// that no earlier tile took.
pub fn compute_distance3(board: &Board, goal: &Board) -> (r: isize)
    requires
        board.wf(),
        goal.cells@.len() == board.cells@.len(),
        goal_covers(board@, goal@),
        board.cells@.len() * board.cells@.len() * board.cells@.len() <= isize::MAX,
    ensures
        r == exclusive_distance(board@, goal@),
        0 <= r <= board.cells@.len() * board.cells@.len() * board.cells@.len(),
{
    let n = board.cells.len();
    let ghost w = board.width as int;
    let ghost g = goal.cells@;
    let ghost c = board.cells@;
    let mut used: Vec<bool> = Vec::new();
    let mut z: usize = 0;
    while z < n
        invariant
            z <= n,
            used@ == none_used(z as nat),
        decreases n - z,
    {
        used.push(false);
        z = z + 1;
        assert(used@ =~= none_used(z as nat));
    }
    proof {
        assert forall|v: u8| v != 0 implies taken(g, used@, v, n as int) == occurrences(c, v, 0) by {
            lemma_none_taken(g, v, n as int);
        }
    }
    let mut distance: isize = 0;
    let mut i: usize = 0;
    while i < n
        invariant
            board.wf(),
            n == board.cells@.len(),
            g == goal.cells@,
            c == board.cells@,
            w == board.width,
            g.len() == n,
            goal_covers(board@, goal@),
            n * n * n <= isize::MAX,
            i <= n,
            used@.len() == n,
            (distance as int, used@) == exclusive_state(w, c, g, i as int),
            0 <= distance <= i * ((n - 1) * (n - 1)),
            forall|v: u8| v != 0 ==> #[trigger] taken(g, used@, v, n as int) == occurrences(c, v, i as int),
        decreases n - i,
    {
        proof {
            lemma_cube_bound(i as int + 1, n as int);
            lemma_square_bound(0, n - 1, distance as int, i as int);
        }
        if board.cells[i] != 0 {
            let v = board.cells[i];
            let ghost u = used@;
            let mut d: isize = isize::MAX;
            let mut jj: usize = 0;
            let mut j: usize = 0;
            while j < n
                invariant
                    board.wf(),
                    n == board.cells@.len(),
                    g == goal.cells@,
                    w == board.width,
                    g.len() == n,
                    u.len() == n,
                    u == used@,
                    n * n * n <= isize::MAX,
                    n <= isize::MAX,
                    i < n,
                    v == board.cells@[i as int],
                    j <= n,
                    match nearest_match(w, g, u, v, i as int, j as int) {
                        Some(p) => d == p.0 && jj == p.1,
                        None => d == isize::MAX,
                    },
                decreases n - j,
            {
                if !used[j] && goal.cells[j] == v {
                    let dd = board.index_distance(i, j);
                    proof {
                        lemma_nearest_match(w, g, u, v, i as int, j as int);
                    }
                    if dd < d {
                        d = dd;
                        jj = j;
                    }
                }
                j = j + 1;
            }
            proof {
                lemma_occurrences_monotone(c, v, i as int + 1, n as int);
                lemma_occurrences_multiset(c, v, n as int);
                lemma_occurrences_multiset(g, v, n as int);
                assert(c.subrange(0, n as int) =~= c);
                assert(g.subrange(0, n as int) =~= g);
                assert(taken(g, u, v, n as int) < occurrences(g, v, n as int));
                lemma_free_match(w, g, u, v, i as int, n as int);
                lemma_nearest_match(w, g, u, v, i as int, n as int);
                let p = nearest_match(w, g, u, v, i as int, n as int).unwrap();
                lemma_manhattan_bound(w, n as int, i as int, p.1);
                lemma_square_bound(d as int, n - 1, distance as int, i as int);
                assert forall|v2: u8| v2 != 0 implies #[trigger] taken(g, u.update(jj as int, true), v2, n as int)
                    == occurrences(c, v2, i + 1) by {
                    lemma_taken_update(g, u, v2, jj as int, n as int);
                }
            }
            distance = distance + d * d;
            used.set(jj, true);
        }
        i = i + 1;
    }
    proof {
        if n > 0 {
            lemma_cube_bound(n as int, n as int);
        }
    }
    distance
}

/// The heuristics read nothing but the width and the cells: boards with the
/// same width and cells, ranked against goals with the same cells, get the
/// same distances, whatever their blanks and histories.
pub proof fn lemma_distances_depend_on_cells(b1: BoardView, b2: BoardView, g1: BoardView, g2: BoardView)
    requires
        b1.width == b2.width,
        b1.cells == b2.cells,
        g1.cells == g2.cells,
    ensures
        border_distance(b1, g1) == border_distance(b2, g2),
        squared_distance(b1, g1) == squared_distance(b2, g2),
        exclusive_distance(b1, g1) == exclusive_distance(b2, g2),
{
}

proof fn lemma_squared_sum_nonneg(w: int, cells: Seq<u8>, goal: Seq<u8>, n: int)
    ensures
        squared_sum(w, cells, goal, n) >= 0,
    decreases n,
{
    if n > 0 {
        lemma_squared_sum_nonneg(w, cells, goal, n - 1);
        let i = n - 1;
        if cells[i] != 0 {
            if let Some(p) = nearest_match(w, goal, none_used(goal.len()), cells[i], i, goal.len() as int) {
                assert(p.0 * p.0 >= 0) by (nonlinear_arith);
            }
        }
    }
}

proof fn lemma_squared_sum_self(w: int, goal: Seq<u8>, n: int)
    requires
        n <= goal.len(),
    ensures
        squared_sum(w, goal, goal, n) == 0,
    decreases n,
{
    if n > 0 {
        lemma_squared_sum_self(w, goal, n - 1);
        let i = n - 1;
        if goal[i] != 0 {
            lemma_nearest_match(w, goal, none_used(goal.len()), goal[i], i, goal.len() as int);
            assert(manhattan(w, i, i) == 0);
            let p = nearest_match(w, goal, none_used(goal.len()), goal[i], i, goal.len() as int).unwrap();
            assert(p.0 == 0);
            assert(p.0 * p.0 == 0);
        }
    }
}

/// The squared-Manhattan distance is never negative, and a goal is at
/// distance zero from itself.
pub proof fn lemma_squared_distance_minimum(b: BoardView, goal: BoardView)
    ensures
        squared_distance(b, goal) >= 0,
        squared_distance(goal, goal) == 0,
{
    lemma_squared_sum_nonneg(b.width as int, b.cells, goal.cells, b.cells.len() as int);
    lemma_squared_sum_self(goal.width as int, goal.cells, goal.cells.len() as int);
}

proof fn lemma_manhattan_zero(w: int, a: int, b: int)
    requires
        w > 0,
        manhattan(w, a, b) == 0,
    ensures
        a == b,
{
    vstd::arithmetic::div_mod::lemma_fundamental_div_mod(a, w);
    vstd::arithmetic::div_mod::lemma_fundamental_div_mod(b, w);
}

/// The goal cells that the exclusive assignment of a goal against itself
/// has taken after `i` tiles: those of its first `i` tiles but the blank.
pub open spec fn own_cells_taken(goal: Seq<u8>, i: int) -> Seq<bool> {
    Seq::new(goal.len(), |j: int| j < i && goal[j] != 0)
}

proof fn lemma_exclusive_self(w: int, goal: Seq<u8>, i: int)
    requires
        w > 0,
        0 <= i <= goal.len(),
    ensures
        exclusive_state(w, goal, goal, i) == (0int, own_cells_taken(goal, i)),
    decreases i,
{
    if i == 0 {
        assert(none_used(goal.len()) =~= own_cells_taken(goal, 0));
    } else {
        lemma_exclusive_self(w, goal, i - 1);
        let k = i - 1;
        let used = own_cells_taken(goal, k);
        if goal[k] == 0 {
            assert(used =~= own_cells_taken(goal, i));
        } else {
            lemma_nearest_match(w, goal, used, goal[k], k, goal.len() as int);
            assert(manhattan(w, k, k) == 0);
            let p = nearest_match(w, goal, used, goal[k], k, goal.len() as int).unwrap();
            lemma_manhattan_zero(w, k, p.1);
            assert(p.0 * p.0 == 0);
            assert(used.update(k, true) =~= own_cells_taken(goal, i));
        }
    }
}

proof fn lemma_exclusive_nonneg(w: int, cells: Seq<u8>, goal: Seq<u8>, n: int)
    ensures
        exclusive_state(w, cells, goal, n).0 >= 0,
    decreases n,
{
    if n > 0 {
        lemma_exclusive_nonneg(w, cells, goal, n - 1);
        let (total, used) = exclusive_state(w, cells, goal, n - 1);
        if cells[n - 1] != 0 {
            if let Some(p) = nearest_match(w, goal, used, cells[n - 1], n - 1, goal.len() as int) {
                assert(p.0 * p.0 >= 0) by (nonlinear_arith);
            }
        }
    }
}

/// The exclusive-assignment distance is never negative, and a well-formed
/// goal is at distance zero from itself.
pub proof fn lemma_exclusive_distance_minimum(b: BoardView, goal: BoardView)
    requires
        goal.wf(),
    ensures
        exclusive_distance(b, goal) >= 0,
        exclusive_distance(goal, goal) == 0,
{
    lemma_exclusive_nonneg(b.width as int, b.cells, goal.cells, b.cells.len() as int);
    lemma_exclusive_self(goal.width as int, goal.cells, goal.cells.len() as int);
}

proof fn lemma_run_settled(
    cells: Seq<u8>,
    goal: Seq<u8>,
    k: int,
    w: int,
    h: int,
    l: int,
    m: int,
    t: int,
)
    requires
        0 <= t < run(cells, goal, k, w, h, l, m),
    ensures
        settled(cells, goal, scan_cell(k, w, h, l, t)),
    decreases m,
{
    if m > 0 {
        let r = run(cells, goal, k, w, h, l, m - 1);
        if !(r == m - 1 && settled(cells, goal, scan_cell(k, w, h, l, m - 1))) {
            lemma_run_settled(cells, goal, k, w, h, l, m - 1, t);
        } else if t < m - 1 {
            lemma_run_settled(cells, goal, k, w, h, l, m - 1, t);
        }
    }
}

proof fn lemma_run_at_least(
    cells: Seq<u8>,
    goal: Seq<u8>,
    k: int,
    w: int,
    h: int,
    l: int,
    m: int,
    r: int,
)
    requires
        0 <= r <= m,
        forall|t: int| 0 <= t < r ==> settled(cells, goal, #[trigger] scan_cell(k, w, h, l, t)),
    ensures
        run(cells, goal, k, w, h, l, m) >= r,
    decreases m,
{
    if m > 0 {
        if r == m {
            lemma_run_at_least(cells, goal, k, w, h, l, m - 1, m - 1);
            lemma_run_bound(cells, goal, k, w, h, l, m - 1);
            assert(settled(cells, goal, scan_cell(k, w, h, l, m - 1)));
        } else {
            lemma_run_at_least(cells, goal, k, w, h, l, m - 1, r);
        }
    }
}

proof fn lemma_peel_monotone(b: Seq<u8>, g: Seq<u8>, k: int, w: int, h: int, n: int)
    requires
        b.len() == g.len(),
        scan_len(k, w, h) >= 0,
    ensures
        peel(b, g, k, w, h, n).0 <= peel(g, g, k, w, h, n).0,
        0 <= peel(b, g, k, w, h, n).1 <= peel(g, g, k, w, h, n).1,
    decreases n,
{
    if n > 0 {
        lemma_peel_monotone(b, g, k, w, h, n - 1);
        let mb = peel(b, g, k, w, h, n - 1).1;
        let mg = peel(g, g, k, w, h, n - 1).1;
        let rb = run(b, g, k, w, h, n - 1, mb);
        lemma_run_bound(b, g, k, w, h, n - 1, mb);
        assert forall|t: int| 0 <= t < rb implies settled(g, g, #[trigger] scan_cell(k, w, h, n - 1, t)) by {
            lemma_run_settled(b, g, k, w, h, n - 1, mb, t);
        }
        lemma_run_at_least(g, g, k, w, h, n - 1, mg, rb);
    }
}

proof fn lemma_peel_total_monotone(b: Seq<u8>, g: Seq<u8>, w: int, h: int, n: int)
    requires
        b.len() == g.len(),
        w >= 0,
        h >= 0,
    ensures
        peel_total(b, g, w, h, n) <= peel_total(g, g, w, h, n),
    decreases n,
{
    if n > 0 {
        lemma_peel_total_monotone(b, g, w, h, n - 1);
        lemma_peel_monotone(b, g, n - 1, w, h, scan_lines(n - 1, w, h));
    }
}

/// No board of a goal's shape is nearer to it by border stripping than the
/// goal itself.
pub proof fn lemma_border_distance_minimum(b: BoardView, goal: BoardView)
    requires
        b.width == goal.width,
        b.width > 0,
        b.cells.len() == goal.cells.len(),
    ensures
        border_distance(b, goal) >= border_distance(goal, goal),
{
    let w = b.width as int;
    assert((b.cells.len() as int) / w >= 0) by (nonlinear_arith)
        requires
            w > 0,
    ;
    lemma_peel_total_monotone(b.cells, goal.cells, w, (b.cells.len() as int) / w, 8);
}

} // verus!
