use crate::util;
use crate::Solution;
use vstd::prelude::*;
use vstd::string::StringSliceAdditionalSpecFns;
use vstd::string::StrSliceExecFns;

verus! {

// Directions are modelled by the indices 0 (north), 1 (east), 2 (south),
// 3 (west).
pub enum Direction {
    N,
    E,
    S,
    W,
}

pub open spec fn dir_ix(d: Direction) -> int {
    match d {
        Direction::N => 0,
        Direction::E => 1,
        Direction::S => 2,
        Direction::W => 3,
    }
}

/// The direction reached by a left turn.
pub open spec fn spec_left(d: int) -> int {
    if d == 0 {
        3
    } else if d == 1 {
        0
    } else if d == 2 {
        1
    } else {
        2
    }
}

/// The direction reached by a right turn.
pub open spec fn spec_right(d: int) -> int {
    if d == 0 {
        1
    } else if d == 1 {
        2
    } else if d == 2 {
        3
    } else {
        0
    }
}

/// Row offset of one step in direction `d`.
pub open spec fn spec_dr(d: int) -> int {
    if d == 0 {
        -1
    } else if d == 2 {
        1
    } else {
        0
    }
}

/// Column offset of one step in direction `d`.
pub open spec fn spec_dc(d: int) -> int {
    if d == 1 {
        1
    } else if d == 3 {
        -1
    } else {
        0
    }
}

impl Direction {
    pub fn left(&self) -> (r: Direction)
        ensures
            dir_ix(r) == spec_left(dir_ix(*self)),
    {
        match self {
            Direction::N => Direction::W,
            Direction::E => Direction::N,
            Direction::S => Direction::E,
            Direction::W => Direction::S,
        }
    }

    pub fn right(&self) -> (r: Direction)
        ensures
            dir_ix(r) == spec_right(dir_ix(*self)),
    {
        match self {
            Direction::N => Direction::E,
            Direction::E => Direction::S,
            Direction::S => Direction::W,
            Direction::W => Direction::N,
        }
    }

    pub fn offsets(&self) -> (r: (isize, isize))
        ensures
            r.0 == spec_dr(dir_ix(*self)),
            r.1 == spec_dc(dir_ix(*self)),
    {
        match self {
            Direction::N => (-1, 0),
            Direction::E => (0, 1),
            Direction::S => (1, 0),
            Direction::W => (0, -1),
        }
    }
}

/// A candidate entry of the search frontier: accumulated cost and the
/// (row, column, incoming direction) state it belongs to.
pub struct State {
    pub heat_loss: u32,
    pub posdir: (usize, usize, Direction),
}

pub struct Day17;

// ---------------------------------------------------------------------------
// The grid
// ---------------------------------------------------------------------------

pub open spec fn grid_cols(g: Seq<Seq<u32>>) -> int {
    g[0].len() as int
}

/// A well-formed cost grid: nonempty and rectangular.
pub open spec fn grid_wf(g: Seq<Seq<u32>>) -> bool {
    &&& g.len() >= 1
    &&& grid_cols(g) >= 1
    &&& forall|r: int| 0 <= r < g.len() ==> #[trigger] g[r].len() == grid_cols(g)
}

/// Grids small enough that no accumulated cost can overflow `u64`.
pub open spec fn grid_small(g: Seq<Seq<u32>>) -> bool {
    g.len() <= 200 && grid_cols(g) <= 200
}

pub open spec fn in_b(g: Seq<Seq<u32>>, r: int, c: int) -> bool {
    0 <= r < g.len() && 0 <= c < grid_cols(g)
}

/// Row of the cell `t` steps back along a move in direction `d` that ends
/// at row `r`.
pub open spec fn back_r(r: int, d: int, t: int) -> int {
    if d == 0 {
        r + t
    } else if d == 2 {
        r - t
    } else {
        r
    }
}

pub open spec fn back_c(c: int, d: int, t: int) -> int {
    if d == 1 {
        c - t
    } else if d == 3 {
        c + t
    } else {
        c
    }
}

/// Cost of the last `j` cells entered by a move in direction `d` ending at
/// `(r, c)`: the cells 0 through `j - 1` steps back.
pub open spec fn segcost(g: Seq<Seq<u32>>, r: int, c: int, d: int, j: int) -> int
    decreases j,
{
    if j <= 0 {
        0
    } else {
        segcost(g, r, c, d, j - 1) + g[back_r(r, d, j - 1)][back_c(c, d, j - 1)]
    }
}

// ---------------------------------------------------------------------------
// The state table: one entry per (row, column, incoming direction)
// ---------------------------------------------------------------------------

/// Marks a state not yet known reachable.
pub const INF: u64 = u64::MAX;

/// No accumulated cost through a 200 x 200 grid of `u32` cells exceeds this.
pub const COST_CAP: u64 = 160000 * 200 * 0xffff_ffff;

pub open spec fn state_ix(g: Seq<Seq<u32>>, r: int, c: int, d: int) -> int {
    (r * grid_cols(g) + c) * 4 + d
}

pub open spec fn table_len(g: Seq<Seq<u32>>) -> int {
    4 * g.len() * grid_cols(g)
}

pub open spec fn row_of(g: Seq<Seq<u32>>, i: int) -> int {
    (i / 4) / grid_cols(g)
}

pub open spec fn col_of(g: Seq<Seq<u32>>, i: int) -> int {
    (i / 4) % grid_cols(g)
}

pub open spec fn dir_of(i: int) -> int {
    i % 4
}

pub proof fn lemma_ix_decode(g: Seq<Seq<u32>>, r: int, c: int, d: int)
    requires
        grid_wf(g),
        in_b(g, r, c),
        0 <= d < 4,
    ensures
        0 <= state_ix(g, r, c, d) < table_len(g),
        row_of(g, state_ix(g, r, c, d)) == r,
        col_of(g, state_ix(g, r, c, d)) == c,
        dir_of(state_ix(g, r, c, d)) == d,
{
    let cc = grid_cols(g);
    let i = state_ix(g, r, c, d);
    assert((r * cc + c) * 4 + d == (r * cc + c) * 4 + d);
    assert(i / 4 == r * cc + c && i % 4 == d) by (nonlinear_arith)
        requires
            i == (r * cc + c) * 4 + d,
            0 <= d < 4,
            0 <= c < cc,
            0 <= r,
    ;
    assert((r * cc + c) / cc == r && (r * cc + c) % cc == c) by (nonlinear_arith)
        requires
            0 <= c < cc,
            0 <= r,
    ;
    assert(i < 4 * g.len() * cc) by (nonlinear_arith)
        requires
            i == (r * cc + c) * 4 + d,
            0 <= d < 4,
            0 <= c < cc,
            0 <= r < g.len(),
    ;
    assert(i >= 0) by (nonlinear_arith)
        requires
            i == (r * cc + c) * 4 + d,
            0 <= d,
            0 <= c < cc,
            0 <= r,
    ;
}

pub open spec fn as_ints(s: Seq<u64>) -> Seq<int> {
    s.map_values(|x: u64| x as int)
}

/// The table before any relaxation: zero at the two seed states of the
/// upper-left corner, unreachable everywhere else.
pub open spec fn init_table(g: Seq<Seq<u32>>) -> Seq<int> {
    Seq::new(
        table_len(g) as nat,
        |i: int|
            if row_of(g, i) == 0 && col_of(g, i) == 0 && (dir_of(i) == 0 || dir_of(i) == 3) {
                0
            } else {
                INF as int
            },
    )
}

pub open spec fn imin(a: int, b: int) -> int {
    if a <= b {
        a
    } else {
        b
    }
}

/// The cost of reaching `(r, c)` facing `d` by a final move of exactly `j`
/// cells, turning off a perpendicular direction `nd` at the move's start;
/// unreachable when the move is too short, leaves the grid, or starts at an
/// unreached state.
pub open spec fn cand(
    g: Seq<Seq<u32>>,
    t: Seq<int>,
    lo: int,
    r: int,
    c: int,
    d: int,
    nd: int,
    j: int,
) -> int {
    let pr = back_r(r, d, j);
    let pc = back_c(c, d, j);
    if lo <= j && in_b(g, pr, pc) && t[state_ix(g, pr, pc, nd)] != INF as int {
        t[state_ix(g, pr, pc, nd)] + segcost(g, r, c, d, j)
    } else {
        INF as int
    }
}

/// The least of the current table entry and every candidate with a final
/// move of at most `j` cells.
pub open spec fn best_upto(
    g: Seq<Seq<u32>>,
    t: Seq<int>,
    lo: int,
    r: int,
    c: int,
    d: int,
    j: int,
) -> int
    decreases j,
{
    if j <= 0 {
        t[state_ix(g, r, c, d)]
    } else {
        imin(
            imin(
                best_upto(g, t, lo, r, c, d, j - 1),
                cand(g, t, lo, r, c, d, spec_left(d), j),
            ),
            cand(g, t, lo, r, c, d, spec_right(d), j),
        )
    }
}

/// One full round of relaxation.
pub open spec fn step_table(g: Seq<Seq<u32>>, t: Seq<int>, lo: int, hi: int) -> Seq<int> {
    Seq::new(
        table_len(g) as nat,
        |i: int| best_upto(g, t, lo, row_of(g, i), col_of(g, i), dir_of(i), hi),
    )
}

/// The table after `k` rounds of relaxation.
pub open spec fn iterate(g: Seq<Seq<u32>>, lo: int, hi: int, k: int) -> Seq<int>
    decreases k,
{
    if k <= 0 {
        init_table(g)
    } else {
        step_table(g, iterate(g, lo, hi, k - 1), lo, hi)
    }
}

/// The least accumulated cost at the lower-right corner over all incoming
/// directions, after as many rounds as there are states — enough for every
/// relaxation chain to settle.
pub open spec fn spec_heat(g: Seq<Seq<u32>>, lo: int, hi: int) -> int {
    let t = iterate(g, lo, hi, table_len(g));
    let r = g.len() - 1;
    let c = grid_cols(g) - 1;
    imin(
        imin(t[state_ix(g, r, c, 0)], t[state_ix(g, r, c, 1)]),
        imin(t[state_ix(g, r, c, 2)], t[state_ix(g, r, c, 3)]),
    )
}

/// The answer of the search: the optimal cost, or `None` when the corner
/// cannot be reached under the run constraints.
pub open spec fn spec_least_heat_loss(g: Seq<Seq<u32>>, lo: int, hi: int) -> Option<u64> {
    if spec_heat(g, lo, hi) == INF as int {
        None
    } else {
        Some(spec_heat(g, lo, hi) as u64)
    }
}

// ---------------------------------------------------------------------------
// Facts about the table
// ---------------------------------------------------------------------------

pub open spec fn bounded(t: Seq<int>, b: int) -> bool {
    forall|i: int| 0 <= i < t.len() ==> t[i] == INF as int || (0 <= #[trigger] t[i] <= b)
}

/// Once a move has stepped off the grid it does not return.
pub proof fn lemma_back_monotone(g: Seq<Seq<u32>>, r: int, c: int, d: int, t1: int, t2: int)
    requires
        grid_wf(g),
        in_b(g, r, c),
        0 <= d < 4,
        0 <= t1 <= t2,
        !in_b(g, back_r(r, d, t1), back_c(c, d, t1)),
    ensures
        !in_b(g, back_r(r, d, t2), back_c(c, d, t2)),
{
}

/// Every cell of a move that starts and ends on the grid is on the grid.
pub proof fn lemma_back_between(g: Seq<Seq<u32>>, r: int, c: int, d: int, t1: int, t2: int)
    requires
        grid_wf(g),
        in_b(g, r, c),
        0 <= d < 4,
        0 <= t1 <= t2,
        in_b(g, back_r(r, d, t2), back_c(c, d, t2)),
    ensures
        in_b(g, back_r(r, d, t1), back_c(c, d, t1)),
{
}

/// Cost of a move segment that stays on the grid: nonnegative, and at most
/// one maximal cell for each of at most 200 cells.
pub proof fn lemma_segcost_bounds(g: Seq<Seq<u32>>, r: int, c: int, d: int, j: int)
    requires
        grid_wf(g),
        grid_small(g),
        in_b(g, r, c),
        0 <= d < 4,
        0 <= j,
        j > 0 ==> in_b(g, back_r(r, d, j - 1), back_c(c, d, j - 1)),
    ensures
        0 <= segcost(g, r, c, d, j) <= j * (u32::MAX as int),
        j <= 200,
    decreases j,
{
    if j > 0 {
        if j > 1 {
            lemma_back_between(g, r, c, d, j - 2, j - 1);
        }
        lemma_segcost_bounds(g, r, c, d, j - 1);
        let cr = back_r(r, d, j - 1);
        let cc = back_c(c, d, j - 1);
        assert(g[cr].len() == grid_cols(g));
        assert(0 <= g[cr][cc] <= u32::MAX);
    }
}

pub proof fn lemma_best_upto_bounded(
    g: Seq<Seq<u32>>,
    t: Seq<int>,
    lo: int,
    r: int,
    c: int,
    d: int,
    j: int,
    b: int,
)
    requires
        grid_wf(g),
        grid_small(g),
        t.len() == table_len(g),
        bounded(t, b),
        0 <= b,
        in_b(g, r, c),
        0 <= d < 4,
        0 <= j,
        b + 200 * (u32::MAX as int) < INF as int,
    ensures
        best_upto(g, t, lo, r, c, d, j) == INF as int || (0 <= best_upto(g, t, lo, r, c, d, j) <= b
            + 200 * (u32::MAX as int)),
    decreases j,
{
    lemma_ix_decode(g, r, c, d);
    if j > 0 {
        lemma_best_upto_bounded(g, t, lo, r, c, d, j - 1, b);
        let dirs = [spec_left(d), spec_right(d)];
        assert forall|nd: int| nd == spec_left(d) || nd == spec_right(d) implies cand(
            g,
            t,
            lo,
            r,
            c,
            d,
            nd,
            j,
        ) == INF as int || (0 <= cand(g, t, lo, r, c, d, nd, j) <= b + 200 * (
        u32::MAX as int)) by {
            let pr = back_r(r, d, j);
            let pc = back_c(c, d, j);
            if lo <= j && in_b(g, pr, pc) && t[state_ix(g, pr, pc, nd)] != INF as int {
                lemma_ix_decode(g, pr, pc, nd);
                lemma_back_between(g, r, c, d, j - 1, j);
                lemma_segcost_bounds(g, r, c, d, j);
            }
        }
    }
}

pub proof fn lemma_step_bounded(g: Seq<Seq<u32>>, t: Seq<int>, lo: int, hi: int, b: int)
    requires
        grid_wf(g),
        grid_small(g),
        t.len() == table_len(g),
        bounded(t, b),
        0 <= b,
        0 <= hi,
        b + 200 * (u32::MAX as int) < INF as int,
    ensures
        bounded(step_table(g, t, lo, hi), b + 200 * (u32::MAX as int)),
{
    let s = step_table(g, t, lo, hi);
    assert forall|i: int| 0 <= i < s.len() implies s[i] == INF as int || (0 <= #[trigger] s[i] <= b
        + 200 * (u32::MAX as int)) by {
        let r = row_of(g, i);
        let c = col_of(g, i);
        let d = dir_of(i);
        lemma_decode_in_b(g, i);
        lemma_best_upto_bounded(g, t, lo, r, c, d, hi, b);
    }
}

pub proof fn lemma_decode_in_b(g: Seq<Seq<u32>>, i: int)
    requires
        grid_wf(g),
        0 <= i < table_len(g),
    ensures
        in_b(g, row_of(g, i), col_of(g, i)),
        0 <= dir_of(i) < 4,
{
    let cc = grid_cols(g);
    assert(0 <= i % 4 < 4 && i / 4 >= 0 && 4 * (i / 4) <= i) by (nonlinear_arith)
        requires
            i >= 0,
    ;
    assert(i / 4 < g.len() * cc) by (nonlinear_arith)
        requires
            i < 4 * g.len() * cc,
            4 * (i / 4) <= i,
    ;
    assert(0 <= (i / 4) % cc < cc && 0 <= (i / 4) / cc) by (nonlinear_arith)
        requires
            cc >= 1,
            i / 4 >= 0,
    ;
    assert((i / 4) / cc < g.len()) by (nonlinear_arith)
        requires
            cc >= 1,
            i / 4 < g.len() * cc,
            i / 4 >= 0,
    ;
}

/// A table that one round leaves unchanged is left unchanged by every
/// further round.
pub proof fn lemma_fixpoint(g: Seq<Seq<u32>>, lo: int, hi: int, k: int, m: int)
    requires
        0 <= k <= m,
        step_table(g, iterate(g, lo, hi, k), lo, hi) == iterate(g, lo, hi, k),
    ensures
        iterate(g, lo, hi, m) == iterate(g, lo, hi, k),
    decreases m - k,
{
    if m > k {
        lemma_fixpoint(g, lo, hi, k, m - 1);
    }
}

/// Candidates beyond a move that has left the grid change nothing.
pub proof fn lemma_best_upto_stable(
    g: Seq<Seq<u32>>,
    t: Seq<int>,
    lo: int,
    r: int,
    c: int,
    d: int,
    j0: int,
    j1: int,
)
    requires
        grid_wf(g),
        in_b(g, r, c),
        0 <= d < 4,
        0 <= j0 <= j1,
        forall|j: int|
            j0 < j <= j1 ==> cand(g, t, lo, r, c, d, spec_left(d), j) == INF as int && cand(
                g,
                t,
                lo,
                r,
                c,
                d,
                spec_right(d),
                j,
            ) == INF as int,
        best_upto(g, t, lo, r, c, d, j0) <= INF as int,
    ensures
        best_upto(g, t, lo, r, c, d, j1) == best_upto(g, t, lo, r, c, d, j0),
    decreases j1 - j0,
{
    if j1 > j0 {
        lemma_best_upto_stable(g, t, lo, r, c, d, j0, j1 - 1);
    }
}

// ---------------------------------------------------------------------------
// The solver
// ---------------------------------------------------------------------------

/// Exec mirror of `grid_wf` plus the size cap.
pub fn check_grid(grid: &Vec<Vec<u32>>) -> (r: bool)
    ensures
        r == (grid_wf(grid.deep_view()) && grid_small(grid.deep_view())),
{
    let ghost g = grid.deep_view();
    if grid.len() == 0 || grid.len() > 200 {
        return false;
    }
    let cols = grid[0].len();
    proof {
        assert(g[0] =~= grid@[0].deep_view());
        assert(g[0].len() == grid@[0]@.len());
    }
    if cols == 0 || cols > 200 {
        return false;
    }
    let mut r: usize = 0;
    while r < grid.len()
        invariant
            r <= grid@.len(),
            g == grid.deep_view(),
            grid_cols(g) == cols,
            0 < cols <= 200,
            grid@.len() == g.len(),
            0 < g.len() <= 200,
            forall|i: int| 0 <= i < r ==> #[trigger] g[i].len() == cols,
        decreases grid@.len() - r,
    {
        proof {
            assert(g[r as int] =~= grid@[r as int].deep_view());
        }
        if grid[r].len() != cols {
            return false;
        }
        r += 1;
    }
    true
}

/// The grid cell `t` steps back along a move in direction `d` ending at
/// `(r, c)`, or `None` where that cell is off the grid.
fn back_pos(grid: &Vec<Vec<u32>>, r: usize, c: usize, d: usize, t: usize) -> (res: Option<
    (usize, usize),
>)
    requires
        grid_wf(grid.deep_view()),
        in_b(grid.deep_view(), r as int, c as int),
        d < 4,
    ensures
        match res {
            Some(p) => p.0 == back_r(r as int, d as int, t as int) && p.1 == back_c(
                c as int,
                d as int,
                t as int,
            ) && in_b(grid.deep_view(), p.0 as int, p.1 as int),
            None => !in_b(
                grid.deep_view(),
                back_r(r as int, d as int, t as int),
                back_c(c as int, d as int, t as int),
            ),
        },
{
    let ghost g = grid.deep_view();
    let rows = grid.len();
    let cols = grid[0].len();
    proof {
        assert(g[0] =~= grid@[0].deep_view());
    }
    if d == 0 {
        if t <= rows - 1 - r {
            Some((r + t, c))
        } else {
            None
        }
    } else if d == 2 {
        if t <= r {
            Some((r - t, c))
        } else {
            None
        }
    } else if d == 1 {
        if t <= c {
            Some((r, c - t))
        } else {
            None
        }
    } else {
        if t <= cols - 1 - c {
            Some((r, c + t))
        } else {
            None
        }
    }
}

/// The flat table index of the state `(r, c, d)`.
fn flat_ix(grid: &Vec<Vec<u32>>, r: usize, c: usize, d: usize) -> (res: usize)
    requires
        grid_wf(grid.deep_view()),
        grid_small(grid.deep_view()),
        in_b(grid.deep_view(), r as int, c as int),
        d < 4,
    ensures
        res as int == state_ix(grid.deep_view(), r as int, c as int, d as int),
        0 <= res < table_len(grid.deep_view()),
        table_len(grid.deep_view()) <= 160000,
{
    let ghost g = grid.deep_view();
    let cols = grid[0].len();
    proof {
        assert(g[0] =~= grid@[0].deep_view());
        lemma_ix_decode(g, r as int, c as int, d as int);
        assert((r as int) * (cols as int) + (c as int) <= 199 * 200 + 199) by (nonlinear_arith)
            requires
                0 <= r as int <= 199,
                0 <= c as int <= 199,
                0 < cols as int <= 200,
        ;
        assert(4 * g.len() * grid_cols(g) <= 160000) by (nonlinear_arith)
            requires
                0 < g.len() <= 200,
                0 < grid_cols(g) <= 200,
        ;
    }
    (r * cols + c) * 4 + d
}

/// One state's relaxed value: the least of its current cost and of every
/// admissible final move into it.
fn relax_state(
    grid: &Vec<Vec<u32>>,
    t: &Vec<u64>,
    lo: usize,
    hi: usize,
    r: usize,
    c: usize,
    d: usize,
) -> (res: u64)
    requires
        grid_wf(grid.deep_view()),
        grid_small(grid.deep_view()),
        t@.len() == table_len(grid.deep_view()),
        bounded(as_ints(t@), COST_CAP as int),
        in_b(grid.deep_view(), r as int, c as int),
        d < 4,
        1 <= lo <= hi,
    ensures
        res as int == best_upto(
            grid.deep_view(),
            as_ints(t@),
            lo as int,
            r as int,
            c as int,
            d as int,
            hi as int,
        ),
{
    let ghost g = grid.deep_view();
    let ghost ts = as_ints(t@);
    let idx = flat_ix(grid, r, c, d);
    proof {
        lemma_ix_decode(g, r as int, c as int, d as int);
    }
    let mut best: u64 = t[idx];
    let mut cost: u64 = 0;
    let dl = if d == 0 {
        3
    } else if d == 1 {
        0
    } else if d == 2 {
        1
    } else {
        2
    };
    let dr = if d == 0 {
        1
    } else if d == 1 {
        2
    } else if d == 2 {
        3
    } else {
        0
    };
    let mut j: usize = 1;
    while j <= hi
        invariant
            grid_wf(g),
            grid_small(g),
            g == grid.deep_view(),
            ts == as_ints(t@),
            t@.len() == table_len(g),
            bounded(ts, COST_CAP as int),
            in_b(g, r as int, c as int),
            d < 4,
            1 <= lo <= hi,
            1 <= j <= hi + 1,
            dl == spec_left(d as int),
            dr == spec_right(d as int),
            cost as int == segcost(g, r as int, c as int, d as int, j - 1),
            cost <= 200 * (u32::MAX as int),
            j >= 2 ==> in_b(
                g,
                back_r(r as int, d as int, j - 2),
                back_c(c as int, d as int, j - 2),
            ),
            best as int == best_upto(g, ts, lo as int, r as int, c as int, d as int, j - 1),
        decreases hi + 1 - j,
    {
        // the cell entered at the start of a length-j move: j - 1 steps back
        let cell = match back_pos(grid, r, c, d, j - 1) {
            Some(p) => p,
            None => {
                proof {
                    assert forall|jj: int| j - 1 < jj <= hi implies cand(
                        g,
                        ts,
                        lo as int,
                        r as int,
                        c as int,
                        d as int,
                        spec_left(d as int),
                        jj,
                    ) == INF as int && cand(
                        g,
                        ts,
                        lo as int,
                        r as int,
                        c as int,
                        d as int,
                        spec_right(d as int),
                        jj,
                    ) == INF as int by {
                        lemma_back_monotone(g, r as int, c as int, d as int, j - 1, jj);
                    }
                    lemma_best_upto_bounded(
                        g,
                        ts,
                        lo as int,
                        r as int,
                        c as int,
                        d as int,
                        j - 1,
                        COST_CAP as int,
                    );
                    lemma_best_upto_stable(
                        g,
                        ts,
                        lo as int,
                        r as int,
                        c as int,
                        d as int,
                        j - 1,
                        hi as int,
                    );
                }
                return best;
            },
        };
        proof {
            assert(g[cell.0 as int] =~= grid@[cell.0 as int].deep_view());
            lemma_segcost_bounds(g, r as int, c as int, d as int, j as int);
        }
        let cellv = grid[cell.0][cell.1];
        cost = cost + cellv as u64;
        // the state the move turns out of: j steps back
        match back_pos(grid, r, c, d, j) {
            Some(pred) => {
                proof {
                    lemma_ix_decode(g, pred.0 as int, pred.1 as int, dl as int);
                    lemma_ix_decode(g, pred.0 as int, pred.1 as int, dr as int);
                }
                if j >= lo {
                    let pl = flat_ix(grid, pred.0, pred.1, dl);
                    let tv = t[pl];
                    proof {
                        assert(ts[pl as int] == t@[pl as int] as int);
                    }
                    if tv != INF {
                        let cl = tv + cost;
                        if cl < best {
                            best = cl;
                        }
                    }
                    let pr2 = flat_ix(grid, pred.0, pred.1, dr);
                    let tv2 = t[pr2];
                    proof {
                        assert(ts[pr2 as int] == t@[pr2 as int] as int);
                    }
                    if tv2 != INF {
                        let cr2 = tv2 + cost;
                        if cr2 < best {
                            best = cr2;
                        }
                    }
                }
            },
            None => {
                proof {
                    assert forall|jj: int| j <= jj <= hi implies cand(
                        g,
                        ts,
                        lo as int,
                        r as int,
                        c as int,
                        d as int,
                        spec_left(d as int),
                        jj,
                    ) == INF as int && cand(
                        g,
                        ts,
                        lo as int,
                        r as int,
                        c as int,
                        d as int,
                        spec_right(d as int),
                        jj,
                    ) == INF as int by {
                        lemma_back_monotone(g, r as int, c as int, d as int, j as int, jj);
                    }
                    lemma_best_upto_bounded(
                        g,
                        ts,
                        lo as int,
                        r as int,
                        c as int,
                        d as int,
                        j - 1,
                        COST_CAP as int,
                    );
                    lemma_best_upto_stable(
                        g,
                        ts,
                        lo as int,
                        r as int,
                        c as int,
                        d as int,
                        j - 1,
                        hi as int,
                    );
                }
                return best;
            },
        }
        j += 1;
    }
    best
}


/// One full round of relaxation over every state.
fn one_round(grid: &Vec<Vec<u32>>, t: &Vec<u64>, lo: usize, hi: usize) -> (res: Vec<u64>)
    requires
        grid_wf(grid.deep_view()),
        grid_small(grid.deep_view()),
        t@.len() == table_len(grid.deep_view()),
        bounded(as_ints(t@), COST_CAP as int),
        1 <= lo <= hi,
    ensures
        as_ints(res@) == step_table(
            grid.deep_view(),
            as_ints(t@),
            lo as int,
            hi as int,
        ),
        res@.len() == table_len(grid.deep_view()),
{
    let ghost g = grid.deep_view();
    let ghost ts = as_ints(t@);
    let ghost st = step_table(g, ts, lo as int, hi as int);
    let rows = grid.len();
    let cols = grid[0].len();
    proof {
        assert(g[0] =~= grid@[0].deep_view());
    }
    let mut res: Vec<u64> = Vec::new();
    let mut r: usize = 0;
    while r < rows
        invariant
            grid_wf(g),
            grid_small(g),
            g == grid.deep_view(),
            ts == as_ints(t@),
            st == step_table(g, ts, lo as int, hi as int),
            t@.len() == table_len(g),
            bounded(ts, COST_CAP as int),
            1 <= lo <= hi,
            r <= rows,
            rows == g.len(),
            cols == grid_cols(g),
            res@.len() == r * cols * 4,
            forall|i: int| 0 <= i < res@.len() ==> #[trigger] res@[i] as int == st[i],
        decreases rows - r,
    {
        let mut c: usize = 0;
        while c < cols
            invariant
                grid_wf(g),
                grid_small(g),
                g == grid.deep_view(),
                ts == as_ints(t@),
                st == step_table(g, ts, lo as int, hi as int),
                t@.len() == table_len(g),
                bounded(ts, COST_CAP as int),
                1 <= lo <= hi,
                r < rows,
                c <= cols,
                rows == g.len(),
                cols == grid_cols(g),
                res@.len() == (r * cols + c) * 4,
                forall|i: int| 0 <= i < res@.len() ==> #[trigger] res@[i] as int == st[i],
            decreases cols - c,
        {
            let mut d: usize = 0;
            while d < 4
                invariant
                    grid_wf(g),
                    grid_small(g),
                    g == grid.deep_view(),
                    ts == as_ints(t@),
                    st == step_table(g, ts, lo as int, hi as int),
                    t@.len() == table_len(g),
                    bounded(ts, COST_CAP as int),
                    1 <= lo <= hi,
                    r < rows,
                    c < cols,
                    d <= 4,
                    rows == g.len(),
                    cols == grid_cols(g),
                    res@.len() == (r * cols + c) * 4 + d,
                    forall|i: int| 0 <= i < res@.len() ==> #[trigger] res@[i] as int == st[i],
                decreases 4 - d,
            {
                let v = relax_state(grid, t, lo, hi, r, c, d);
                proof {
                    lemma_ix_decode(g, r as int, c as int, d as int);
                    assert(st[res@.len() as int] == best_upto(
                        g,
                        ts,
                        lo as int,
                        r as int,
                        c as int,
                        d as int,
                        hi as int,
                    ));
                }
                res.push(v);
                d += 1;
            }
            proof {
                assert((r * cols + c) * 4 + 4 == (r * cols + (c + 1)) * 4) by (nonlinear_arith);
            }
            c += 1;
        }
        proof {
            assert((r * cols + cols) * 4 == ((r + 1) * cols) * 4) by (nonlinear_arith);
            assert(((r + 1) * cols) * 4 == (r + 1) * cols * 4) by (nonlinear_arith);
        }
        r += 1;
    }
    proof {
        assert(res@.len() == table_len(g)) by (nonlinear_arith)
            requires
                res@.len() == rows * cols * 4,
                rows == g.len(),
                cols == grid_cols(g),
                table_len(g) == 4 * g.len() * grid_cols(g),
        ;
        assert forall|i: int| 0 <= i < st.len() implies as_ints(res@)[i] == st[i] by {
            assert(res@[i] as int == st[i]);
        }
        assert(as_ints(res@) =~= st);
    }
    res
}

fn eq_vec(a: &Vec<u64>, b: &Vec<u64>) -> (r: bool)
    ensures
        r <==> a@ == b@,
{
    if a.len() != b.len() {
        proof {
            assert(a@.len() != b@.len());
        }
        return false;
    }
    let mut i: usize = 0;
    while i < a.len()
        invariant
            i <= a@.len(),
            a@.len() == b@.len(),
            forall|k: int| 0 <= k < i ==> a@[k] == b@[k],
        decreases a@.len() - i,
    {
        if a[i] != b[i] {
            return false;
        }
        i += 1;
    }
    proof {
        assert(a@ =~= b@);
    }
    true
}

pub proof fn lemma_iterate_bounded(g: Seq<Seq<u32>>, lo: int, hi: int, k: int)
    requires
        grid_wf(g),
        grid_small(g),
        0 <= hi,
        0 <= k <= 160000,
    ensures
        iterate(g, lo, hi, k).len() == table_len(g),
        bounded(iterate(g, lo, hi, k), k * (200 * (u32::MAX as int))),
    decreases k,
{
    if k <= 0 {
    } else {
        lemma_iterate_bounded(g, lo, hi, k - 1);
        lemma_step_bounded(g, iterate(g, lo, hi, k - 1), lo, hi, (k - 1) * (200 * (
        u32::MAX as int)));
    }
}

impl Day17 {
    /// The position `steps` cells ahead of `(r, c)` in direction `d`, or
    /// `None` where it leaves a grid of `bounds` rows and columns.
    pub fn move_n(steps: usize, d: Direction, r: usize, c: usize, bounds: (usize, usize)) -> (res:
        Option<(usize, usize)>)
        ensures
            ({
                let nr = r - back_r(0, dir_ix(d), steps as int);
                let nc = c - back_c(0, dir_ix(d), steps as int);
                match res {
                    Some(p) => 0 <= nr < bounds.0 && 0 <= nc < bounds.1 && p.0 == nr && p.1 == nc,
                    None => !(0 <= nr < bounds.0 && 0 <= nc < bounds.1),
                }
            }),
    {
        let nr: i128 = match d {
            Direction::N => r as i128 - steps as i128,
            Direction::S => r as i128 + steps as i128,
            _ => r as i128,
        };
        let nc: i128 = match d {
            Direction::E => c as i128 + steps as i128,
            Direction::W => c as i128 - steps as i128,
            _ => c as i128,
        };
        if 0 <= nr && nr < bounds.0 as i128 && 0 <= nc && nc < bounds.1 as i128 {
            Some((nr as usize, nc as usize))
        } else {
            None
        }
    }

    /// The minimum accumulated entry cost of a run-constrained path from the
    /// upper-left to the lower-right corner, or `None` when no such path
    /// exists.
    pub fn least_heat_loss(grid: &Vec<Vec<u32>>, min_steps: usize, max_steps: usize) -> (res:
        Option<u64>)
        requires
            grid_wf(grid.deep_view()),
            grid_small(grid.deep_view()),
            1 <= min_steps <= max_steps,
        ensures
            res == spec_least_heat_loss(grid.deep_view(), min_steps as int, max_steps as int),
    {
        let ghost g = grid.deep_view();
        let rows = grid.len();
        let cols = grid[0].len();
        proof {
            assert(g[0] =~= grid@[0].deep_view());
        }
        proof {
            assert((rows as int) * (cols as int) * 4 == table_len(g) && table_len(g) <= 160000
                && table_len(g) >= 4) by (nonlinear_arith)
                requires
                    rows == g.len(),
                    cols == grid_cols(g),
                    0 < rows as int <= 200,
                    0 < cols as int <= 200,
                    table_len(g) == 4 * g.len() * grid_cols(g),
            ;
        }
        let n = rows * cols * 4;
        let mut table: Vec<u64> = Vec::new();
        let mut i: usize = 0;
        while i < n
            invariant
                i <= n,
                table@.len() == i,
                forall|k: int| 0 <= k < i ==> table@[k] == INF,
            decreases n - i,
        {
            table.push(INF);
            i += 1;
        }
        table.set(0, 0);
        table.set(3, 0);
        proof {
            lemma_ix_decode(g, 0, 0, 0);
            lemma_ix_decode(g, 0, 0, 3);
            assert(state_ix(g, 0, 0, 0) == 0 && state_ix(g, 0, 0, 3) == 3);
            assert forall|k: int| 0 <= k < n implies as_ints(table@)[k] == init_table(g)[k] by {
                lemma_decode_in_b(g, k);
                lemma_decode_ix(g, k);
            }
            assert(as_ints(table@) =~= init_table(g));
        }
        let mut k: usize = 0;
        let mut done = false;
        while k < n && !done
            invariant
                grid_wf(g),
                grid_small(g),
                g == grid.deep_view(),
                1 <= min_steps <= max_steps,
                k <= n,
                n == table_len(g),
                n <= 160000,
                table@.len() == table_len(g),
                !done ==> as_ints(table@) == iterate(
                    g,
                    min_steps as int,
                    max_steps as int,
                    k as int,
                ),
                done ==> as_ints(table@) == iterate(
                    g,
                    min_steps as int,
                    max_steps as int,
                    table_len(g),
                ),
            decreases n - k, (if done { 0int } else { 1 }),
        {
            proof {
                lemma_iterate_bounded(g, min_steps as int, max_steps as int, k as int);
            }
            let next = one_round(grid, &table, min_steps, max_steps);
            if eq_vec(&table, &next) {
                proof {
                    assert(as_ints(next@) == as_ints(table@));
                    lemma_fixpoint(
                        g,
                        min_steps as int,
                        max_steps as int,
                        k as int,
                        table_len(g),
                    );
                }
                done = true;
            } else {
                table = next;
                k += 1;
            }
        }
        proof {
            if !done {
                assert(k == n);
            }
            assert(as_ints(table@) == iterate(
                g,
                min_steps as int,
                max_steps as int,
                table_len(g),
            ));
        }
        let i0 = flat_ix(grid, rows - 1, cols - 1, 0);
        let i1 = flat_ix(grid, rows - 1, cols - 1, 1);
        let i2 = flat_ix(grid, rows - 1, cols - 1, 2);
        let i3 = flat_ix(grid, rows - 1, cols - 1, 3);
        let v0 = table[i0];
        let v1 = table[i1];
        let v2 = table[i2];
        let v3 = table[i3];
        proof {
            assert(as_ints(table@)[i0 as int] == table@[i0 as int] as int);
            assert(as_ints(table@)[i1 as int] == table@[i1 as int] as int);
            assert(as_ints(table@)[i2 as int] == table@[i2 as int] as int);
            assert(as_ints(table@)[i3 as int] == table@[i3 as int] as int);
        }
        let m01 = if v0 <= v1 {
            v0
        } else {
            v1
        };
        let m23 = if v2 <= v3 {
            v2
        } else {
            v3
        };
        let m = if m01 <= m23 {
            m01
        } else {
            m23
        };
        if m == INF {
            None
        } else {
            Some(m)
        }
    }
}

// ---------------------------------------------------------------------------
// The path model: what the table search is about
// ---------------------------------------------------------------------------

/// Row reached from the upper-left corner by a sequence of (direction,
/// length) moves.
pub open spec fn end_r(p: Seq<(int, int)>) -> int
    decreases p.len(),
{
    if p.len() == 0 {
        0
    } else {
        end_r(p.drop_last()) - back_r(0, p.last().0, p.last().1)
    }
}

pub open spec fn end_c(p: Seq<(int, int)>) -> int
    decreases p.len(),
{
    if p.len() == 0 {
        0
    } else {
        end_c(p.drop_last()) - back_c(0, p.last().0, p.last().1)
    }
}

/// A lawful path: every move has a direction and a length within the run
/// bounds, consecutive moves turn left or right (no reversal, no
/// continuation), and every prefix ends on the grid.
pub open spec fn path_ok(g: Seq<Seq<u32>>, lo: int, hi: int, p: Seq<(int, int)>) -> bool {
    &&& forall|k: int| 0 <= k < p.len() ==> 0 <= (#[trigger] p[k]).0 < 4 && lo <= p[k].1 <= hi
    &&& forall|k: int|
        1 <= k < p.len() ==> (#[trigger] p[k]).0 == spec_left(p[k - 1].0) || p[k].0 == spec_right(
            p[k - 1].0,
        )
    &&& forall|k: int| 0 <= k <= p.len() ==> in_b(g, end_r(#[trigger] p.take(k)), end_c(p.take(k)))
}

/// The accumulated cost of a path: the sum of the entry costs of every cell
/// each move enters.
pub open spec fn path_cost(g: Seq<Seq<u32>>, p: Seq<(int, int)>) -> int
    decreases p.len(),
{
    if p.len() == 0 {
        0
    } else {
        path_cost(g, p.drop_last()) + segcost(g, end_r(p), end_c(p), p.last().0, p.last().1)
    }
}

/// Some lawful path ends at the lower-right corner with this cost.
pub open spec fn achievable(g: Seq<Seq<u32>>, lo: int, hi: int, cost: int) -> bool {
    exists|p: Seq<(int, int)>|
        path_ok(g, lo, hi, p) && end_r(p) == g.len() - 1 && end_c(p) == grid_cols(g) - 1
            && path_cost(g, p) == cost
}

/// `cost` is the least achievable cost.
pub open spec fn is_optimal(g: Seq<Seq<u32>>, lo: int, hi: int, cost: int) -> bool {
    achievable(g, lo, hi, cost) && forall|c2: int| achievable(g, lo, hi, c2) ==> cost <= c2
}

/// Widening the run-length ceiling never worsens the optimum: any path
/// lawful under the smaller ceiling stays lawful under the larger, so the
/// larger ceiling's optimum is at most the smaller's.
pub proof fn lemma_monotone_in_max_run(
    g: Seq<Seq<u32>>,
    lo: int,
    hi1: int,
    hi2: int,
    c1: int,
    c2: int,
)
    requires
        grid_wf(g),
        1 <= lo <= hi1 <= hi2,
        is_optimal(g, lo, hi1, c1),
        is_optimal(g, lo, hi2, c2),
    ensures
        c2 <= c1,
{
    let p = choose|p: Seq<(int, int)>|
        path_ok(g, lo, hi1, p) && end_r(p) == g.len() - 1 && end_c(p) == grid_cols(g) - 1
            && path_cost(g, p) == c1;
    assert(path_ok(g, lo, hi2, p));
    assert(achievable(g, lo, hi2, c1));
}

/// The optimum is unique: the search's answer is a function of the grid and
/// the run bounds alone.
pub proof fn lemma_optimum_unique(g: Seq<Seq<u32>>, lo: int, hi: int, c1: int, c2: int)
    requires
        is_optimal(g, lo, hi, c1),
        is_optimal(g, lo, hi, c2),
    ensures
        c1 == c2,
{
}

/// Re-running the search changes nothing: the result is pinned to
/// `spec_least_heat_loss`, a pure function of the inputs, so two runs on an
/// unmodified grid return the same answer.
pub proof fn lemma_search_idempotent(
    g: Seq<Seq<u32>>,
    lo: int,
    hi: int,
    r1: Option<u64>,
    r2: Option<u64>,
)
    requires
        r1 == spec_least_heat_loss(g, lo, hi),
        r2 == spec_least_heat_loss(g, lo, hi),
    ensures
        r1 == r2,
{
}

pub proof fn lemma_best_upto_le(
    g: Seq<Seq<u32>>,
    t: Seq<int>,
    lo: int,
    r: int,
    c: int,
    d: int,
    j: int,
)
    requires
        0 <= j,
    ensures
        best_upto(g, t, lo, r, c, d, j) <= t[state_ix(g, r, c, d)],
    decreases j,
{
    if j > 0 {
        lemma_best_upto_le(g, t, lo, r, c, d, j - 1);
    }
}

pub proof fn lemma_decode_ix(g: Seq<Seq<u32>>, i: int)
    requires
        grid_wf(g),
        0 <= i < table_len(g),
    ensures
        state_ix(g, row_of(g, i), col_of(g, i), dir_of(i)) == i,
{
    let cc = grid_cols(g);
    assert(((i / 4) / cc * cc + (i / 4) % cc) * 4 + i % 4 == i) by (nonlinear_arith)
        requires
            cc >= 1,
            i >= 0,
    ;
}

/// Table entries never grow from one round to the next.
pub proof fn lemma_iterate_le_init(g: Seq<Seq<u32>>, lo: int, hi: int, k: int, i: int)
    requires
        grid_wf(g),
        0 <= hi,
        0 <= k,
        0 <= i < table_len(g),
    ensures
        iterate(g, lo, hi, k)[i] <= init_table(g)[i],
    decreases k,
{
    if k > 0 {
        lemma_iterate_le_init(g, lo, hi, k - 1, i);
        lemma_decode_ix(g, i);
        lemma_best_upto_le(
            g,
            iterate(g, lo, hi, k - 1),
            lo,
            row_of(g, i),
            col_of(g, i),
            dir_of(i),
            hi,
        );
    }
}

/// A single-cell grid has the trivial answer: the corner is the start, no
/// cell is ever entered, and the accumulated cost is zero.
pub proof fn lemma_unit_grid(g: Seq<Seq<u32>>, lo: int, hi: int)
    requires
        grid_wf(g),
        g.len() == 1,
        grid_cols(g) == 1,
        1 <= lo <= hi,
        lo <= 1,
    ensures
        spec_least_heat_loss(g, lo, hi) == Some(0u64),
{
    assert(grid_small(g));
    let kk = table_len(g);
    let t = iterate(g, lo, hi, kk);
    lemma_iterate_bounded(g, lo, hi, kk);
    lemma_ix_decode(g, 0, 0, 0);
    lemma_ix_decode(g, 0, 0, 1);
    lemma_ix_decode(g, 0, 0, 2);
    lemma_ix_decode(g, 0, 0, 3);
    lemma_iterate_le_init(g, lo, hi, kk, state_ix(g, 0, 0, 0));
    lemma_iterate_le_init(g, lo, hi, kk, state_ix(g, 0, 0, 3));
    assert(init_table(g)[state_ix(g, 0, 0, 0)] == 0);
    assert(t[state_ix(g, 0, 0, 0)] <= 0);
    assert(t[state_ix(g, 0, 0, 0)] == INF as int || 0 <= t[state_ix(g, 0, 0, 0)]);
    assert(t[state_ix(g, 0, 0, 0)] == 0);
    assert(spec_heat(g, lo, hi) <= 0);
    assert(spec_heat(g, lo, hi) >= 0 || spec_heat(g, lo, hi) == INF as int);
    assert(spec_heat(g, lo, hi) == 0);
}


pub open spec fn table_le(a: Seq<int>, b: Seq<int>) -> bool {
    a.len() == b.len() && forall|i: int| 0 <= i < a.len() ==> #[trigger] a[i] <= b[i]
}

/// More candidate move lengths never raise the round minimum.
pub proof fn lemma_best_upto_mono_j(
    g: Seq<Seq<u32>>,
    t: Seq<int>,
    lo: int,
    r: int,
    c: int,
    d: int,
    j1: int,
    j2: int,
)
    requires
        0 <= j1 <= j2,
    ensures
        best_upto(g, t, lo, r, c, d, j2) <= best_upto(g, t, lo, r, c, d, j1),
    decreases j2,
{
    if j2 > j1 {
        lemma_best_upto_mono_j(g, t, lo, r, c, d, j1, j2 - 1);
    }
}

/// A pointwise better table gives a better candidate, as long as its
/// finite entries stay clear of the unreachable marker.
pub proof fn lemma_cand_mono(
    g: Seq<Seq<u32>>,
    t1: Seq<int>,
    t2: Seq<int>,
    lo: int,
    r: int,
    c: int,
    d: int,
    nd: int,
    j: int,
    b: int,
)
    requires
        grid_wf(g),
        grid_small(g),
        in_b(g, r, c),
        0 <= d < 4,
        0 <= nd < 4,
        1 <= j,
        table_le(t1, t2),
        t1.len() == table_len(g),
        bounded(t1, b),
        bounded(t2, b),
        0 <= b,
        b + 200 * (u32::MAX as int) < INF as int,
    ensures
        cand(g, t1, lo, r, c, d, nd, j) <= cand(g, t2, lo, r, c, d, nd, j),
{
    let pr = back_r(r, d, j);
    let pc = back_c(c, d, j);
    if lo <= j && in_b(g, pr, pc) {
        lemma_ix_decode(g, pr, pc, nd);
        let ix = state_ix(g, pr, pc, nd);
        lemma_back_between(g, r, c, d, j - 1, j);
        lemma_segcost_bounds(g, r, c, d, j);
        assert(segcost(g, r, c, d, j) <= 200 * (u32::MAX as int));
        if t2[ix] == INF as int {
            if t1[ix] != INF as int {
                assert(0 <= t1[ix] <= b);
                assert(cand(g, t1, lo, r, c, d, nd, j) <= b + 200 * (u32::MAX as int));
            }
        } else {
            assert(t1[ix] <= t2[ix]);
            assert(t2[ix] <= b);
            assert(t1[ix] != INF as int);
        }
    }
}

/// A pointwise better table keeps the round minimum better.
pub proof fn lemma_best_upto_mono_t(
    g: Seq<Seq<u32>>,
    t1: Seq<int>,
    t2: Seq<int>,
    lo: int,
    r: int,
    c: int,
    d: int,
    j: int,
    b: int,
)
    requires
        grid_wf(g),
        grid_small(g),
        in_b(g, r, c),
        0 <= d < 4,
        0 <= j,
        table_le(t1, t2),
        t1.len() == table_len(g),
        bounded(t1, b),
        bounded(t2, b),
        0 <= b,
        b + 200 * (u32::MAX as int) < INF as int,
    ensures
        best_upto(g, t1, lo, r, c, d, j) <= best_upto(g, t2, lo, r, c, d, j),
    decreases j,
{
    lemma_ix_decode(g, r, c, d);
    if j > 0 {
        lemma_best_upto_mono_t(g, t1, t2, lo, r, c, d, j - 1, b);
        assert(0 <= spec_left(d) < 4 && 0 <= spec_right(d) < 4);
        lemma_cand_mono(g, t1, t2, lo, r, c, d, spec_left(d), j, b);
        lemma_cand_mono(g, t1, t2, lo, r, c, d, spec_right(d), j, b);
    }
}

/// Widening the run ceiling while bettering the table never raises a
/// relaxation round.
pub proof fn lemma_step_mono(
    g: Seq<Seq<u32>>,
    t1: Seq<int>,
    t2: Seq<int>,
    lo: int,
    hi1: int,
    hi2: int,
    b: int,
)
    requires
        grid_wf(g),
        grid_small(g),
        0 <= hi1 <= hi2,
        table_le(t1, t2),
        t1.len() == table_len(g),
        bounded(t1, b),
        bounded(t2, b),
        0 <= b,
        b + 200 * (u32::MAX as int) < INF as int,
    ensures
        table_le(step_table(g, t1, lo, hi2), step_table(g, t2, lo, hi1)),
{
    assert forall|i: int| 0 <= i < table_len(g) implies #[trigger] step_table(g, t1, lo, hi2)[i]
        <= step_table(g, t2, lo, hi1)[i] by {
        lemma_decode_in_b(g, i);
        let r = row_of(g, i);
        let c = col_of(g, i);
        let d = dir_of(i);
        lemma_best_upto_mono_j(g, t1, lo, r, c, d, hi1, hi2);
        lemma_best_upto_mono_t(g, t1, t2, lo, r, c, d, hi1, b);
    }
}

/// Widening the run ceiling never raises any round's table.
pub proof fn lemma_iterate_mono_hi(g: Seq<Seq<u32>>, lo: int, hi1: int, hi2: int, k: int)
    requires
        grid_wf(g),
        grid_small(g),
        0 <= hi1 <= hi2,
        0 <= k <= 160000,
    ensures
        table_le(iterate(g, lo, hi2, k), iterate(g, lo, hi1, k)),
    decreases k,
{
    lemma_iterate_bounded(g, lo, hi1, k);
    lemma_iterate_bounded(g, lo, hi2, k);
    if k == 0 {
        assert(table_le(init_table(g), init_table(g)));
    } else {
        lemma_iterate_mono_hi(g, lo, hi1, hi2, k - 1);
        lemma_iterate_bounded(g, lo, hi2, k - 1);
        lemma_iterate_bounded(g, lo, hi1, k - 1);
        let b = (k - 1) * (200 * (u32::MAX as int));
        assert(0 <= b && b + 200 * (u32::MAX as int) < INF as int) by (nonlinear_arith)
            requires
                0 <= k - 1 <= 160000,
                b == (k - 1) * (200 * (u32::MAX as int)),
        ;
        lemma_step_mono(
            g,
            iterate(g, lo, hi2, k - 1),
            iterate(g, lo, hi1, k - 1),
            lo,
            hi1,
            hi2,
            b,
        );
    }
}

/// Raising the run-length ceiling never worsens the answer itself: with
/// more moves allowed, the search finds a result at least as good.
pub proof fn lemma_heat_monotone_in_max_run(g: Seq<Seq<u32>>, lo: int, hi1: int, hi2: int)
    requires
        grid_wf(g),
        grid_small(g),
        1 <= lo <= hi1 <= hi2,
    ensures
        match spec_least_heat_loss(g, lo, hi1) {
            Some(v1) => spec_least_heat_loss(g, lo, hi2) is Some && spec_least_heat_loss(
                g,
                lo,
                hi2,
            ).unwrap() <= v1,
            None => true,
        },
{
    let n = table_len(g);
    assert(4 <= n <= 160000) by (nonlinear_arith)
        requires
            1 <= g.len() <= 200,
            1 <= grid_cols(g) <= 200,
            n == 4 * g.len() * grid_cols(g),
    ;
    lemma_iterate_mono_hi(g, lo, hi1, hi2, n);
    lemma_iterate_bounded(g, lo, hi1, n);
    lemma_iterate_bounded(g, lo, hi2, n);
    let t1 = iterate(g, lo, hi1, n);
    let t2 = iterate(g, lo, hi2, n);
    let r = g.len() - 1;
    let c = grid_cols(g) - 1;
    lemma_ix_decode(g, r, c, 0);
    lemma_ix_decode(g, r, c, 1);
    lemma_ix_decode(g, r, c, 2);
    lemma_ix_decode(g, r, c, 3);
    assert(spec_heat(g, lo, hi2) <= spec_heat(g, lo, hi1));
    if spec_heat(g, lo, hi1) != INF as int {
        assert(spec_heat(g, lo, hi2) != INF as int);
        assert(spec_heat(g, lo, hi2) >= 0);
    }
}

/// Entries never grow from round to round.
pub proof fn lemma_iterate_antitone(g: Seq<Seq<u32>>, lo: int, hi: int, k: int, m: int, i: int)
    requires
        grid_wf(g),
        0 <= hi,
        0 <= k <= m,
        0 <= i < table_len(g),
    ensures
        iterate(g, lo, hi, m)[i] <= iterate(g, lo, hi, k)[i],
    decreases m,
{
    if m > k {
        lemma_iterate_antitone(g, lo, hi, k, m - 1, i);
        lemma_decode_ix(g, i);
        lemma_best_upto_le(
            g,
            iterate(g, lo, hi, m - 1),
            lo,
            row_of(g, i),
            col_of(g, i),
            dir_of(i),
            hi,
        );
    }
}

/// The round minimum is at most any single candidate move length.
pub proof fn lemma_best_upto_le_cand(
    g: Seq<Seq<u32>>,
    t: Seq<int>,
    lo: int,
    r: int,
    c: int,
    d: int,
    j: int,
    jm: int,
)
    requires
        1 <= j <= jm,
    ensures
        best_upto(g, t, lo, r, c, d, jm) <= cand(g, t, lo, r, c, d, spec_left(d), j),
        best_upto(g, t, lo, r, c, d, jm) <= cand(g, t, lo, r, c, d, spec_right(d), j),
    decreases jm,
{
    if jm > j {
        lemma_best_upto_le_cand(g, t, lo, r, c, d, j, jm - 1);
    }
}

/// After `k` rounds the table is no worse than any lawful `k`-move prefix
/// ending in the prefix's final direction; the prefix's cost is bounded.
proof fn lemma_prefix_bound(g: Seq<Seq<u32>>, lo: int, hi: int, p: Seq<(int, int)>, k: int)
    requires
        grid_wf(g),
        grid_small(g),
        1 <= lo <= hi,
        path_ok(g, lo, hi, p),
        1 <= k <= p.len(),
        k <= 160000,
    ensures
        iterate(g, lo, hi, k)[state_ix(g, end_r(p.take(k)), end_c(p.take(k)), p[k - 1].0)]
            <= path_cost(g, p.take(k)),
        0 <= path_cost(g, p.take(k)) <= k * (200 * (u32::MAX as int)),
    decreases k,
{
    let d = p[k - 1].0;
    let j = p[k - 1].1;
    assert(p.take(k).drop_last() =~= p.take(k - 1));
    assert(p.take(k).last() == p[k - 1]);
    let r = end_r(p.take(k));
    let c = end_c(p.take(k));
    let pr = end_r(p.take(k - 1));
    let pc = end_c(p.take(k - 1));
    assert(r == pr - back_r(0, d, j) && c == pc - back_c(0, d, j));
    assert(back_r(r, d, j) == pr && back_c(c, d, j) == pc);
    assert(in_b(g, r, c));
    assert(in_b(g, pr, pc));
    if j > 0 {
        lemma_back_between(g, r, c, d, j - 1, j);
    }
    lemma_segcost_bounds(g, r, c, d, j);
    assert(path_cost(g, p.take(k)) == path_cost(g, p.take(k - 1)) + segcost(g, r, c, d, j));
    lemma_ix_decode(g, r, c, d);
    if k == 1 {
        assert(p.take(0) =~= Seq::<(int, int)>::empty());
        assert(pr == 0 && pc == 0);
        assert(path_cost(g, p.take(0)) == 0);
        let nd: int = if spec_left(d) == 0 || spec_left(d) == 3 {
            spec_left(d)
        } else {
            spec_right(d)
        };
        assert(nd == 0 || nd == 3);
        lemma_ix_decode(g, 0, 0, nd);
        let t0 = init_table(g);
        assert(t0[state_ix(g, 0, 0, nd)] == 0);
        assert(cand(g, t0, lo, r, c, d, nd, j) == segcost(g, r, c, d, j));
        lemma_best_upto_le_cand(g, t0, lo, r, c, d, j, hi);
        assert(iterate(g, lo, hi, 1)[state_ix(g, r, c, d)] == best_upto(g, t0, lo, r, c, d, hi));
    } else {
        lemma_prefix_bound(g, lo, hi, p, k - 1);
        let nd = p[k - 2].0;
        assert(p.take(k - 1)[k - 2] == p[k - 2]);
        assert(d == spec_left(nd) || d == spec_right(nd));
        assert(nd == spec_left(d) || nd == spec_right(d));
        let tk1 = iterate(g, lo, hi, k - 1);
        lemma_iterate_bounded(g, lo, hi, k - 1);
        lemma_ix_decode(g, pr, pc, nd);
        let e = tk1[state_ix(g, pr, pc, nd)];
        assert(e <= path_cost(g, p.take(k - 1)));
        assert((k - 1) * (200 * (u32::MAX as int)) < INF as int) by (nonlinear_arith)
            requires
                0 <= k - 1 <= 160000,
        ;
        assert(path_cost(g, p.take(k - 1)) < INF as int);
        assert(e != INF as int);
        assert(cand(g, tk1, lo, r, c, d, nd, j) == e + segcost(g, r, c, d, j));
        lemma_best_upto_le_cand(g, tk1, lo, r, c, d, j, hi);
        assert(iterate(g, lo, hi, k)[state_ix(g, r, c, d)] == best_upto(g, tk1, lo, r, c, d, hi));
    }
}

/// The answer never overcounts: no lawful path to the lower-right corner
/// of at most as many moves as there are states costs less than it, and
/// the answer exists whenever such a path does.
pub proof fn lemma_search_minimal(g: Seq<Seq<u32>>, lo: int, hi: int, p: Seq<(int, int)>)
    requires
        grid_wf(g),
        grid_small(g),
        1 <= lo <= hi,
        path_ok(g, lo, hi, p),
        end_r(p) == g.len() - 1,
        end_c(p) == grid_cols(g) - 1,
        p.len() <= table_len(g),
    ensures
        spec_least_heat_loss(g, lo, hi) is Some,
        spec_least_heat_loss(g, lo, hi).unwrap() as int <= path_cost(g, p),
{
    let n = table_len(g);
    assert(4 <= n <= 160000) by (nonlinear_arith)
        requires
            1 <= g.len() <= 200,
            1 <= grid_cols(g) <= 200,
            n == 4 * g.len() * grid_cols(g),
    ;
    lemma_iterate_bounded(g, lo, hi, n);
    let t = iterate(g, lo, hi, n);
    let r = g.len() - 1;
    let c = grid_cols(g) - 1;
    if p.len() == 0 {
        assert(r == 0 && c == 0);
        lemma_ix_decode(g, 0, 0, 0);
        lemma_ix_decode(g, 0, 0, 1);
        lemma_ix_decode(g, 0, 0, 2);
        lemma_ix_decode(g, 0, 0, 3);
        lemma_iterate_le_init(g, lo, hi, n, state_ix(g, 0, 0, 0));
        assert(init_table(g)[state_ix(g, 0, 0, 0)] == 0);
        assert(t[state_ix(g, 0, 0, 0)] <= 0);
        assert(t[state_ix(g, 0, 0, 0)] == 0);
        assert(spec_heat(g, lo, hi) <= 0);
        assert(spec_heat(g, lo, hi) == 0);
        assert(path_cost(g, p) == 0);
    } else {
        let k = p.len() as int;
        lemma_prefix_bound(g, lo, hi, p, k);
        assert(p.take(k) =~= p);
        let d = p[k - 1].0;
        lemma_ix_decode(g, r, c, d);
        lemma_iterate_antitone(g, lo, hi, k, n, state_ix(g, r, c, d));
        assert(t[state_ix(g, r, c, d)] <= path_cost(g, p));
        lemma_ix_decode(g, r, c, 0);
        lemma_ix_decode(g, r, c, 1);
        lemma_ix_decode(g, r, c, 2);
        lemma_ix_decode(g, r, c, 3);
        if d == 0 {
            assert(spec_heat(g, lo, hi) <= t[state_ix(g, r, c, 0)]);
        } else if d == 1 {
            assert(spec_heat(g, lo, hi) <= t[state_ix(g, r, c, 1)]);
        } else if d == 2 {
            assert(spec_heat(g, lo, hi) <= t[state_ix(g, r, c, 2)]);
        } else {
            assert(spec_heat(g, lo, hi) <= t[state_ix(g, r, c, 3)]);
        }
        assert(spec_heat(g, lo, hi) <= path_cost(g, p));
        assert(path_cost(g, p) <= k * (200 * (u32::MAX as int)));
        assert(k * (200 * (u32::MAX as int)) < INF as int) by (nonlinear_arith)
            requires
                0 <= k <= 160000,
        ;
        assert(spec_heat(g, lo, hi) != INF as int);
        assert(spec_heat(g, lo, hi) >= 0);
    }
}

/// A path ending in state `(r, c, d)` with cost `cost`: the empty path for
/// the two seed states of the corner, else a lawful path whose last move
/// ran in direction `d`.
pub open spec fn state_reached(
    g: Seq<Seq<u32>>,
    lo: int,
    hi: int,
    r: int,
    c: int,
    d: int,
    cost: int,
) -> bool {
    exists|p: Seq<(int, int)>|
        {
            &&& path_ok(g, lo, hi, p)
            &&& end_r(p) == r
            &&& end_c(p) == c
            &&& path_cost(g, p) == cost
            &&& (p.len() > 0 ==> p.last().0 == d)
            &&& (p.len() == 0 ==> d == 0 || d == 3)
        }
}

pub proof fn lemma_push_take(p: Seq<(int, int)>, x: (int, int), k: int)
    requires
        0 <= k <= p.len(),
    ensures
        p.push(x).take(k) == p.take(k),
{
    assert(p.push(x).take(k) =~= p.take(k));
}

/// Extending a reached state by one lawful move reaches the move's end.
pub proof fn lemma_reach_extend(
    g: Seq<Seq<u32>>,
    lo: int,
    hi: int,
    r: int,
    c: int,
    d: int,
    nd: int,
    j: int,
    cost: int,
)
    requires
        grid_wf(g),
        1 <= lo <= hi,
        0 <= d < 4,
        nd == spec_left(d) || nd == spec_right(d),
        lo <= j <= hi,
        in_b(g, r, c),
        in_b(g, back_r(r, d, j), back_c(c, d, j)),
        state_reached(g, lo, hi, back_r(r, d, j), back_c(c, d, j), nd, cost),
    ensures
        state_reached(g, lo, hi, r, c, d, cost + segcost(g, r, c, d, j)),
{
    let pr = back_r(r, d, j);
    let pc = back_c(c, d, j);
    let p = choose|p: Seq<(int, int)>|
        {
            &&& path_ok(g, lo, hi, p)
            &&& end_r(p) == pr
            &&& end_c(p) == pc
            &&& path_cost(g, p) == cost
            &&& (p.len() > 0 ==> p.last().0 == nd)
            &&& (p.len() == 0 ==> nd == 0 || nd == 3)
        };
    let p2 = p.push((d, j));
    assert(p2.drop_last() =~= p);
    assert(end_r(p2) == pr - back_r(0, d, j) && end_c(p2) == pc - back_c(0, d, j));
    assert(end_r(p2) == r && end_c(p2) == c);
    assert(path_cost(g, p2) == cost + segcost(g, r, c, d, j));
    assert forall|k: int| 0 <= k <= p2.len() implies in_b(
        g,
        end_r(#[trigger] p2.take(k)),
        end_c(p2.take(k)),
    ) by {
        if k <= p.len() {
            lemma_push_take(p, (d, j), k);
            assert(in_b(g, end_r(p.take(k)), end_c(p.take(k))));
        } else {
            assert(p2.take(k) =~= p2);
        }
    }
    assert forall|k: int| 0 <= k < p2.len() implies 0 <= (#[trigger] p2[k]).0 < 4 && lo <= p2[
    k].1 <= hi by {
        if k < p.len() {
            assert(p2[k] == p[k]);
        }
    }
    assert forall|k: int|
        1 <= k < p2.len() implies (#[trigger] p2[k]).0 == spec_left(p2[k - 1].0) || p2[k].0
        == spec_right(p2[k - 1].0) by {
        if k < p.len() {
            assert(p2[k] == p[k] && p2[k - 1] == p[k - 1]);
        } else {
            if p.len() > 0 {
                assert(p2[k - 1] == p[k - 1] && p[k - 1] == p.last());
            }
        }
    }
    assert(path_ok(g, lo, hi, p2));
}

/// Every finite table entry is witnessed by a lawful path of that cost.
pub open spec fn table_sound(g: Seq<Seq<u32>>, lo: int, hi: int, t: Seq<int>) -> bool {
    forall|i: int|
        0 <= i < table_len(g) && #[trigger] t[i] != INF as int ==> state_reached(
            g,
            lo,
            hi,
            row_of(g, i),
            col_of(g, i),
            dir_of(i),
            t[i],
        )
}

pub proof fn lemma_best_upto_sound(
    g: Seq<Seq<u32>>,
    lo: int,
    hi: int,
    t: Seq<int>,
    r: int,
    c: int,
    d: int,
    j: int,
)
    requires
        grid_wf(g),
        1 <= lo <= hi,
        in_b(g, r, c),
        0 <= d < 4,
        0 <= j <= hi,
        table_sound(g, lo, hi, t),
        best_upto(g, t, lo, r, c, d, j) != INF as int,
    ensures
        state_reached(g, lo, hi, r, c, d, best_upto(g, t, lo, r, c, d, j)),
    decreases j,
{
    let b = best_upto(g, t, lo, r, c, d, j);
    if j <= 0 {
        lemma_ix_decode(g, r, c, d);
        assert(t[state_ix(g, r, c, d)] != INF as int);
    } else {
        let bprev = best_upto(g, t, lo, r, c, d, j - 1);
        let cl = cand(g, t, lo, r, c, d, spec_left(d), j);
        let cr = cand(g, t, lo, r, c, d, spec_right(d), j);
        if b == bprev {
            lemma_best_upto_sound(g, lo, hi, t, r, c, d, j - 1);
        } else if b == cl {
            let pr = back_r(r, d, j);
            let pc = back_c(c, d, j);
            lemma_ix_decode(g, pr, pc, spec_left(d));
            lemma_reach_extend(g, lo, hi, r, c, d, spec_left(d), j, t[state_ix(g, pr, pc,
                spec_left(d))]);
        } else {
            let pr = back_r(r, d, j);
            let pc = back_c(c, d, j);
            lemma_ix_decode(g, pr, pc, spec_right(d));
            lemma_reach_extend(g, lo, hi, r, c, d, spec_right(d), j, t[state_ix(g, pr, pc,
                spec_right(d))]);
        }
    }
}

pub proof fn lemma_iterate_sound(g: Seq<Seq<u32>>, lo: int, hi: int, k: int)
    requires
        grid_wf(g),
        1 <= lo <= hi,
        0 <= k,
    ensures
        table_sound(g, lo, hi, iterate(g, lo, hi, k)),
    decreases k,
{
    if k == 0 {
        let t = init_table(g);
        assert forall|i: int|
            0 <= i < table_len(g) && #[trigger] t[i] != INF as int implies state_reached(
            g,
            lo,
            hi,
            row_of(g, i),
            col_of(g, i),
            dir_of(i),
            t[i],
        ) by {
            let p = Seq::<(int, int)>::empty();
            assert(p.take(0) =~= p);
            assert(path_ok(g, lo, hi, p) && end_r(p) == 0 && end_c(p) == 0 && path_cost(g, p)
                == 0);
        }
    } else {
        lemma_iterate_sound(g, lo, hi, k - 1);
        let t = iterate(g, lo, hi, k - 1);
        let t2 = iterate(g, lo, hi, k);
        assert forall|i: int|
            0 <= i < table_len(g) && #[trigger] t2[i] != INF as int implies state_reached(
            g,
            lo,
            hi,
            row_of(g, i),
            col_of(g, i),
            dir_of(i),
            t2[i],
        ) by {
            lemma_decode_in_b(g, i);
            lemma_best_upto_sound(g, lo, hi, t, row_of(g, i), col_of(g, i), dir_of(i), hi);
        }
    }
}

/// When the search reports a cost, a lawful path of exactly that cost
/// reaches the lower-right corner: the answer is achievable.
pub proof fn lemma_search_sound(g: Seq<Seq<u32>>, lo: int, hi: int, cost: u64)
    requires
        grid_wf(g),
        grid_small(g),
        1 <= lo <= hi,
        spec_least_heat_loss(g, lo, hi) == Some(cost),
    ensures
        achievable(g, lo, hi, cost as int),
{
    let kk = table_len(g);
    assert(0 <= kk <= 160000) by (nonlinear_arith)
        requires
            kk == 4 * g.len() * grid_cols(g),
            0 < g.len() <= 200,
            0 < grid_cols(g) <= 200,
    ;
    let t = iterate(g, lo, hi, kk);
    lemma_iterate_bounded(g, lo, hi, kk);
    lemma_iterate_sound(g, lo, hi, kk);
    let r = g.len() - 1;
    let c = grid_cols(g) - 1;
    lemma_ix_decode(g, r, c, 0);
    lemma_ix_decode(g, r, c, 1);
    lemma_ix_decode(g, r, c, 2);
    lemma_ix_decode(g, r, c, 3);
    let m = spec_heat(g, lo, hi);
    assert(m == cost as int);
    assert(t[state_ix(g, r, c, 0)] == m || t[state_ix(g, r, c, 1)] == m || t[state_ix(g, r, c, 2)]
        == m || t[state_ix(g, r, c, 3)] == m);
    if t[state_ix(g, r, c, 0)] == m {
        assert(state_reached(g, lo, hi, r, c, 0, m));
    } else if t[state_ix(g, r, c, 1)] == m {
        assert(state_reached(g, lo, hi, r, c, 1, m));
    } else if t[state_ix(g, r, c, 2)] == m {
        assert(state_reached(g, lo, hi, r, c, 2, m));
    } else {
        assert(state_reached(g, lo, hi, r, c, 3, m));
    }
}

// ---------------------------------------------------------------------------
// Parsing and the two answers
// ---------------------------------------------------------------------------

/// The digits of a line, as cell costs.
pub open spec fn spec_digit_row(s: Seq<u8>) -> Seq<u32>
    decreases s.len(),
{
    if s.len() == 0 {
        Seq::empty()
    } else if util::spec_is_digit(s.last()) {
        spec_digit_row(s.drop_last()).push((s.last() - 48) as u32)
    } else {
        spec_digit_row(s.drop_last())
    }
}

/// The parsed grid: the digit rows when every line is digits only, and
/// nothing at all otherwise — malformed input is rejected outright.
pub open spec fn spec_parse_grid(s: Seq<u8>) -> Seq<Seq<u32>> {
    let ls = util::spec_lines(s);
    if forall|i: int| 0 <= i < ls.len() ==> util::spec_all_digits(#[trigger] ls[i]) {
        ls.map_values(|line: Seq<u8>| spec_digit_row(line))
    } else {
        Seq::empty()
    }
}

pub fn digit_row(line: &Vec<u8>) -> (r: Vec<u32>)
    ensures
        r@ == spec_digit_row(line@),
{
    let mut r: Vec<u32> = Vec::new();
    let mut i: usize = 0;
    while i < line.len()
        invariant
            i <= line@.len(),
            r@ == spec_digit_row(line@.take(i as int)),
        decreases line@.len() - i,
    {
        let b = line[i];
        proof {
            assert(line@.take(i + 1).drop_last() =~= line@.take(i as int));
            assert(line@.take(i + 1).last() == line@[i as int]);
        }
        if b >= 48 && b <= 57 {
            r.push((b - 48) as u32);
        }
        i += 1;
    }
    proof {
        assert(line@.take(line@.len() as int) =~= line@);
    }
    r
}

impl Solution for Day17 {
    type ParsedInput = Vec<Vec<u32>>;

    #[verifier::loop_isolation(false)]
    fn parse_input(input_lines: &str) -> (res: Vec<Vec<u32>>)
        ensures
            res.deep_view() == spec_parse_grid(input_lines.spec_bytes()),
    {
        let bytes = input_lines.as_bytes_vec();
        let ls = util::lines(&bytes);
        let ghost lsv = ls.deep_view();
        let mut grid: Vec<Vec<u32>> = Vec::new();
        let mut i: usize = 0;
        while i < ls.len()
            invariant
                i <= ls@.len(),
                ls.deep_view() == lsv,
                grid@.len() == i,
                forall|k: int| 0 <= k < i ==> util::spec_all_digits(#[trigger] lsv[k]),
                forall|k: int| 0 <= k < i ==> #[trigger] grid.deep_view()[k] == spec_digit_row(
                    lsv[k],
                ),
            decreases ls@.len() - i,
        {
            let line = &ls[i];
            let mut k: usize = 0;
            while k < line.len()
                invariant
                    i < ls@.len(),
                    k <= line@.len(),
                    line@ == ls@[i as int]@,
                    ls.deep_view() == lsv,
                    lsv.len() == ls@.len(),
                    forall|t: int| 0 <= t < k ==> util::spec_is_digit(line@[t]),
                decreases line@.len() - k,
            {
                if line[k] < 48 || line[k] > 57 {
                    // a stray character: reject the whole input
                    proof {
                        assert(lsv[i as int] =~= line@);
                        assert(!util::spec_all_digits(lsv[i as int]));
                    }
                    let empty: Vec<Vec<u32>> = Vec::new();
                    proof {
                        assert(empty.deep_view() =~~= spec_parse_grid(input_lines.spec_bytes()));
                    }
                    return empty;
                }
                k += 1;
            }
            let row = digit_row(line);
            proof {
                assert(ls@[i as int]@ =~= lsv[i as int]);
                assert(row.deep_view() =~= row@);
            }
            let ghost gprev = grid.deep_view();
            grid.push(row);
            proof {
                assert(util::spec_all_digits(lsv[i as int]));
                assert forall|k2: int| 0 <= k2 <= i implies #[trigger] grid.deep_view()[k2]
                    == spec_digit_row(lsv[k2]) by {
                    if k2 < i {
                        assert(grid.deep_view()[k2] == gprev[k2]);
                    } else {
                        assert(grid.deep_view()[k2] == row.deep_view());
                    }
                }
            }
            i += 1;
        }
        proof {
            assert(grid.deep_view() =~~= spec_parse_grid(input_lines.spec_bytes()));
        }
        grid
    }

    fn part_one(parsed_input: &mut Vec<Vec<u32>>) -> (res: String)
        ensures
            ({
                let g = old(parsed_input).deep_view();
                &&& (grid_wf(g) && grid_small(g)) ==> (match spec_least_heat_loss(g, 1, 3) {
                    Some(c) => res@ == util::spec_u64_chars(c as int),
                    None => res@ == "no path found"@,
                })
                &&& !(grid_wf(g) && grid_small(g)) ==> res@ == "invalid input"@
            }),
    {
        let grid = parsed_input;
        if !check_grid(grid) {
            return "invalid input".to_owned();
        }
        match Day17::least_heat_loss(grid, 1, 3) {
            Some(c) => util::u64_to_string(c),
            None => "no path found".to_owned(),
        }
    }

    fn part_two(parsed_input: &mut Vec<Vec<u32>>) -> (res: String)
        ensures
            ({
                let g = old(parsed_input).deep_view();
                &&& (grid_wf(g) && grid_small(g)) ==> (match spec_least_heat_loss(g, 4, 10) {
                    Some(c) => res@ == util::spec_u64_chars(c as int),
                    None => res@ == "no path found"@,
                })
                &&& !(grid_wf(g) && grid_small(g)) ==> res@ == "invalid input"@
            }),
    {
        let grid = parsed_input;
        if !check_grid(grid) {
            return "invalid input".to_owned();
        }
        match Day17::least_heat_loss(grid, 4, 10) {
            Some(c) => util::u64_to_string(c),
            None => "no path found".to_owned(),
        }
    }
}

} // verus!
