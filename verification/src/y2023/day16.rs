use crate::util;
use crate::Solution;
use vstd::prelude::*;
use vstd::string::StrSliceExecFns;

verus! {

pub struct Day16;

/// A travelling beam: its tile and its direction of travel.
#[derive(Clone, Copy)]
pub struct Beam {
    pub r: usize,
    pub c: usize,
    pub dr: isize,
    pub dc: isize,
}

/// The four travel directions, as indices.
pub open spec fn spec_dir_ix(dr: int, dc: int) -> int {
    if dr == -1 && dc == 0 {
        0
    } else if dr == 1 && dc == 0 {
        1
    } else if dr == 0 && dc == -1 {
        2
    } else {
        3
    }
}

pub open spec fn beam_wf(b: Beam, rows: int, cols: int) -> bool {
    &&& b.r < rows
    &&& b.c < cols
    &&& ((b.dr == -1 && b.dc == 0) || (b.dr == 1 && b.dc == 0) || (b.dr == 0 && b.dc == -1) || (
    b.dr == 0 && b.dc == 1))
}

pub open spec fn grid_wf(g: Seq<Seq<u8>>, rows: int, cols: int) -> bool {
    &&& g.len() == rows
    &&& rows >= 1
    &&& cols >= 1
    &&& forall|r: int| 0 <= r < g.len() ==> #[trigger] g[r].len() == cols
}

/// The flat state index of a beam: tile, then direction.
pub open spec fn eix(cols: int, b: Beam) -> int {
    ((b.r as int) * cols + b.c) * 4 + spec_dir_ix(b.dr as int, b.dc as int)
}

pub proof fn lemma_eix(rows: int, cols: int, b: Beam)
    requires
        rows >= 1,
        cols >= 1,
        beam_wf(b, rows, cols),
    ensures
        0 <= eix(cols, b) < 4 * rows * cols,
{
    assert(0 <= ((b.r as int) * cols + b.c) * 4 + spec_dir_ix(b.dr as int, b.dc as int) && ((
    b.r as int) * cols + b.c) * 4 + spec_dir_ix(b.dr as int, b.dc as int) < 4 * rows * cols) by (
    nonlinear_arith)
        requires
            0 <= b.r as int,
            (b.r as int) < rows,
            0 <= b.c as int,
            (b.c as int) < cols,
            0 <= spec_dir_ix(b.dr as int, b.dc as int) < 4,
    ;
}

pub open spec fn state_code(cols: int, r: int, c: int, d: int) -> int {
    (r * cols + c) * 4 + d
}

pub proof fn lemma_eix_inj(rows: int, cols: int, b1: Beam, b2: Beam)
    requires
        rows >= 1,
        cols >= 1,
        beam_wf(b1, rows, cols),
        beam_wf(b2, rows, cols),
        eix(cols, b1) == eix(cols, b2),
    ensures
        b1 == b2,
{
    assert(b1.r == b2.r && b1.c == b2.c && spec_dir_ix(b1.dr as int, b1.dc as int) == spec_dir_ix(
        b2.dr as int,
        b2.dc as int,
    )) by (nonlinear_arith)
        requires
            ((b1.r as int) * cols + b1.c) * 4 + spec_dir_ix(b1.dr as int, b1.dc as int) == ((
            b2.r as int) * cols + b2.c) * 4 + spec_dir_ix(b2.dr as int, b2.dc as int),
            0 <= b1.c as int,
            (b1.c as int) < cols,
            0 <= b2.c as int,
            (b2.c as int) < cols,
            0 <= spec_dir_ix(b1.dr as int, b1.dc as int) < 4,
            0 <= spec_dir_ix(b2.dr as int, b2.dc as int) < 4,
            0 <= b1.r as int,
            0 <= b2.r as int,
    ;
}

/// Where a beam goes next, or nowhere off the grid edge.
pub open spec fn spec_move(b: Beam, rows: int, cols: int) -> Option<Beam> {
    if 0 <= b.r + b.dr && b.r + b.dr < rows && 0 <= b.c + b.dc && b.c + b.dc < cols {
        Some(
            Beam {
                r: (b.r + b.dr) as usize,
                c: (b.c + b.dc) as usize,
                dr: b.dr,
                dc: b.dc,
            },
        )
    } else {
        None
    }
}

pub open spec fn opt_seq(o: Option<Beam>) -> Seq<Beam> {
    match o {
        Some(b) => seq![b],
        None => Seq::empty(),
    }
}

/// The beams leaving a beam's tile under the optics rules: mirrors
/// reflect, splitters hit broadside split, everything else passes the
/// beam straight on; beams that would leave the grid vanish.
pub open spec fn spec_next(g: Seq<Seq<u8>>, rows: int, cols: int, b: Beam) -> Seq<Beam> {
    let tile = g[b.r as int][b.c as int];
    if tile == 47 {
        opt_seq(
            spec_move(
                Beam {
                    r: b.r,
                    c: b.c,
                    dr: (-(b.dc as int)) as isize,
                    dc: (-(b.dr as int)) as isize,
                },
                rows,
                cols,
            ),
        )
    } else if tile == 92 {
        opt_seq(spec_move(Beam { r: b.r, c: b.c, dr: b.dc, dc: b.dr }, rows, cols))
    } else if tile == 124 && b.dc != 0 {
        opt_seq(
            spec_move(Beam { r: b.r, c: b.c, dr: (-1) as isize, dc: 0 as isize }, rows, cols),
        ) + opt_seq(
            spec_move(Beam { r: b.r, c: b.c, dr: 1 as isize, dc: 0 as isize }, rows, cols),
        )
    } else if tile == 45 && b.dr != 0 {
        opt_seq(
            spec_move(Beam { r: b.r, c: b.c, dr: 0 as isize, dc: (-1) as isize }, rows, cols),
        ) + opt_seq(
            spec_move(Beam { r: b.r, c: b.c, dr: 0 as isize, dc: 1 as isize }, rows, cols),
        )
    } else {
        opt_seq(spec_move(b, rows, cols))
    }
}

pub proof fn lemma_next_wf(g: Seq<Seq<u8>>, rows: int, cols: int, b: Beam, j: int)
    requires
        beam_wf(b, rows, cols),
        0 <= j < spec_next(g, rows, cols, b).len(),
    ensures
        beam_wf(spec_next(g, rows, cols, b)[j], rows, cols),
{
}

/// A state marking closed under the optics rules: every marked state's
/// successors are marked too.
pub open spec fn closed_marking(g: Seq<Seq<u8>>, rows: int, cols: int, m: Seq<bool>) -> bool {
    forall|b: Beam, j: int|
        beam_wf(b, rows, cols) && m[#[trigger] eix(cols, b)] && 0 <= j < spec_next(
            g,
            rows,
            cols,
            b,
        ).len() ==> m[eix(cols, #[trigger] spec_next(g, rows, cols, b)[j])]
}

/// The beam states the initial beam leads to: the members of every closed
/// marking that holds the initial state.
pub open spec fn spec_reachable(g: Seq<Seq<u8>>, rows: int, cols: int, b0: Beam, b: Beam) -> bool {
    forall|m: Seq<bool>|
        m.len() == 4 * rows * cols && m[eix(cols, b0)] && #[trigger] closed_marking(
            g,
            rows,
            cols,
            m,
        ) ==> m[eix(cols, b)]
}

/// One optics step preserves reachability.
pub proof fn lemma_reach_step(g: Seq<Seq<u8>>, rows: int, cols: int, b0: Beam, p: Beam, j: int)
    requires
        beam_wf(p, rows, cols),
        spec_reachable(g, rows, cols, b0, p),
        0 <= j < spec_next(g, rows, cols, p).len(),
    ensures
        spec_reachable(g, rows, cols, b0, spec_next(g, rows, cols, p)[j]),
{
    let b = spec_next(g, rows, cols, p)[j];
    assert forall|m: Seq<bool>|
        m.len() == 4 * rows * cols && m[eix(cols, b0)] && #[trigger] closed_marking(
            g,
            rows,
            cols,
            m,
        ) implies m[eix(cols, b)] by {
        assert(m[eix(cols, p)]);
    }
}

/// What the beam walk computes: `seen` is a set of beam states that holds
/// the initial beam, is closed under the optics rules, and holds only
/// states the initial beam reaches; `tiles` lists exactly the tiles of
/// `seen`'s states.
pub open spec fn spec_energized_set(
    g: Seq<Seq<u8>>,
    rows: int,
    cols: int,
    b0: Beam,
    seen: Seq<bool>,
    tiles: Seq<(usize, usize)>,
) -> bool {
    &&& seen.len() == 4 * rows * cols
    &&& seen[eix(cols, b0)]
    &&& forall|b: Beam, j: int|
        beam_wf(b, rows, cols) && seen[#[trigger] eix(cols, b)] && 0 <= j < spec_next(
            g,
            rows,
            cols,
            b,
        ).len() ==> seen[eix(cols, #[trigger] spec_next(g, rows, cols, b)[j])]
    &&& forall|ix: int|
        0 <= ix < seen.len() && #[trigger] seen[ix] ==> exists|b: Beam|
            beam_wf(b, rows, cols) && #[trigger] eix(cols, b) == ix && spec_reachable(
                g,
                rows,
                cols,
                b0,
                b,
            )
    &&& forall|b: Beam|
        beam_wf(b, rows, cols) && seen[#[trigger] eix(cols, b)] ==> tiles.contains(
            (b.r, b.c),
        )
    &&& res_sound(cols, seen, tiles)
}

/// How many of the first `n` row-major tiles carry some marked direction.
pub open spec fn spec_vis_count(visited: Seq<bool>, n: int) -> int
    decreases n,
{
    if n <= 0 {
        0
    } else {
        spec_vis_count(visited, n - 1) + if visited[(n - 1) * 4] || visited[(n - 1) * 4 + 1]
            || visited[(n - 1) * 4 + 2] || visited[(n - 1) * 4 + 3] {
            1int
        } else {
            0
        }
    }
}

/// Whether the initial beam reaches tile `(r, c)` in some direction.
pub open spec fn spec_tile_lit(
    g: Seq<Seq<u8>>,
    rows: int,
    cols: int,
    b0: Beam,
    r: int,
    c: int,
) -> bool {
    exists|b: Beam|
        beam_wf(b, rows, cols) && b.r as int == r && b.c as int == c && spec_reachable(
            g,
            rows,
            cols,
            b0,
            b,
        )
}

/// How many of the first `n` row-major tiles the initial beam lights.
pub open spec fn spec_lit_count(g: Seq<Seq<u8>>, rows: int, cols: int, b0: Beam, n: int) -> int
    decreases n,
{
    if n <= 0 || cols <= 0 {
        0
    } else {
        spec_lit_count(g, rows, cols, b0, n - 1) + if spec_tile_lit(
            g,
            rows,
            cols,
            b0,
            (n - 1) / cols,
            (n - 1) % cols,
        ) {
            1int
        } else {
            0
        }
    }
}

/// A marking that holds the start, is closed, and holds only reachable
/// states marks, tile by tile, exactly the tiles the beam lights.
pub proof fn lemma_seen_count(
    g: Seq<Seq<u8>>,
    rows: int,
    cols: int,
    b0: Beam,
    seen: Seq<bool>,
    n: int,
)
    requires
        1 <= rows,
        1 <= cols,
        seen.len() == 4 * rows * cols,
        closed_marking(g, rows, cols, seen),
        forall|ix: int|
            0 <= ix < seen.len() && #[trigger] seen[ix] ==> exists|b: Beam|
                beam_wf(b, rows, cols) && #[trigger] eix(cols, b) == ix && spec_reachable(
                    g,
                    rows,
                    cols,
                    b0,
                    b,
                ),
        seen[eix(cols, b0)],
        0 <= n <= rows * cols,
    ensures
        spec_vis_count(seen, n) == spec_lit_count(g, rows, cols, b0, n),
    decreases n,
{
    if n > 0 {
        lemma_seen_count(g, rows, cols, b0, seen, n - 1);
        let r = (n - 1) / cols;
        let c = (n - 1) % cols;
        vstd::arithmetic::div_mod::lemma_fundamental_div_mod(n - 1, cols);
        assert(0 <= c < cols);
        assert(0 <= r && r < rows) by (nonlinear_arith)
            requires
                cols >= 1,
                rows >= 1,
                n - 1 == cols * r + c,
                0 <= c < cols,
                1 <= n <= rows * cols,
        ;
        let vis = seen[(n - 1) * 4] || seen[(n - 1) * 4 + 1] || seen[(n - 1) * 4 + 2] || seen[(n
            - 1) * 4 + 3];
        if vis {
            let d: int = if seen[(n - 1) * 4] {
                0
            } else if seen[(n - 1) * 4 + 1] {
                1
            } else if seen[(n - 1) * 4 + 2] {
                2
            } else {
                3
            };
            assert(seen[(n - 1) * 4 + d]);
            assert(0 <= (n - 1) * 4 && (n - 1) * 4 + d < 4 * rows * cols) by (nonlinear_arith)
                requires
                    1 <= n <= rows * cols,
                    0 <= d < 4,
            ;
            let b = choose|b: Beam|
                beam_wf(b, rows, cols) && #[trigger] eix(cols, b) == (n - 1) * 4 + d
                    && spec_reachable(g, rows, cols, b0, b);
            let dir = spec_dir_ix(b.dr as int, b.dc as int);
            assert(0 <= dir < 4);
            assert((b.r as int) * cols + (b.c as int) == n - 1 && dir == d) by (nonlinear_arith)
                requires
                    ((b.r as int) * cols + (b.c as int)) * 4 + dir == (n - 1) * 4 + d,
                    0 <= dir < 4,
                    0 <= d < 4,
            ;
            vstd::arithmetic::div_mod::lemma_fundamental_div_mod_converse(
                n - 1,
                cols,
                b.r as int,
                b.c as int,
            );
            assert(b.r as int == r && b.c as int == c);
            assert(spec_tile_lit(g, rows, cols, b0, r, c));
        }
        if spec_tile_lit(g, rows, cols, b0, r, c) {
            let b = choose|b: Beam|
                beam_wf(b, rows, cols) && b.r as int == r && b.c as int == c && spec_reachable(
                    g,
                    rows,
                    cols,
                    b0,
                    b,
                );
            assert(seen[eix(cols, b)]);
            let dir = spec_dir_ix(b.dr as int, b.dc as int);
            assert(0 <= dir < 4);
            assert(eix(cols, b) == (n - 1) * 4 + dir) by (nonlinear_arith)
                requires
                    eix(cols, b) == ((b.r as int) * cols + (b.c as int)) * 4 + dir,
                    (b.r as int) == r,
                    (b.c as int) == c,
                    n - 1 == cols * r + c,
            ;
            if dir == 0 {
                assert(seen[(n - 1) * 4]);
            } else if dir == 1 {
                assert(seen[(n - 1) * 4 + 1]);
            } else if dir == 2 {
                assert(seen[(n - 1) * 4 + 2]);
            } else {
                assert(seen[(n - 1) * 4 + 3]);
            }
            assert(vis);
        }
        assert(vis == spec_tile_lit(g, rows, cols, b0, r, c));
    }
}

/// Every collected tile has some walked beam direction on it.
pub open spec fn res_sound(ci: int, seen: Seq<bool>, res: Seq<(usize, usize)>) -> bool {
    forall|i2: int|
        #![trigger res[i2]]
        0 <= i2 < res.len() ==> seen[state_code(ci, res[i2].0 as int, res[i2].1 as int, 0)]
            || seen[state_code(ci, res[i2].0 as int, res[i2].1 as int, 1)] || seen[state_code(
            ci,
            res[i2].0 as int,
            res[i2].1 as int,
            2,
        )] || seen[state_code(ci, res[i2].0 as int, res[i2].1 as int, 3)]
}

pub proof fn lemma_res_sound_from_witness(
    ci: int,
    seen: Seq<bool>,
    res: Seq<(usize, usize)>,
    dv: Seq<int>,
)
    requires
        dv.len() == res.len(),
        forall|i2: int|
            0 <= i2 < res.len() ==> 0 <= #[trigger] dv[i2] < 4 && seen[state_code(
                ci,
                res[i2].0 as int,
                res[i2].1 as int,
                dv[i2],
            )],
    ensures
        res_sound(ci, seen, res),
{
    assert forall|i2: int|
        #![trigger res[i2]]
        0 <= i2 < res.len() implies seen[state_code(ci, res[i2].0 as int, res[i2].1 as int, 0)]
        || seen[state_code(ci, res[i2].0 as int, res[i2].1 as int, 1)] || seen[state_code(
        ci,
        res[i2].0 as int,
        res[i2].1 as int,
        2,
    )] || seen[state_code(ci, res[i2].0 as int, res[i2].1 as int, 3)] by {
        assert(0 <= dv[i2] < 4 && seen[state_code(
            ci,
            res[i2].0 as int,
            res[i2].1 as int,
            dv[i2],
        )]);
        if dv[i2] == 0 {
            assert(seen[state_code(ci, res[i2].0 as int, res[i2].1 as int, 0)]);
        } else if dv[i2] == 1 {
            assert(seen[state_code(ci, res[i2].0 as int, res[i2].1 as int, 1)]);
        } else if dv[i2] == 2 {
            assert(seen[state_code(ci, res[i2].0 as int, res[i2].1 as int, 2)]);
        } else {
            assert(seen[state_code(ci, res[i2].0 as int, res[i2].1 as int, 3)]);
        }
    }
}

/// Every walked tile up to the scan position has been collected.
pub open spec fn res_complete(
    ci: int,
    cols: int,
    seen: Seq<bool>,
    res: Seq<(usize, usize)>,
    upr: int,
    upc: int,
) -> bool {
    forall|rr: usize, cc: usize, d: int|
        ((rr as int) < upr || ((rr as int) == upr && (cc as int) < upc)) && (cc as int) < cols
            && 0 <= d < 4 && seen[#[trigger] state_code(ci, rr as int, cc as int, d)]
            ==> res.contains((rr, cc))
}

/// How many entries are set.
pub open spec fn count_true(s: Seq<bool>) -> int
    decreases s.len(),
{
    if s.len() == 0 {
        0
    } else {
        count_true(s.drop_last()) + if s.last() {
            1int
        } else {
            0
        }
    }
}

pub proof fn lemma_count_true_le(s: Seq<bool>)
    ensures
        0 <= count_true(s) <= s.len(),
    decreases s.len(),
{
    if s.len() > 0 {
        lemma_count_true_le(s.drop_last());
    }
}

pub proof fn lemma_count_true_lt(s: Seq<bool>, i: int)
    requires
        0 <= i < s.len(),
        !s[i],
    ensures
        count_true(s) <= s.len() - 1,
    decreases s.len(),
{
    lemma_count_true_le(s);
    if i == s.len() - 1 {
        lemma_count_true_le(s.drop_last());
    } else {
        lemma_count_true_lt(s.drop_last(), i);
    }
}

pub proof fn lemma_count_true_set(s: Seq<bool>, i: int)
    requires
        0 <= i < s.len(),
        !s[i],
    ensures
        count_true(s.update(i, true)) == count_true(s) + 1,
    decreases s.len(),
{
    if i == s.len() - 1 {
        assert(s.update(i, true).drop_last() =~= s.drop_last());
    } else {
        assert(s.update(i, true).drop_last() =~= s.drop_last().update(i, true));
        lemma_count_true_set(s.drop_last(), i);
    }
}

impl Day16 {
    /// The beam one step onward, or `None` where it leaves the grid.
    pub fn move_beam(beam: &Beam, bounds: (usize, usize)) -> (res: Option<Beam>)
        requires
            beam_wf(*beam, bounds.0 as int, bounds.1 as int),
        ensures
            res == spec_move(*beam, bounds.0 as int, bounds.1 as int),
            match res {
                Some(b2) => b2.dr == beam.dr && b2.dc == beam.dc && b2.r as int == beam.r + beam.dr
                    && b2.c as int == beam.c + beam.dc && beam_wf(
                    b2,
                    bounds.0 as int,
                    bounds.1 as int,
                ),
                None => !(0 <= beam.r + beam.dr < bounds.0 && 0 <= beam.c + beam.dc < bounds.1),
            },
    {
        if (beam.r == 0 && beam.dr < 0) || (beam.c == 0 && beam.dc < 0) || (beam.r == bounds.0 - 1
            && beam.dr > 0) || (beam.c == bounds.1 - 1 && beam.dc > 0) {
            return None;
        }
        let r = if beam.dr < 0 {
            beam.r - 1
        } else if beam.dr > 0 {
            beam.r + 1
        } else {
            beam.r
        };
        let c = if beam.dc < 0 {
            beam.c - 1
        } else if beam.dc > 0 {
            beam.c + 1
        } else {
            beam.c
        };
        Some(Beam { r, c, dr: beam.dr, dc: beam.dc })
    }

    /// The walked beam states: the initial state is marked, the marking is
    /// closed under the optics rules, and every marked state is reached
    /// from the initial beam.
    #[verifier::loop_isolation(false)]
    #[verifier::rlimit(100)]
    #[verifier::spinoff_prover]
    fn beam_walk(grid: &Vec<Vec<u8>>, initial_beam: Beam) -> (seen: Vec<bool>)
        requires
            grid_wf(grid.deep_view(), grid@.len() as int, grid@[0]@.len() as int),
            beam_wf(initial_beam, grid@.len() as int, grid@[0]@.len() as int),
            grid@.len() <= 0x4000,
            grid@[0]@.len() <= 0x4000,
        ensures
            seen@.len() == 4 * (grid@.len() as int) * (grid@[0]@.len() as int),
            seen@[eix(grid@[0]@.len() as int, initial_beam)],
            forall|b: Beam, j: int|
                beam_wf(b, grid@.len() as int, grid@[0]@.len() as int) && seen@[#[trigger] eix(
                    grid@[0]@.len() as int,
                    b,
                )] && 0 <= j < spec_next(
                    grid.deep_view(),
                    grid@.len() as int,
                    grid@[0]@.len() as int,
                    b,
                ).len() ==> seen@[eix(
                    grid@[0]@.len() as int,
                    #[trigger] spec_next(
                        grid.deep_view(),
                        grid@.len() as int,
                        grid@[0]@.len() as int,
                        b,
                    )[j],
                )],
            forall|ix: int|
                0 <= ix < seen@.len() && #[trigger] seen@[ix] ==> exists|b: Beam|
                    beam_wf(b, grid@.len() as int, grid@[0]@.len() as int) && #[trigger] eix(
                        grid@[0]@.len() as int,
                        b,
                    ) == ix && spec_reachable(
                        grid.deep_view(),
                        grid@.len() as int,
                        grid@[0]@.len() as int,
                        initial_beam,
                        b,
                    ),
    {
        let rows = grid.len();
        let cols = grid[0].len();
        let ghost g = grid.deep_view();
        let ghost ri = rows as int;
        let ghost ci = cols as int;
        let ghost b0 = initial_beam;
        proof {
            assert(g[0] =~= grid@[0].deep_view());
        }
        proof {
            assert((rows as int) * (cols as int) >= 1 && (rows as int) * (cols as int)
                <= 0x1000_0000 && (rows as int) * (cols as int) * 4 == 4 * (rows as int) * (
            cols as int)) by (nonlinear_arith)
                requires
                    rows as int >= 1,
                    cols as int >= 1,
                    rows as int <= 0x4000,
                    cols as int <= 0x4000,
            ;
        }
        let n = rows * cols * 4;
        let mut visited: Vec<bool> = Vec::new();
        let mut i: usize = 0;
        while i < n
            invariant
                i <= n,
                visited@.len() == i,
                count_true(visited@) == 0,
                forall|t: int| 0 <= t < i ==> !(#[trigger] visited@[t]),
            decreases n - i,
        {
            proof {
                assert(visited@.push(false).drop_last() =~= visited@);
            }
            visited.push(false);
            i += 1;
        }
        let mut remaining: usize = n;
        let mut beams: Vec<Beam> = Vec::new();
        proof {
            lemma_eix(ri, ci, b0);
            assert(spec_reachable(g, ri, ci, b0, b0));
        }
        beams.push(initial_beam);
        proof {
            assert(beams@[0] == b0);
            assert forall|b: Beam| beam_wf(b, ri, ci) implies !visited@[#[trigger] eix(
                ci,
                b,
            )] by {
                lemma_eix(ri, ci, b);
            }
        }
        while beams.len() > 0
            invariant
                visited@.len() == n,
                remaining as int == n - count_true(visited@),
                forall|k: int|
                    0 <= k < beams@.len() ==> beam_wf(#[trigger] beams@[k], ri, ci),
                forall|k: int|
                    0 <= k < beams@.len() ==> spec_reachable(g, ri, ci, b0, #[trigger] beams@[k]),
                visited@[eix(ci, b0)] || exists|k: int| 0 <= k < beams@.len() && beams@[k] == b0,
                forall|ix: int|
                    0 <= ix < n && #[trigger] visited@[ix] ==> exists|b: Beam|
                        beam_wf(b, ri, ci) && #[trigger] eix(ci, b) == ix && spec_reachable(
                            g,
                            ri,
                            ci,
                            b0,
                            b,
                        ),
                forall|b: Beam, j: int|
                    beam_wf(b, ri, ci) && visited@[#[trigger] eix(ci, b)] && 0 <= j < spec_next(
                        g,
                        ri,
                        ci,
                        b,
                    ).len() ==> visited@[eix(ci, #[trigger] spec_next(g, ri, ci, b)[j])] || exists|
                        k: int,
                    | 0 <= k < beams@.len() && beams@[k] == spec_next(g, ri, ci, b)[j],
            decreases remaining, beams@.len(),
        {
            let ghost qpre = beams@;
            let beam = beams.pop().unwrap();
            proof {
                assert(beam == qpre[qpre.len() - 1]);
                lemma_eix(ri, ci, beam);
            }
            let di = if beam.dr == -1 && beam.dc == 0 {
                0
            } else if beam.dr == 1 && beam.dc == 0 {
                1
            } else if beam.dr == 0 && beam.dc == -1 {
                2
            } else {
                3
            };
            proof {
                assert(((beam.r as int) * (cols as int) + beam.c) * 4 + di < n && 0 <= (
                (beam.r as int) * (cols as int) + beam.c) * 4 + di) by (nonlinear_arith)
                    requires
                        beam.r as int >= 0,
                        (beam.r as int) < (rows as int),
                        beam.c as int >= 0,
                        (beam.c as int) < (cols as int),
                        0 <= di < 4,
                        n == (rows as int) * (cols as int) * 4,
                ;
                assert(di == spec_dir_ix(beam.dr as int, beam.dc as int));
            }
            let vi = (beam.r * cols + beam.c) * 4 + di;
            proof {
                assert(vi as int == eix(ci, beam));
            }
            if visited[vi] {
                proof {
                    // the popped beam's state is already seen, so dropping
                    // it keeps every queued-successor witness
                    assert forall|b: Beam, j: int|
                        beam_wf(b, ri, ci) && visited@[#[trigger] eix(ci, b)] && 0 <= j
                            < spec_next(g, ri, ci, b).len() implies visited@[eix(
                        ci,
                        #[trigger] spec_next(g, ri, ci, b)[j],
                    )] || exists|k: int|
                        0 <= k < beams@.len() && beams@[k] == spec_next(g, ri, ci, b)[j] by {
                        let s2 = spec_next(g, ri, ci, b)[j];
                        if !visited@[eix(ci, s2)] {
                            let k = choose|k: int| 0 <= k < qpre.len() && qpre[k] == s2;
                            if k < qpre.len() - 1 {
                                assert(beams@[k] == s2);
                            } else {
                                assert(s2 == beam);
                            }
                        }
                    }
                    if !visited@[eix(ci, b0)] {
                        let k = choose|k: int| 0 <= k < qpre.len() && qpre[k] == b0;
                        if k < qpre.len() - 1 {
                            assert(beams@[k] == b0);
                        } else {
                            assert(b0 == beam);
                        }
                    }
                }
                continue ;
            }
            proof {
                lemma_count_true_lt(visited@, vi as int);
                lemma_count_true_set(visited@, vi as int);
                assert(g[beam.r as int] =~= grid@[beam.r as int].deep_view());
                assert(grid@[beam.r as int].deep_view().len() == grid@[beam.r as int]@.len());
                assert(grid@[beam.r as int]@.len() == ci);
            }
            let ghost vpre = visited@;
            visited.set(vi, true);
            remaining = remaining - 1;
            let ghost succ = spec_next(g, ri, ci, beam);
            proof {
                assert(spec_reachable(g, ri, ci, b0, qpre[qpre.len() - 1]));
            }
            let tile = grid[beam.r][beam.c];
            let bounds = (rows, cols);
            let ghost qbase = beams@;
            if tile == 47 {
                // '/': reflect
                let nb = Beam { r: beam.r, c: beam.c, dr: -beam.dc, dc: -beam.dr };
                match Day16::move_beam(&nb, bounds) {
                    Some(b2) => {
                        proof {
                            assert(succ =~= seq![b2]);
                        }
                        beams.push(b2);
                    },
                    None => {
                        proof {
                            assert(succ =~= Seq::<Beam>::empty());
                        }
                    },
                }
            } else if tile == 92 {
                // '\': reflect the other way
                let nb = Beam { r: beam.r, c: beam.c, dr: beam.dc, dc: beam.dr };
                match Day16::move_beam(&nb, bounds) {
                    Some(b2) => {
                        proof {
                            assert(succ =~= seq![b2]);
                        }
                        beams.push(b2);
                    },
                    None => {
                        proof {
                            assert(succ =~= Seq::<Beam>::empty());
                        }
                    },
                }
            } else if tile == 124 && beam.dc != 0 {
                // '|' hit sideways: split up and down
                let a = Beam { r: beam.r, c: beam.c, dr: -1, dc: 0 };
                let b = Beam { r: beam.r, c: beam.c, dr: 1, dc: 0 };
                let ra = Day16::move_beam(&a, bounds);
                let rb = Day16::move_beam(&b, bounds);
                proof {
                    assert(succ =~= opt_seq(spec_move(a, ri, ci)) + opt_seq(
                        spec_move(b, ri, ci),
                    ));
                }
                match ra {
                    Some(b2) => beams.push(b2),
                    None => {},
                }
                match rb {
                    Some(b2) => beams.push(b2),
                    None => {},
                }
                proof {
                    assert(beams@ =~= qbase + succ);
                }
            } else if tile == 45 && beam.dr != 0 {
                // '-' hit vertically: split left and right
                let a = Beam { r: beam.r, c: beam.c, dr: 0, dc: -1 };
                let b = Beam { r: beam.r, c: beam.c, dr: 0, dc: 1 };
                let ra = Day16::move_beam(&a, bounds);
                let rb = Day16::move_beam(&b, bounds);
                proof {
                    assert(succ =~= opt_seq(spec_move(a, ri, ci)) + opt_seq(
                        spec_move(b, ri, ci),
                    ));
                }
                match ra {
                    Some(b2) => beams.push(b2),
                    None => {},
                }
                match rb {
                    Some(b2) => beams.push(b2),
                    None => {},
                }
                proof {
                    assert(beams@ =~= qbase + succ);
                }
            } else {
                // empty space, or a splitter hit end-on
                match Day16::move_beam(&beam, bounds) {
                    Some(b2) => {
                        proof {
                            assert(succ =~= seq![b2]);
                        }
                        beams.push(b2);
                    },
                    None => {
                        proof {
                            assert(succ =~= Seq::<Beam>::empty());
                        }
                    },
                }
                proof {
                    assert(beams@ =~= qbase + succ);
                }
            }
            proof {
                // after the branch the queue is the old queue plus exactly
                // the processed beam's successors
                assert(qbase == qpre.drop_last());
                assert forall|k: int|
                    0 <= k < beams@.len() implies beam_wf(#[trigger] beams@[k], ri, ci)
                    && spec_reachable(g, ri, ci, b0, beams@[k]) by {
                    if k < qbase.len() {
                        assert(beams@[k] == qpre[k]);
                    } else {
                        let j = k - qbase.len();
                        assert(beams@[k] == succ[j]);
                        lemma_next_wf(g, ri, ci, beam, j);
                        lemma_reach_step(g, ri, ci, b0, beam, j);
                    }
                }
                // the closure bookkeeping survives the marking and pushes
                assert forall|b: Beam, j: int|
                    beam_wf(b, ri, ci) && visited@[#[trigger] eix(ci, b)] && 0 <= j < spec_next(
                        g,
                        ri,
                        ci,
                        b,
                    ).len() implies visited@[eix(ci, #[trigger] spec_next(g, ri, ci, b)[j])]
                    || exists|k: int|
                    0 <= k < beams@.len() && beams@[k] == spec_next(g, ri, ci, b)[j] by {
                    let s2 = spec_next(g, ri, ci, b)[j];
                    lemma_eix(ri, ci, b);
                    lemma_next_wf(g, ri, ci, b, j);
                    lemma_eix(ri, ci, s2);
                    if eix(ci, b) == vi as int {
                        lemma_eix_inj(ri, ci, b, beam);
                        assert(s2 == succ[j]);
                        assert(beams@[qbase.len() + j] == succ[j]);
                    } else {
                        assert(vpre[eix(ci, b)]);
                        if !vpre[eix(ci, s2)] && !visited@[eix(ci, s2)] {
                            let k = choose|k: int| 0 <= k < qpre.len() && qpre[k] == s2;
                            if k < qpre.len() - 1 {
                                assert(beams@[k] == qpre[k]);
                                assert(beams@[k] == s2);
                            } else {
                                assert(s2 == beam);
                                assert(visited@[vi as int]);
                            }
                        }
                    }
                }
                // the start state is marked or still queued
                if !visited@[eix(ci, b0)] {
                    assert(!vpre[eix(ci, b0)]);
                    let k = choose|k: int| 0 <= k < qpre.len() && qpre[k] == b0;
                    if k < qpre.len() - 1 {
                        assert(beams@[k] == qpre[k]);
                        assert(beams@[k] == b0);
                    } else {
                        assert(b0 == beam);
                        assert(visited@[vi as int]);
                    }
                }
            }
        }
        visited
    }

    /// The tiles the beam energizes: exactly the tiles of a beam-state set
    /// that holds the initial beam, is closed under the optics rules, and
    /// holds only states the initial beam reaches.
    #[verifier::loop_isolation(false)]
    #[verifier::rlimit(100)]
    #[verifier::spinoff_prover]
    pub fn energized_tiles(grid: &Vec<Vec<u8>>, initial_beam: Beam) -> (res: Vec<(usize, usize)>)
        requires
            grid_wf(grid.deep_view(), grid@.len() as int, grid@[0]@.len() as int),
            beam_wf(initial_beam, grid@.len() as int, grid@[0]@.len() as int),
            grid@.len() <= 0x4000,
            grid@[0]@.len() <= 0x4000,
        ensures
            forall|i: int, j: int| 0 <= i < j < res@.len() ==> res@[i] != res@[j],
            forall|i: int|
                0 <= i < res@.len() ==> (#[trigger] res@[i]).0 < grid@.len() && res@[i].1
                    < grid@[0]@.len(),
            exists|seen: Seq<bool>|
                spec_energized_set(
                    grid.deep_view(),
                    grid@.len() as int,
                    grid@[0]@.len() as int,
                    initial_beam,
                    seen,
                    res@,
                ),
            res@.len() == spec_lit_count(
                grid.deep_view(),
                grid@.len() as int,
                grid@[0]@.len() as int,
                initial_beam,
                (grid@.len() as int) * (grid@[0]@.len() as int),
            ),
    {
        let rows = grid.len();
        let cols = grid[0].len();
        let ghost g = grid.deep_view();
        let ghost ri = rows as int;
        let ghost ci = cols as int;
        let ghost b0 = initial_beam;
        proof {
            assert(g[0] =~= grid@[0].deep_view());
            assert((rows as int) * (cols as int) * 4 == 4 * (rows as int) * (cols as int) && (
            rows as int) * (cols as int) * 4 <= 0x4000_0000) by (nonlinear_arith)
                requires
                    rows as int >= 1,
                    cols as int >= 1,
                    rows as int <= 0x4000,
                    cols as int <= 0x4000,
            ;
        }
        let visited = Day16::beam_walk(grid, initial_beam);
        let res = Day16::collect_tiles(&visited, rows, cols);
        proof {
            assert forall|b: Beam|
                beam_wf(b, ri, ci) && visited@[#[trigger] eix(ci, b)] implies res@.contains(
                (b.r, b.c),
            ) by {
                assert(eix(ci, b) == state_code(
                    ci,
                    b.r as int,
                    b.c as int,
                    spec_dir_ix(b.dr as int, b.dc as int),
                ));
            }
            assert(spec_energized_set(g, ri, ci, b0, visited@, res@));
            assert(closed_marking(g, ri, ci, visited@));
            lemma_seen_count(g, ri, ci, b0, visited@, ri * ci);
        }
        res
    }

    /// The distinct, row-major tiles that some walked direction marks.
    #[verifier::loop_isolation(false)]
    #[verifier::rlimit(100)]
    #[verifier::spinoff_prover]
    fn collect_tiles(visited: &Vec<bool>, rows: usize, cols: usize) -> (res: Vec<(usize, usize)>)
        requires
            rows >= 1,
            cols >= 1,
            rows <= 0x4000,
            cols <= 0x4000,
            visited@.len() == 4 * (rows as int) * (cols as int),
        ensures
            forall|i: int, j: int| 0 <= i < j < res@.len() ==> res@[i] != res@[j],
            forall|i: int|
                0 <= i < res@.len() ==> (#[trigger] res@[i]).0 < rows && res@[i].1 < cols,
            res_sound(cols as int, visited@, res@),
            res_complete(cols as int, cols as int, visited@, res@, rows as int, 0),
            res@.len() == spec_vis_count(visited@, (rows as int) * (cols as int)),
    {
        let ghost ci = cols as int;
        proof {
            assert((rows as int) * (cols as int) * 4 == 4 * (rows as int) * (cols as int) && (
            rows as int) * (cols as int) * 4 <= 0x4000_0000) by (nonlinear_arith)
                requires
                    rows as int >= 1,
                    cols as int >= 1,
                    rows as int <= 0x4000,
                    cols as int <= 0x4000,
            ;
        }
        let n = rows * cols * 4;
        // collect the tiles any direction reached, remembering for each a
        // direction that marks it
        let ghost mut dvec: Seq<int> = Seq::empty();
        let mut res: Vec<(usize, usize)> = Vec::new();
        let mut r: usize = 0;
        while r < rows
            invariant
                r <= rows,
                visited@.len() == n,
                forall|i2: int, j2: int| 0 <= i2 < j2 < res@.len() ==> res@[i2] != res@[j2],
                forall|i2: int|
                    0 <= i2 < res@.len() ==> (#[trigger] res@[i2]).0 < rows && res@[i2].1 < cols,
                forall|i2: int| 0 <= i2 < res@.len() ==> (#[trigger] res@[i2]).0 < r,
                forall|i2: int, j2: int|
                    0 <= i2 < j2 < res@.len() ==> (#[trigger] res@[i2]).0 < (#[trigger] res@[j2]).0
                        || (res@[i2].0 == res@[j2].0 && res@[i2].1 < res@[j2].1),
                dvec.len() == res@.len(),
                forall|i2: int|
                    0 <= i2 < res@.len() ==> 0 <= #[trigger] dvec[i2] < 4 && visited@[state_code(
                        ci,
                        res@[i2].0 as int,
                        res@[i2].1 as int,
                        dvec[i2],
                    )],
                res_complete(ci, ci, visited@, res@, r as int, 0),
                res@.len() == spec_vis_count(visited@, (r as int) * ci),
            decreases rows - r,
        {
            let mut c: usize = 0;
            while c < cols
                invariant
                    r < rows,
                    c <= cols,
                    visited@.len() == n,
                    forall|i2: int, j2: int| 0 <= i2 < j2 < res@.len() ==> res@[i2] != res@[j2],
                    forall|i2: int|
                        0 <= i2 < res@.len() ==> (#[trigger] res@[i2]).0 < rows && res@[i2].1
                            < cols,
                    forall|i2: int|
                        0 <= i2 < res@.len() ==> (#[trigger] res@[i2]).0 < r || (res@[i2].0 == r
                            && res@[i2].1 < c),
                    forall|i2: int, j2: int|
                        0 <= i2 < j2 < res@.len() ==> (#[trigger] res@[i2]).0
                            < (#[trigger] res@[j2]).0 || (res@[i2].0 == res@[j2].0 && res@[i2].1
                            < res@[j2].1),
                    dvec.len() == res@.len(),
                    forall|i2: int|
                        0 <= i2 < res@.len() ==> 0 <= #[trigger] dvec[i2] < 4 && visited@[
                        state_code(ci, res@[i2].0 as int, res@[i2].1 as int, dvec[i2])],
                    res_complete(ci, ci, visited@, res@, r as int, c as int),
                    res@.len() == spec_vis_count(visited@, (r as int) * ci + c as int),
                decreases cols - c,
            {
                proof {
                    assert(((r as int) * (cols as int) + c) * 4 + 3 < n && 0 <= ((r as int) * (
                    cols as int) + c) * 4) by (nonlinear_arith)
                        requires
                            r as int >= 0,
                            (r as int) < (rows as int),
                            c as int >= 0,
                            (c as int) < (cols as int),
                            n == (rows as int) * (cols as int) * 4,
                    ;
                }
                let base = (r * cols + c) * 4;
                let ghost rpre = res@;
                let mut pushed = false;
                if visited[base] || visited[base + 1] || visited[base + 2] || visited[base + 3] {
                    let ghost dwit: int = if visited@[base as int] {
                        0
                    } else if visited@[base + 1] {
                        1
                    } else if visited@[base + 2] {
                        2
                    } else {
                        3
                    };
                    proof {
                        assert(visited@[state_code(ci, r as int, c as int, dwit)]);
                    }
                    res.push((r, c));
                    pushed = true;
                    proof {
                        let dpre = dvec;
                        dvec = dvec.push(dwit);
                        assert(res@[res@.len() - 1] == (r, c));
                        assert forall|i2: int|
                            0 <= i2 < res@.len() implies 0 <= #[trigger] dvec[i2] < 4 && visited@[
                        state_code(ci, res@[i2].0 as int, res@[i2].1 as int, dvec[i2])] by {
                            if i2 < res@.len() - 1 {
                                assert(res@[i2] == rpre[i2]);
                                assert(dvec[i2] == dpre[i2]);
                            } else {
                                assert(dvec[i2] == dwit);
                            }
                        }
                    }
                }
                proof {
                    assert forall|rr: usize, cc: usize, d: int|
                        ((rr as int) < r as int || ((rr as int) == r as int && (cc as int) < c
                            + 1)) && (cc as int) < ci && 0 <= d < 4 && visited@[
                    #[trigger] state_code(ci, rr as int, cc as int, d)] implies res@.contains(
                        (rr, cc),
                    ) by {
                        if (rr as int) == r as int && (cc as int) == c as int {
                            if pushed {
                                assert(res@[res@.len() - 1] == (r, c));
                                assert(res@.contains((rr, cc)));
                            } else {
                                assert(state_code(ci, r as int, c as int, d) == base + d);
                                assert(false);
                            }
                        } else {
                            assert(rpre.contains((rr, cc)));
                            let ix = choose|ix: int|
                                0 <= ix < rpre.len() && rpre[ix] == (rr, cc);
                            assert(res@[ix] == (rr, cc));
                            assert(res@.contains((rr, cc)));
                        }
                    }
                    assert(res_complete(ci, ci, visited@, res@, r as int, c + 1));
                    assert(res@.len() == spec_vis_count(
                        visited@,
                        (r as int) * ci + c as int + 1,
                    ));
                }
                c += 1;
            }
            proof {
                assert forall|rr: usize, cc: usize, d: int|
                    ((rr as int) < r + 1 || ((rr as int) == r + 1 && (cc as int) < 0)) && (
                cc as int) < ci && 0 <= d < 4 && visited@[#[trigger] state_code(
                    ci,
                    rr as int,
                    cc as int,
                    d,
                )] implies res@.contains((rr, cc)) by {
                    assert((rr as int) < r as int || ((rr as int) == r as int && (cc as int)
                        < ci));
                }
                assert(res_complete(ci, ci, visited@, res@, r as int + 1, 0));
                assert((r as int) * ci + ci == (r as int + 1) * ci) by (nonlinear_arith);
            }
            r += 1;
        }
        proof {
            lemma_res_sound_from_witness(ci, visited@, res@, dvec);
        }
        res
    }
}

/// A rectangular, nonempty grid no larger than the solver's index
/// arithmetic allows.
pub fn check_grid16(grid: &Vec<Vec<u8>>) -> (r: bool)
    ensures
        r == (grid@.len() >= 1 && grid@[0]@.len() >= 1 && grid@.len() <= 0x4000
            && grid@[0]@.len() <= 0x4000 && grid_wf(
            grid.deep_view(),
            grid@.len() as int,
            grid@[0]@.len() as int,
        )),
{
    let ghost g = grid.deep_view();
    if grid.len() == 0 || grid.len() > 0x4000 {
        return false;
    }
    let cols = grid[0].len();
    if cols == 0 || cols > 0x4000 {
        return false;
    }
    let mut r: usize = 0;
    while r < grid.len()
        invariant
            r <= grid@.len(),
            g == grid.deep_view(),
            cols == grid@[0]@.len(),
            forall|i: int| 0 <= i < r ==> #[trigger] g[i].len() == cols,
        decreases grid@.len() - r,
    {
        proof {
            assert(g[r as int] =~= grid@[r as int].deep_view());
        }
        if grid[r].len() != cols {
            return false;
        }
        r += 1;
    }
    proof {
        assert(g[0] =~= grid@[0].deep_view());
    }
    true
}

/// How many tiles a beam entering at `b0` lights.
pub open spec fn spec_count16(g: Seq<Seq<u8>>, rows: int, cols: int, b0: Beam) -> int {
    spec_lit_count(g, rows, cols, b0, rows * cols)
}

/// The best lit-tile count over starts on the left and right edges of the
/// first `i` rows.
pub open spec fn spec_best_rows(g: Seq<Seq<u8>>, rows: int, cols: int, i: int) -> int
    decreases i,
{
    if i <= 0 {
        0
    } else {
        let p = spec_best_rows(g, rows, cols, i - 1);
        let a = spec_count16(g, rows, cols, Beam { r: (i - 1) as usize, c: 0, dr: 0, dc: 1 });
        let m1 = if a > p {
            a
        } else {
            p
        };
        let b = spec_count16(
            g,
            rows,
            cols,
            Beam { r: (i - 1) as usize, c: (cols - 1) as usize, dr: 0, dc: (-1) as isize },
        );
        if b > m1 {
            b
        } else {
            m1
        }
    }
}

/// The best over `acc` and starts on the top and bottom edges of the
/// first `i` columns.
pub open spec fn spec_best_cols(g: Seq<Seq<u8>>, rows: int, cols: int, acc: int, i: int) -> int
    decreases i,
{
    if i <= 0 {
        acc
    } else {
        let p = spec_best_cols(g, rows, cols, acc, i - 1);
        let a = spec_count16(g, rows, cols, Beam { r: 0, c: (i - 1) as usize, dr: 1, dc: 0 });
        let m1 = if a > p {
            a
        } else {
            p
        };
        let b = spec_count16(
            g,
            rows,
            cols,
            Beam { r: (rows - 1) as usize, c: (i - 1) as usize, dr: (-1) as isize, dc: 0 },
        );
        if b > m1 {
            b
        } else {
            m1
        }
    }
}

impl Solution for Day16 {
    type ParsedInput = Vec<Vec<u8>>;

    fn parse_input(input_lines: &str) -> Vec<Vec<u8>> {
        let bytes = input_lines.as_bytes_vec();
        util::lines(&bytes)
    }

    fn part_one(parsed_input: &mut Vec<Vec<u8>>) -> (res: String)
        ensures
            ({
                let gv = old(parsed_input);
                let ok = gv@.len() >= 1 && gv@[0]@.len() >= 1 && gv@.len() <= 0x4000
                    && gv@[0]@.len() <= 0x4000 && grid_wf(
                    gv.deep_view(),
                    gv@.len() as int,
                    gv@[0]@.len() as int,
                );
                &&& ok ==> res@ == util::spec_u64_chars(
                    spec_count16(
                        gv.deep_view(),
                        gv@.len() as int,
                        gv@[0]@.len() as int,
                        Beam { r: 0, c: 0, dr: 0, dc: 1 },
                    ),
                )
                &&& ok ==> exists|seen: Seq<bool>, tiles: Seq<(usize, usize)>|
                    spec_energized_set(
                        gv.deep_view(),
                        gv@.len() as int,
                        gv@[0]@.len() as int,
                        Beam { r: 0, c: 0, dr: 0, dc: 1 },
                        seen,
                        tiles,
                    ) && res@ == util::spec_u64_chars(tiles.len() as int)
                &&& !ok ==> res@ == "0"@
            }),
    {
        let grid = parsed_input;
        if !check_grid16(grid) {
            return "0".to_owned();
        }
        let start = Beam { r: 0, c: 0, dr: 0, dc: 1 };
        let tiles = Day16::energized_tiles(grid, start);
        util::usize_to_string(tiles.len())
    }

    fn part_two(parsed_input: &mut Vec<Vec<u8>>) -> (res: String)
        ensures
            ({
                let gv = old(parsed_input);
                let ok = gv@.len() >= 1 && gv@[0]@.len() >= 1 && gv@.len() <= 0x4000
                    && gv@[0]@.len() <= 0x4000 && grid_wf(
                    gv.deep_view(),
                    gv@.len() as int,
                    gv@[0]@.len() as int,
                );
                &&& ok ==> res@ == util::spec_u64_chars(
                    spec_best_cols(
                        gv.deep_view(),
                        gv@.len() as int,
                        gv@[0]@.len() as int,
                        spec_best_rows(
                            gv.deep_view(),
                            gv@.len() as int,
                            gv@[0]@.len() as int,
                            gv@.len() as int,
                        ),
                        gv@[0]@.len() as int,
                    ),
                )
                &&& !ok ==> res@ == "0"@
            }),
    {
        let grid = parsed_input;
        if !check_grid16(grid) {
            return "0".to_owned();
        }
        let rows = grid.len();
        let cols = grid[0].len();
        let ghost g = grid.deep_view();
        let mut best: usize = 0;
        let mut r: usize = 0;
        while r < rows
            invariant
                rows == grid@.len(),
                cols == grid@[0]@.len(),
                grid@ == old(parsed_input)@,
                g == grid.deep_view(),
                1 <= rows && 1 <= cols,
                rows <= 0x4000 && cols <= 0x4000,
                grid_wf(grid.deep_view(), rows as int, cols as int),
                r <= rows,
                best as int == spec_best_rows(g, rows as int, cols as int, r as int),
            decreases rows - r,
        {
            let a = Day16::energized_tiles(grid, Beam { r, c: 0, dr: 0, dc: 1 }).len();
            if a > best {
                best = a;
            }
            let b = Day16::energized_tiles(grid, Beam { r, c: cols - 1, dr: 0, dc: -1 }).len();
            if b > best {
                best = b;
            }
            r += 1;
        }
        let mut c: usize = 0;
        while c < cols
            invariant
                rows == grid@.len(),
                cols == grid@[0]@.len(),
                grid@ == old(parsed_input)@,
                g == grid.deep_view(),
                1 <= rows && 1 <= cols,
                rows <= 0x4000 && cols <= 0x4000,
                grid_wf(grid.deep_view(), rows as int, cols as int),
                c <= cols,
                best as int == spec_best_cols(
                    g,
                    rows as int,
                    cols as int,
                    spec_best_rows(g, rows as int, cols as int, rows as int),
                    c as int,
                ),
            decreases cols - c,
        {
            let a = Day16::energized_tiles(grid, Beam { r: 0, c, dr: 1, dc: 0 }).len();
            if a > best {
                best = a;
            }
            let b = Day16::energized_tiles(grid, Beam { r: rows - 1, c, dr: -1, dc: 0 }).len();
            if b > best {
                best = b;
            }
            c += 1;
        }
        util::usize_to_string(best)
    }
}

} // verus!
