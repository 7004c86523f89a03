use crate::util;
use crate::y2023::day14::lemma_cell_ix;
use crate::y2023::day16::count_true;
use crate::y2023::day16::lemma_count_true_le;
use crate::y2023::day16::lemma_count_true_lt;
use crate::y2023::day16::lemma_count_true_set;
use crate::Solution;
use vstd::prelude::*;
use vstd::string::StrSliceExecFns;

verus! {

pub struct Day06;

pub open spec fn dims_ok06(rows: int, cols: int) -> bool {
    1 <= rows <= 0x2000 && 1 <= cols <= 0x2000
}

/// The guard's facing, by index: up, right, down, left.
pub open spec fn spec_turn_right(d: int) -> int {
    if d == 3 {
        0
    } else {
        d + 1
    }
}

/// One tick of the guard: a step forward, a right turn at an obstacle, or
/// departure from the grid (`None`).
pub open spec fn guard_step(
    cells: Seq<u8>,
    rows: int,
    cols: int,
    r: int,
    c: int,
    d: int,
    obstacle: Option<(usize, usize)>,
) -> Option<(int, int, int)> {
    let dr_neg = d == 0;
    let dc_pos = d == 1;
    let dr_pos = d == 2;
    let dc_neg = d == 3;
    if (dr_neg && r == 0) || (dc_neg && c == 0) || (dr_pos && r == rows - 1) || (dc_pos && c
        == cols - 1) {
        None
    } else {
        let nr = if dr_neg {
            r - 1
        } else if dr_pos {
            r + 1
        } else {
            r
        };
        let nc = if dc_neg {
            c - 1
        } else if dc_pos {
            c + 1
        } else {
            c
        };
        let blocked = cells[nr * cols + nc] == 35 || (match obstacle {
            Some(o) => o.0 == nr && o.1 == nc,
            None => false,
        });
        if blocked {
            Some((r, c, spec_turn_right(d)))
        } else {
            Some((nr, nc, d))
        }
    }
}

/// The guard's walk, tick by tick: whether she falls into a loop, and the
/// tiles she stood on. One fuel unit per fresh (position, facing) state.
pub open spec fn spec_walk(
    cells: Seq<u8>,
    rows: int,
    cols: int,
    r: int,
    c: int,
    d: int,
    obstacle: Option<(usize, usize)>,
    seen: Seq<bool>,
    stood: Seq<bool>,
    fuel: int,
) -> (bool, Seq<bool>)
    decreases fuel,
{
    if fuel <= 0 {
        (false, stood)
    } else {
        let si = (r * cols + c) * 4 + d;
        if seen[si] {
            (true, stood)
        } else {
            let seen2 = seen.update(si, true);
            let stood2 = stood.update(r * cols + c, true);
            match guard_step(cells, rows, cols, r, c, d, obstacle) {
                None => (false, stood2),
                Some(s2) => spec_walk(
                    cells,
                    rows,
                    cols,
                    s2.0,
                    s2.1,
                    s2.2,
                    obstacle,
                    seen2,
                    stood2,
                    fuel - 1,
                ),
            }
        }
    }
}

/// The walk from a start state on fresh markings, with fuel for every
/// state.
pub open spec fn spec_walk_from(
    cells: Seq<u8>,
    rows: int,
    cols: int,
    start: (usize, usize, usize),
    obstacle: Option<(usize, usize)>,
) -> (bool, Seq<bool>) {
    spec_walk(
        cells,
        rows,
        cols,
        start.0 as int,
        start.1 as int,
        start.2 as int,
        obstacle,
        Seq::new((4 * rows * cols) as nat, |i: int| false),
        Seq::new((rows * cols) as nat, |i: int| false),
        4 * rows * cols + 1,
    )
}

/// Whether obstructing this tile of the plain walk traps the guard.
pub open spec fn spec_loop_cell(
    cells: Seq<u8>,
    rows: int,
    cols: int,
    start: (usize, usize, usize),
    stood: Seq<bool>,
    r: int,
    c: int,
) -> bool {
    stood[r * cols + c] && !(start.0 == r && start.1 == c) && spec_walk_from(
        cells,
        rows,
        cols,
        start,
        Some((r as usize, c as usize)),
    ).0
}

/// How many single obstructions among the tiles before `(r, c)` in
/// row-major order trap the guard.
pub open spec fn spec_loop_cells(
    cells: Seq<u8>,
    rows: int,
    cols: int,
    start: (usize, usize, usize),
    stood: Seq<bool>,
    r: int,
    c: int,
) -> int
    decreases r, c,
{
    if c > 0 {
        spec_loop_cells(cells, rows, cols, start, stood, r, c - 1) + if spec_loop_cell(
            cells,
            rows,
            cols,
            start,
            stood,
            r,
            c - 1,
        ) {
            1int
        } else {
            0
        }
    } else if r > 0 {
        spec_loop_cells(cells, rows, cols, start, stood, r - 1, cols)
    } else {
        0
    }
}

/// The first guard marker, scanning one row from column `c`.
pub open spec fn fs_cell(cells: Seq<u8>, rows: int, cols: int, r: int, c: int) -> Option<
    (usize, usize, usize),
>
    decreases cols - c,
{
    if c < 0 || c >= cols {
        None
    } else {
        let b = cells[r * cols + c];
        if b == 94 {
            Some((r as usize, c as usize, 0))
        } else if b == 62 {
            Some((r as usize, c as usize, 1))
        } else if b == 118 {
            Some((r as usize, c as usize, 2))
        } else if b == 60 {
            Some((r as usize, c as usize, 3))
        } else {
            fs_cell(cells, rows, cols, r, c + 1)
        }
    }
}

/// The first guard marker of the grid, in row-major order.
pub open spec fn fs_row(cells: Seq<u8>, rows: int, cols: int, r: int) -> Option<
    (usize, usize, usize),
>
    decreases rows - r,
{
    if r < 0 || r >= rows {
        None
    } else {
        match fs_cell(cells, rows, cols, r, 0) {
            Some(st) => Some(st),
            None => fs_row(cells, rows, cols, r + 1),
        }
    }
}

impl Day06 {
    /// Where the guard stands, and the direction her marker points: the
    /// first marker in row-major order.
    #[verifier::loop_isolation(false)]
    pub fn find_start(cells: &Vec<u8>, rows: usize, cols: usize) -> (r: Option<
        (usize, usize, usize),
    >)
        requires
            dims_ok06(rows as int, cols as int),
            cells@.len() == rows * cols,
        ensures
            r == fs_row(cells@, rows as int, cols as int, 0),
            match r {
                Some(p) => p.0 < rows && p.1 < cols && p.2 < 4,
                None => true,
            },
    {
        let mut r: usize = 0;
        while r < rows
            invariant
                r <= rows,
                fs_row(cells@, rows as int, cols as int, r as int) == fs_row(
                    cells@,
                    rows as int,
                    cols as int,
                    0,
                ),
            decreases rows - r,
        {
            let mut c: usize = 0;
            while c < cols
                invariant
                    r < rows,
                    c <= cols,
                    fs_cell(cells@, rows as int, cols as int, r as int, c as int) == fs_cell(
                        cells@,
                        rows as int,
                        cols as int,
                        r as int,
                        0,
                    ),
                decreases cols - c,
            {
                proof {
                    lemma_cell_ix(rows as int, cols as int, r as int, c as int);
                }
                let b = cells[r * cols + c];
                if b == 94 {
                    return Some((r, c, 0));
                } else if b == 62 {
                    return Some((r, c, 1));
                } else if b == 118 {
                    return Some((r, c, 2));
                } else if b == 60 {
                    return Some((r, c, 3));
                }
                c += 1;
            }
            r += 1;
        }
        None
    }

    /// The next facing after an obstacle: a right turn.
    pub fn turn_right(d: usize) -> (r: usize)
        requires
            d < 4,
        ensures
            r < 4,
            r as int == spec_turn_right(d as int),
    {
        if d == 3 {
            0
        } else {
            d + 1
        }
    }

    /// Walks the guard until she leaves the grid or repeats a state;
    /// whether she looped, and the tiles she stood on.
    #[verifier::loop_isolation(false)]
    pub fn walk(
        cells: &Vec<u8>,
        rows: usize,
        cols: usize,
        start: (usize, usize, usize),
        obstacle: Option<(usize, usize)>,
    ) -> (res: (bool, Vec<bool>))
        requires
            dims_ok06(rows as int, cols as int),
            cells@.len() == rows * cols,
            start.0 < rows,
            start.1 < cols,
            start.2 < 4,
        ensures
            res.1@.len() == rows * cols,
            (res.0, res.1@) == spec_walk_from(
                cells@,
                rows as int,
                cols as int,
                start,
                obstacle,
            ),
    {
        proof {
            assert((rows as int) * (cols as int) * 4 <= 0x10000000 && (rows as int) * (
            cols as int) >= 1) by (nonlinear_arith)
                requires
                    1 <= rows as int,
                    rows as int <= 0x2000,
                    1 <= cols as int,
                    cols as int <= 0x2000,
            ;
        }
        let n = rows * cols;
        let mut seen_state: Vec<bool> = Vec::new();
        let mut i: usize = 0;
        while i < n * 4
            invariant
                i <= n * 4,
                seen_state@.len() == i,
                count_true(seen_state@) == 0,
                forall|t: int| 0 <= t < i ==> !(#[trigger] seen_state@[t]),
            decreases n * 4 - i,
        {
            proof {
                assert(seen_state@.push(false).drop_last() =~= seen_state@);
            }
            seen_state.push(false);
            i += 1;
        }
        let mut stood: Vec<bool> = Vec::new();
        let mut i2: usize = 0;
        while i2 < n
            invariant
                i2 <= n,
                stood@.len() == i2,
                forall|t: int| 0 <= t < i2 ==> !(#[trigger] stood@[t]),
            decreases n - i2,
        {
            stood.push(false);
            i2 += 1;
        }
        let (mut r, mut c, mut d) = start;
        let mut unseen: usize = n * 4;
        let ghost target = spec_walk_from(cells@, rows as int, cols as int, start, obstacle);
        proof {
            assert(((rows as int) * (cols as int)) * 4 == 4 * (rows as int) * (cols as int)) by (
            nonlinear_arith);
            assert(seen_state@ =~= Seq::new(
                (4 * (rows as int) * (cols as int)) as nat,
                |i: int| false,
            ));
            assert(stood@ =~= Seq::new(((rows as int) * (cols as int)) as nat, |i: int| false));
            assert(n * 4 + 1 == 4 * (rows as int) * (cols as int) + 1);
        }
        loop
            invariant
                seen_state@.len() == n * 4,
                stood@.len() == n,
                r < rows,
                c < cols,
                d < 4,
                unseen as int == n * 4 - count_true(seen_state@),
                spec_walk(
                    cells@,
                    rows as int,
                    cols as int,
                    r as int,
                    c as int,
                    d as int,
                    obstacle,
                    seen_state@,
                    stood@,
                    unseen as int + 1,
                ) == target,
            decreases unseen,
        {
            proof {
                lemma_cell_ix(rows as int, cols as int, r as int, c as int);
                assert(((r * cols + c) * 4 + d) < n * 4 && (r * cols + c) * 4 + d >= 0) by (
                nonlinear_arith)
                    requires
                        r * cols + c < n,
                        (r * cols + c) >= 0,
                        d < 4,
                ;
            }
            let si = (r * cols + c) * 4 + d;
            if seen_state[si] {
                proof {
                    assert(target == (true, stood@));
                }
                return (true, stood);
            }
            proof {
                lemma_count_true_lt(seen_state@, si as int);
                lemma_count_true_set(seen_state@, si as int);
            }
            seen_state.set(si, true);
            unseen = unseen - 1;
            stood.set(r * cols + c, true);
            // one step, or a right turn at an obstacle
            let (dr_neg, dc_neg, dr_pos, dc_pos): (bool, bool, bool, bool) = if d == 0 {
                (true, false, false, false)
            } else if d == 1 {
                (false, false, false, true)
            } else if d == 2 {
                (false, false, true, false)
            } else {
                (false, true, false, false)
            };
            if (dr_neg && r == 0) || (dc_neg && c == 0) || (dr_pos && r == rows - 1) || (dc_pos
                && c == cols - 1) {
                proof {
                    assert(guard_step(
                        cells@,
                        rows as int,
                        cols as int,
                        r as int,
                        c as int,
                        d as int,
                        obstacle,
                    ) is None);
                    assert(target == (false, stood@));
                }
                return (false, stood);
            }
            let nr = if dr_neg {
                r - 1
            } else if dr_pos {
                r + 1
            } else {
                r
            };
            let nc = if dc_neg {
                c - 1
            } else if dc_pos {
                c + 1
            } else {
                c
            };
            proof {
                lemma_cell_ix(rows as int, cols as int, nr as int, nc as int);
            }
            let blocked = cells[nr * cols + nc] == 35 || (match obstacle {
                Some(o) => o.0 == nr && o.1 == nc,
                None => false,
            });
            proof {
                if blocked {
                    assert(guard_step(
                        cells@,
                        rows as int,
                        cols as int,
                        r as int,
                        c as int,
                        d as int,
                        obstacle,
                    ) == Some((r as int, c as int, spec_turn_right(d as int))));
                } else {
                    assert(guard_step(
                        cells@,
                        rows as int,
                        cols as int,
                        r as int,
                        c as int,
                        d as int,
                        obstacle,
                    ) == Some((nr as int, nc as int, d as int)));
                }
            }
            if blocked {
                d = Day06::turn_right(d);
            } else {
                r = nr;
                c = nc;
            }
        }
    }

    /// The tiles the guard visits before leaving, and how many single
    /// obstructions would trap her in a loop.
    #[verifier::loop_isolation(false)]
    pub fn patrol(cells: &Vec<u8>, rows: usize, cols: usize) -> (res: (u64, u64))
        requires
            dims_ok06(rows as int, cols as int),
            cells@.len() == rows * cols,
        ensures
            ({
                let ri = rows as int;
                let ci = cols as int;
                match fs_row(cells@, ri, ci, 0) {
                    None => res == (0u64, 0u64),
                    Some(start) => {
                        let stood = spec_walk_from(cells@, ri, ci, start, None).1;
                        &&& res.0 as int == count_true(stood)
                        &&& res.1 as int == spec_loop_cells(cells@, ri, ci, start, stood, ri, 0)
                    },
                }
            }),
    {
        let ghost ri = rows as int;
        let ghost ci = cols as int;
        let start = match Day06::find_start(cells, rows, cols) {
            Some(s) => s,
            None => {
                return (0, 0);
            },
        };
        let (_, stood) = Day06::walk(cells, rows, cols, start, None);
        let ghost sv = stood@;
        proof {
            assert((rows as int) * (cols as int) >= 1 && (rows as int) * (cols as int)
                <= 0x10000000) by (nonlinear_arith)
                requires
                    1 <= rows as int,
                    rows as int <= 0x2000,
                    1 <= cols as int,
                    cols as int <= 0x2000,
            ;
        }
        let mut visited: u64 = 0;
        let mut loops: u64 = 0;
        let mut r: usize = 0;
        while r < rows
            invariant
                stood@ == sv,
                r <= rows,
                visited as int == count_true(sv.take(((r as int) * ci) as int)),
                visited <= r * cols,
                loops <= r * cols,
                loops as int == spec_loop_cells(cells@, ri, ci, start, sv, r as int, 0),
            decreases rows - r,
        {
            let mut c: usize = 0;
            while c < cols
                invariant
                    stood@ == sv,
                    r < rows,
                    c <= cols,
                    visited as int == count_true(sv.take(((r as int) * ci + c) as int)),
                    visited <= r * cols + c,
                    loops <= r * cols + c,
                    loops as int == spec_loop_cells(cells@, ri, ci, start, sv, r as int, c as int),
                decreases cols - c,
            {
                proof {
                    lemma_cell_ix(rows as int, cols as int, r as int, c as int);
                    assert(sv.take(((r as int) * ci + c + 1) as int).drop_last() =~= sv.take(
                        ((r as int) * ci + c) as int,
                    ));
                }
                if stood[r * cols + c] {
                    visited = visited + 1;
                    if !(r == start.0 && c == start.1) {
                        let (looped, _) = Day06::walk(cells, rows, cols, start, Some((r, c)));
                        if looped {
                            loops = loops + 1;
                        }
                        proof {
                            assert(spec_loop_cell(cells@, ri, ci, start, sv, r as int, c as int)
                                == looped);
                        }
                    } else {
                        proof {
                            assert(!spec_loop_cell(
                                cells@,
                                ri,
                                ci,
                                start,
                                sv,
                                r as int,
                                c as int,
                            ));
                        }
                    }
                } else {
                    proof {
                        assert(!spec_loop_cell(cells@, ri, ci, start, sv, r as int, c as int));
                    }
                }
                c += 1;
            }
            proof {
                assert((r as int) * ci + ci == ((r as int) + 1) * ci) by (nonlinear_arith);
                assert(spec_loop_cells(cells@, ri, ci, start, sv, r as int + 1, 0)
                    == spec_loop_cells(cells@, ri, ci, start, sv, r as int, ci));
            }
            r += 1;
        }
        proof {
            assert(sv.take(((rows as int) * ci) as int) =~= sv);
        }
        (visited, loops)
    }
}

impl Solution for Day06 {
    type ParsedInput = (Vec<u8>, usize, usize);

    fn parse_input(input_lines: &str) -> (Vec<u8>, usize, usize) {
        let bytes = input_lines.as_bytes_vec();
        let ls = util::lines(&bytes);
        let rows = ls.len();
        let mut cols: usize = 0;
        if rows > 0 {
            cols = ls[0].len();
        }
        if rows == 0 || cols == 0 || rows > 0x2000 || cols > 0x2000 {
            let mut cells: Vec<u8> = Vec::new();
            cells.push(46);
            return (cells, 1, 1);
        }
        let mut cells: Vec<u8> = Vec::new();
        let mut r: usize = 0;
        while r < rows
            invariant
                rows == ls@.len(),
                cells@.len() == r * cols,
                r <= rows,
                1 <= cols <= 0x2000,
                1 <= rows <= 0x2000,
            decreases rows - r,
        {
            let mut c: usize = 0;
            while c < cols
                invariant
                    rows == ls@.len(),
                    r < rows,
                    c <= cols,
                    cells@.len() == r * cols + c,
                    1 <= cols <= 0x2000,
                    1 <= rows <= 0x2000,
                decreases cols - c,
            {
                proof {
                    lemma_cell_ix(rows as int, cols as int, r as int, c as int);
                }
                if c < ls[r].len() {
                    cells.push(ls[r][c]);
                } else {
                    cells.push(46);
                }
                c += 1;
            }
            proof {
                assert(r * cols + cols == (r + 1) * cols) by (nonlinear_arith);
            }
            r += 1;
        }
        (cells, rows, cols)
    }

    fn part_one(parsed_input: &mut (Vec<u8>, usize, usize)) -> (res: String)
        ensures
            ({
                let cv = old(parsed_input).0@;
                let ri = old(parsed_input).1 as int;
                let ci = old(parsed_input).2 as int;
                let ok = dims_ok06(ri, ci) && cv.len() == ri * ci;
                &&& ok ==> (match fs_row(cv, ri, ci, 0) {
                    None => res@ == util::spec_u64_chars(0),
                    Some(st) => res@ == util::spec_u64_chars(
                        count_true(spec_walk_from(cv, ri, ci, st, None).1),
                    ),
                })
                &&& !ok ==> res@ == "0"@
            }),
    {
        let (cells, rows, cols) = parsed_input;
        let rows = *rows;
        let cols = *cols;
        if rows < 1 || rows > 0x2000 || cols < 1 || cols > 0x2000 {
            return "0".to_owned();
        }
        proof {
            assert((rows as int) * (cols as int) <= 0x10000000) by (nonlinear_arith)
                requires
                    1 <= rows as int,
                    rows as int <= 0x2000,
                    1 <= cols as int,
                    cols as int <= 0x2000,
            ;
        }
        if cells.len() != rows * cols {
            return "0".to_owned();
        }
        let (visited, _) = Day06::patrol(cells, rows, cols);
        util::u64_to_string(visited)
    }

    fn part_two(parsed_input: &mut (Vec<u8>, usize, usize)) -> (res: String)
        ensures
            ({
                let cv = old(parsed_input).0@;
                let ri = old(parsed_input).1 as int;
                let ci = old(parsed_input).2 as int;
                let ok = dims_ok06(ri, ci) && cv.len() == ri * ci;
                &&& ok ==> (match fs_row(cv, ri, ci, 0) {
                    None => res@ == util::spec_u64_chars(0),
                    Some(st) => res@ == util::spec_u64_chars(
                        spec_loop_cells(
                            cv,
                            ri,
                            ci,
                            st,
                            spec_walk_from(cv, ri, ci, st, None).1,
                            ri,
                            0,
                        ),
                    ),
                })
                &&& !ok ==> res@ == "0"@
            }),
    {
        let (cells, rows, cols) = parsed_input;
        let rows = *rows;
        let cols = *cols;
        if rows < 1 || rows > 0x2000 || cols < 1 || cols > 0x2000 {
            return "0".to_owned();
        }
        proof {
            assert((rows as int) * (cols as int) <= 0x10000000) by (nonlinear_arith)
                requires
                    1 <= rows as int,
                    rows as int <= 0x2000,
                    1 <= cols as int,
                    cols as int <= 0x2000,
            ;
        }
        if cells.len() != rows * cols {
            return "0".to_owned();
        }
        let (_, loops) = Day06::patrol(cells, rows, cols);
        util::u64_to_string(loops)
    }
}

} // verus!
