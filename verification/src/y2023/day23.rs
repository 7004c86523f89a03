use crate::util;
use crate::y2023::day14::lemma_cell_ix;
use crate::y2023::day16::count_true;
use crate::y2023::day16::lemma_count_true_le;
use crate::y2023::day16::lemma_count_true_lt;
use crate::y2023::day16::lemma_count_true_set;
use crate::Solution;
use vstd::prelude::*;
use vstd::string::StrSliceExecFns;

verus! {

pub struct Day23;

pub open spec fn dims_ok23(rows: int, cols: int) -> bool {
    1 <= rows <= 0x1000 && 1 <= cols <= 0x1000
}

/// Whether the slope rule lets the walk leave this tile in direction
/// `dir` (0 down, 1 left, 2 up, 3 right).
pub open spec fn spec_allowed23(tile: u8, slopes: bool, dir: int) -> bool {
    if !slopes || tile == 46 {
        true
    } else if tile == 62 {
        dir == 3
    } else if tile == 94 {
        dir == 2
    } else if tile == 60 {
        dir == 1
    } else if tile == 118 {
        dir == 0
    } else {
        false
    }
}

/// The neighbouring tile in direction `dir`, or `None` off the grid.
pub open spec fn step23(rows: int, cols: int, r: int, c: int, dir: int) -> Option<(int, int)> {
    if dir == 0 {
        if r + 1 < rows {
            Some((r + 1, c))
        } else {
            None
        }
    } else if dir == 1 {
        if c > 0 {
            Some((r, c - 1))
        } else {
            None
        }
    } else if dir == 2 {
        if r > 0 {
            Some((r - 1, c))
        } else {
            None
        }
    } else {
        if c + 1 < cols {
            Some((r, c + 1))
        } else {
            None
        }
    }
}

/// The longer of two possible walk lengths.
pub open spec fn spec_omax(a: Option<int>, b: Option<int>) -> Option<int> {
    match (a, b) {
        (Some(x), Some(y)) => if x >= y {
            Some(x)
        } else {
            Some(y)
        },
        (Some(x), None) => Some(x),
        (None, Some(y)) => Some(y),
        (None, None) => None,
    }
}

/// The longest lawful walk from `(r, c)` to the bottom tile, avoiding the
/// marked tiles; `fuel` covers one unit per tile the walk can stand on.
pub open spec fn spec_hike(
    cells: Seq<u8>,
    rows: int,
    cols: int,
    r: int,
    c: int,
    end: int,
    slopes: bool,
    vis: Seq<bool>,
    fuel: int,
) -> Option<int>
    decreases fuel, 5int,
{
    if fuel <= 0 {
        None
    } else if r == rows - 1 && c == end {
        Some(0)
    } else {
        spec_hike_dirs(cells, rows, cols, r, c, end, slopes, vis.update(r * cols + c, true), 0, fuel)
    }
}

/// The longest continuation over the directions from `dir` upward.
pub open spec fn spec_hike_dirs(
    cells: Seq<u8>,
    rows: int,
    cols: int,
    r: int,
    c: int,
    end: int,
    slopes: bool,
    vis: Seq<bool>,
    dir: int,
    fuel: int,
) -> Option<int>
    decreases fuel, 4int - dir,
{
    if dir < 0 || dir >= 4 || fuel <= 0 {
        None
    } else {
        let rest = spec_hike_dirs(cells, rows, cols, r, c, end, slopes, vis, dir + 1, fuel);
        let tile = cells[r * cols + c];
        let this: Option<int> = if spec_allowed23(tile, slopes, dir) {
            match step23(rows, cols, r, c, dir) {
                Some(p) => if cells[p.0 * cols + p.1] != 35 && !vis[p.0 * cols + p.1] {
                    match spec_hike(cells, rows, cols, p.0, p.1, end, slopes, vis, fuel - 1) {
                        Some(s) => Some(crate::util::spec_cap_u64(s + 1)),
                        None => None,
                    }
                } else {
                    None
                },
                None => None,
            }
        } else {
            None
        };
        spec_omax(this, rest)
    }
}

/// The first path tile of the given row, scanning from column `c`.
pub open spec fn spec_dot_col(cells: Seq<u8>, cols: int, row: int, c: int) -> Option<int>
    decreases cols - c,
{
    if c < 0 || c >= cols {
        None
    } else if cells[row * cols + c] == 46 {
        Some(c)
    } else {
        spec_dot_col(cells, cols, row, c + 1)
    }
}

pub open spec fn opt_usize_int(o: Option<usize>) -> Option<int> {
    match o {
        Some(v) => Some(v as int),
        None => None,
    }
}

/// The day's answer: the longest lawful walk between the top and bottom
/// path tiles, or zero when either is missing.
pub open spec fn spec_day23(cells: Seq<u8>, rows: int, cols: int, slopes: bool) -> int {
    match (spec_dot_col(cells, cols, 0, 0), spec_dot_col(cells, cols, rows - 1, 0)) {
        (Some(sc), Some(ec)) => match spec_hike(
            cells,
            rows,
            cols,
            0,
            sc,
            ec,
            slopes,
            Seq::new((rows * cols) as nat, |i: int| false),
            rows * cols + 1,
        ) {
            Some(v) => v,
            None => 0,
        },
        _ => 0,
    }
}

pub open spec fn opt_u64_int(o: Option<u64>) -> Option<int> {
    match o {
        Some(v) => Some(v as int),
        None => None,
    }
}

impl Day23 {
    /// The first path tile of the top row.
    #[verifier::loop_isolation(false)]
    pub fn find_start(cells: &Vec<u8>, rows: usize, cols: usize) -> (r: Option<usize>)
        requires
            dims_ok23(rows as int, cols as int),
            cells@.len() == rows * cols,
        ensures
            opt_usize_int(r) == spec_dot_col(cells@, cols as int, 0, 0),
            match r {
                Some(c) => c < cols,
                None => true,
            },
    {
        let mut c: usize = 0;
        while c < cols
            invariant
                c <= cols,
                spec_dot_col(cells@, cols as int, 0, c as int) == spec_dot_col(
                    cells@,
                    cols as int,
                    0,
                    0,
                ),
            decreases cols - c,
        {
            proof {
                lemma_cell_ix(rows as int, cols as int, 0, c as int);
            }
            if cells[c] == 46 {
                return Some(c);
            }
            c += 1;
        }
        None
    }

    /// The first path tile of the bottom row.
    #[verifier::loop_isolation(false)]
    pub fn find_end(cells: &Vec<u8>, rows: usize, cols: usize) -> (r: Option<usize>)
        requires
            dims_ok23(rows as int, cols as int),
            cells@.len() == rows * cols,
        ensures
            opt_usize_int(r) == spec_dot_col(cells@, cols as int, rows as int - 1, 0),
            match r {
                Some(c) => c < cols,
                None => true,
            },
    {
        let mut c: usize = 0;
        while c < cols
            invariant
                c <= cols,
                spec_dot_col(cells@, cols as int, rows as int - 1, c as int) == spec_dot_col(
                    cells@,
                    cols as int,
                    rows as int - 1,
                    0,
                ),
            decreases cols - c,
        {
            proof {
                lemma_cell_ix(rows as int, cols as int, rows as int - 1, c as int);
            }
            if cells[(rows - 1) * cols + c] == 46 {
                return Some(c);
            }
            c += 1;
        }
        None
    }

    /// The longest downhill-respecting walk from the top path tile to the
    /// bottom one, never standing on a tile twice.
    pub fn longest_hike_length(cells: &Vec<u8>, rows: usize, cols: usize) -> (r: u64)
        requires
            dims_ok23(rows as int, cols as int),
            cells@.len() == rows * cols,
        ensures
            r as int == spec_day23(cells@, rows as int, cols as int, true),
    {
        Day23::longest_path_length(cells, rows, cols, true)
    }

    /// The longest walk, with or without the slope rule.
    #[verifier::loop_isolation(false)]
    pub fn longest_path_length(cells: &Vec<u8>, rows: usize, cols: usize, slopes: bool) -> (r:
        u64)
        requires
            dims_ok23(rows as int, cols as int),
            cells@.len() == rows * cols,
        ensures
            r as int == spec_day23(cells@, rows as int, cols as int, slopes),
    {
        let start = match Day23::find_start(cells, rows, cols) {
            Some(c) => c,
            None => {
                return 0;
            },
        };
        let end = match Day23::find_end(cells, rows, cols) {
            Some(c) => c,
            None => {
                return 0;
            },
        };
        proof {
            assert((rows as int) * (cols as int) >= 1 && (rows as int) * (cols as int)
                <= 0x1000000) by (nonlinear_arith)
                requires
                    1 <= rows as int,
                    rows as int <= 0x1000,
                    1 <= cols as int,
                    cols as int <= 0x1000,
            ;
        }
        let n = rows * cols;
        let mut visited: Vec<bool> = Vec::new();
        let mut i: usize = 0;
        while i < n
            invariant
                i <= n,
                visited@.len() == i,
                count_true(visited@) == 0,
                forall|t: int| 0 <= t < i ==> !(#[trigger] visited@[t]),
            decreases n - i,
        {
            proof {
                assert(visited@.push(false).drop_last() =~= visited@);
            }
            visited.push(false);
            i += 1;
        }
        proof {
            lemma_cell_ix(rows as int, cols as int, 0, start as int);
            assert(visited@ =~= Seq::new(((rows as int) * (cols as int)) as nat, |i: int| false));
        }
        match hike(cells, rows, cols, 0, start, end, slopes, &mut visited, n + 1) {
            Some(len) => len,
            None => 0,
        }
    }
}

/// The longest simple walk from `(r, c)` to the bottom tile `(rows-1, end)`,
/// avoiding already-standing tiles; backtracks, leaving `visited` as found.
#[verifier::loop_isolation(false)]
fn hike(
    cells: &Vec<u8>,
    rows: usize,
    cols: usize,
    r: usize,
    c: usize,
    end: usize,
    slopes: bool,
    visited: &mut Vec<bool>,
    fuel: usize,
) -> (res: Option<u64>)
    requires
        dims_ok23(rows as int, cols as int),
        cells@.len() == rows * cols,
        old(visited)@.len() == rows * cols,
        r < rows,
        c < cols,
        !old(visited)@[(r * cols + c) as int],
        fuel as int >= old(visited)@.len() - count_true(old(visited)@) + 1,
    ensures
        final(visited)@ == old(visited)@,
        opt_u64_int(res) == spec_hike(
            cells@,
            rows as int,
            cols as int,
            r as int,
            c as int,
            end as int,
            slopes,
            old(visited)@,
            fuel as int,
        ),
    decreases fuel,
{
    proof {
        lemma_cell_ix(rows as int, cols as int, r as int, c as int);
        lemma_count_true_le(old(visited)@);
        lemma_count_true_lt(old(visited)@, (r * cols + c) as int);
    }
    let here = r * cols + c;
    if r == rows - 1 && c == end {
        return Some(0);
    }
    let ghost pre = visited@;
    proof {
        lemma_count_true_set(pre, here as int);
    }
    visited.set(here, true);
    let ghost marked = visited@;
    let tile = cells[here];
    let mut best: Option<u64> = None;
    let mut dir: usize = 0;
    while dir < 4
        invariant
            visited@ == marked,
            dir <= 4,
            spec_omax(
                opt_u64_int(best),
                spec_hike_dirs(
                    cells@,
                    rows as int,
                    cols as int,
                    r as int,
                    c as int,
                    end as int,
                    slopes,
                    marked,
                    dir as int,
                    fuel as int,
                ),
            ) == spec_hike_dirs(
                cells@,
                rows as int,
                cols as int,
                r as int,
                c as int,
                end as int,
                slopes,
                marked,
                0,
                fuel as int,
            ),
        decreases 4 - dir,
    {
        // the slope rule: a slope tile forces one exit direction
        let allowed = if !slopes || tile == 46 {
            true
        } else if tile == 62 {
            dir == 3
        } else if tile == 94 {
            dir == 2
        } else if tile == 60 {
            dir == 1
        } else if tile == 118 {
            dir == 0
        } else {
            false
        };
        proof {
            assert(allowed == spec_allowed23(tile, slopes, dir as int));
        }
        let ghost this: Option<int> = None;
        let mut cand: Option<u64> = None;
        if allowed {
            let mut ok = true;
            let nr: usize;
            let nc: usize;
            if dir == 0 {
                if r + 1 < rows {
                    nr = r + 1;
                    nc = c;
                } else {
                    nr = r;
                    nc = c;
                    ok = false;
                }
            } else if dir == 1 {
                if c > 0 {
                    nr = r;
                    nc = c - 1;
                } else {
                    nr = r;
                    nc = c;
                    ok = false;
                }
            } else if dir == 2 {
                if r > 0 {
                    nr = r - 1;
                    nc = c;
                } else {
                    nr = r;
                    nc = c;
                    ok = false;
                }
            } else {
                if c + 1 < cols {
                    nr = r;
                    nc = c + 1;
                } else {
                    nr = r;
                    nc = c;
                    ok = false;
                }
            }
            proof {
                if ok {
                    assert(step23(rows as int, cols as int, r as int, c as int, dir as int)
                        == Some((nr as int, nc as int)));
                } else {
                    assert(step23(rows as int, cols as int, r as int, c as int, dir as int)
                        is None);
                }
            }
            if ok {
                proof {
                    lemma_cell_ix(rows as int, cols as int, nr as int, nc as int);
                }
                let ni = nr * cols + nc;
                if cells[ni] != 35 && !visited[ni] {
                    match hike(cells, rows, cols, nr, nc, end, slopes, visited, fuel - 1) {
                        Some(sub) => {
                            cand = Some(util::sat_add(sub, 1));
                        },
                        None => {},
                    }
                }
            }
        }
        proof {
            assert(opt_u64_int(cand) == ({
                let rest_tile = cells@[(r * cols + c) as int];
                if spec_allowed23(rest_tile, slopes, dir as int) {
                    match step23(rows as int, cols as int, r as int, c as int, dir as int) {
                        Some(p) => if cells@[p.0 * (cols as int) + p.1] != 35 && !marked[p.0 * (
                        cols as int) + p.1] {
                            match spec_hike(
                                cells@,
                                rows as int,
                                cols as int,
                                p.0,
                                p.1,
                                end as int,
                                slopes,
                                marked,
                                fuel as int - 1,
                            ) {
                                Some(su) => Some(crate::util::spec_cap_u64(su + 1)),
                                None => None,
                            }
                        } else {
                            None
                        },
                        None => None,
                    }
                } else {
                    None
                }
            }));
        }
        let newbest = match (best, cand) {
            (Some(b), Some(x)) => {
                if x > b {
                    Some(x)
                } else {
                    Some(b)
                }
            },
            (Some(b), None) => Some(b),
            (None, Some(x)) => Some(x),
            (None, None) => None,
        };
        proof {
            assert(opt_u64_int(newbest) == spec_omax(opt_u64_int(best), opt_u64_int(cand)));
            lemma_omax_assoc(
                opt_u64_int(best),
                opt_u64_int(cand),
                spec_hike_dirs(
                    cells@,
                    rows as int,
                    cols as int,
                    r as int,
                    c as int,
                    end as int,
                    slopes,
                    marked,
                    dir as int + 1,
                    fuel as int,
                ),
            );
        }
        best = newbest;
        dir += 1;
    }
    visited.set(here, false);
    proof {
        assert(visited@ =~= pre);
        assert(marked =~= pre.update(here as int, true));
    }
    best
}

/// Taking the longer of the first two, then the third, is taking the
/// longest of all three.
proof fn lemma_omax_assoc(a: Option<int>, b: Option<int>, c: Option<int>)
    ensures
        spec_omax(spec_omax(a, b), c) == spec_omax(a, spec_omax(b, c)),
{
}

impl Solution for Day23 {
    type ParsedInput = (Vec<u8>, usize, usize);

    fn parse_input(input_lines: &str) -> (Vec<u8>, usize, usize) {
        let bytes = input_lines.as_bytes_vec();
        let ls = util::lines(&bytes);
        let rows = ls.len();
        let mut cols: usize = 0;
        if rows > 0 {
            cols = ls[0].len();
        }
        if rows == 0 || cols == 0 || rows > 0x1000 || cols > 0x1000 {
            let mut cells: Vec<u8> = Vec::new();
            cells.push(35);
            return (cells, 1, 1);
        }
        let mut cells: Vec<u8> = Vec::new();
        let mut r: usize = 0;
        while r < rows
            invariant
                rows == ls@.len(),
                cells@.len() == r * cols,
                r <= rows,
                1 <= cols <= 0x1000,
                1 <= rows <= 0x1000,
            decreases rows - r,
        {
            let mut c: usize = 0;
            while c < cols
                invariant
                    rows == ls@.len(),
                    r < rows,
                    c <= cols,
                    cells@.len() == r * cols + c,
                    1 <= cols <= 0x1000,
                    1 <= rows <= 0x1000,
                decreases cols - c,
            {
                proof {
                    lemma_cell_ix(rows as int, cols as int, r as int, c as int);
                }
                if c < ls[r].len() {
                    cells.push(ls[r][c]);
                } else {
                    cells.push(35);
                }
                c += 1;
            }
            proof {
                assert(r * cols + cols == (r + 1) * cols) by (nonlinear_arith);
            }
            r += 1;
        }
        (cells, rows, cols)
    }

    fn part_one(parsed_input: &mut (Vec<u8>, usize, usize)) -> (res: String)
        ensures
            ({
                let cells = old(parsed_input).0@;
                let rows = old(parsed_input).1 as int;
                let cols = old(parsed_input).2 as int;
                if dims_ok23(rows, cols) && cells.len() == rows * cols {
                    res@ == util::spec_u64_chars(spec_day23(cells, rows, cols, true))
                } else {
                    res@ == "0"@
                }
            }),
    {
        let (cells, rows, cols) = parsed_input;
        let rows = *rows;
        let cols = *cols;
        if rows < 1 || rows > 0x1000 || cols < 1 || cols > 0x1000 {
            return "0".to_owned();
        }
        proof {
            assert((rows as int) * (cols as int) <= 0x1000000) by (nonlinear_arith)
                requires
                    1 <= rows as int,
                    rows as int <= 0x1000,
                    1 <= cols as int,
                    cols as int <= 0x1000,
            ;
        }
        if cells.len() != rows * cols {
            return "0".to_owned();
        }
        util::u64_to_string(Day23::longest_hike_length(cells, rows, cols))
    }

    /// The slopes become ordinary path; the walk is the same search over
    /// single tiles.
    fn part_two(parsed_input: &mut (Vec<u8>, usize, usize)) -> (res: String)
        ensures
            ({
                let cells = old(parsed_input).0@;
                let rows = old(parsed_input).1 as int;
                let cols = old(parsed_input).2 as int;
                if dims_ok23(rows, cols) && cells.len() == rows * cols {
                    res@ == util::spec_u64_chars(spec_day23(cells, rows, cols, false))
                } else {
                    res@ == "0"@
                }
            }),
    {
        let (cells, rows, cols) = parsed_input;
        let rows = *rows;
        let cols = *cols;
        if rows < 1 || rows > 0x1000 || cols < 1 || cols > 0x1000 {
            return "0".to_owned();
        }
        proof {
            assert((rows as int) * (cols as int) <= 0x1000000) by (nonlinear_arith)
                requires
                    1 <= rows as int,
                    rows as int <= 0x1000,
                    1 <= cols as int,
                    cols as int <= 0x1000,
            ;
        }
        if cells.len() != rows * cols {
            return "0".to_owned();
        }
        util::u64_to_string(Day23::longest_path_length(cells, rows, cols, false))
    }
}

} // verus!
