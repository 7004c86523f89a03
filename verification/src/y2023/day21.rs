use crate::util;
use crate::y2023::day14::lemma_cell_ix;
use crate::y2023::day16::count_true;
use crate::y2023::day16::lemma_count_true_le;
use crate::y2023::day16::lemma_count_true_lt;
use crate::y2023::day16::lemma_count_true_set;
use crate::Solution;
use vstd::prelude::*;
use vstd::string::StrSliceExecFns;

verus! {

pub struct Day21;

pub open spec fn dims_ok21(rows: int, cols: int) -> bool {
    1 <= rows <= 0x4000 && 1 <= cols <= 0x4000
}

impl Day21 {
    /// The starting tile: the first `S` in row-major order, if any.
    pub fn start(cells: &Vec<u8>, rows: usize, cols: usize) -> (r: Option<(usize, usize)>)
        requires
            dims_ok21(rows as int, cols as int),
            cells@.len() == rows * cols,
        ensures
            match r {
                Some(p) => p.0 < rows && p.1 < cols && cells@[p.0 * cols + p.1] == 83,
                None => true,
            },
    {
        let mut r: usize = 0;
        while r < rows
            invariant
                r <= rows,
                cells@.len() == rows * cols,
                dims_ok21(rows as int, cols as int),
            decreases rows - r,
        {
            let mut c: usize = 0;
            while c < cols
                invariant
                    r < rows,
                    c <= cols,
                    cells@.len() == rows * cols,
                    dims_ok21(rows as int, cols as int),
                decreases cols - c,
            {
                proof {
                    lemma_cell_ix(rows as int, cols as int, r as int, c as int);
                }
                if cells[r * cols + c] == 83 {
                    return Some((r, c));
                }
                c += 1;
            }
            r += 1;
        }
        None
    }

    /// Breadth-first garden walk from `S`: every walkable tile reached
    /// within the limit, with the step count it is first reached at.
    #[verifier::loop_isolation(false)]
    pub fn reachable(cells: &Vec<u8>, rows: usize, cols: usize, limit: Option<u64>) -> (res: Vec<
        (u64, usize, usize),
    >)
        requires
            dims_ok21(rows as int, cols as int),
            cells@.len() == rows * cols,
        ensures
            forall|i: int|
                0 <= i < res@.len() ==> (#[trigger] res@[i]).1 < rows && res@[i].2 < cols,
    {
        let mut res: Vec<(u64, usize, usize)> = Vec::new();
        let start = match Day21::start(cells, rows, cols) {
            Some(p) => p,
            None => {
                return res;
            },
        };
        proof {
            assert((rows as int) * (cols as int) <= 0x10000000 && (rows as int) * (cols as int)
                >= 1) by (nonlinear_arith)
                requires
                    1 <= rows as int,
                    rows as int <= 0x4000,
                    1 <= cols as int,
                    cols as int <= 0x4000,
            ;
        }
        let n = rows * cols;
        let mut seen: Vec<bool> = Vec::new();
        let mut i: usize = 0;
        while i < n
            invariant
                i <= n,
                seen@.len() == i,
                count_true(seen@) == 0,
                forall|t: int| 0 <= t < i ==> !(#[trigger] seen@[t]),
            decreases n - i,
        {
            proof {
                assert(seen@.push(false).drop_last() =~= seen@);
            }
            seen.push(false);
            i += 1;
        }
        let mut unseen: usize = n;
        let mut queue: Vec<(u64, usize, usize)> = Vec::new();
        let mut head: usize = 0;
        proof {
            lemma_cell_ix(rows as int, cols as int, start.0 as int, start.1 as int);
            lemma_count_true_lt(seen@, (start.0 * cols + start.1) as int);
            lemma_count_true_set(seen@, (start.0 * cols + start.1) as int);
        }
        seen.set(start.0 * cols + start.1, true);
        unseen = unseen - 1;
        queue.push((0, start.0, start.1));
        while head < queue.len()
            invariant
                seen@.len() == n,
                head <= queue@.len(),
                unseen as int == n - count_true(seen@),
                forall|k: int|
                    0 <= k < queue@.len() ==> (#[trigger] queue@[k]).1 < rows && queue@[k].2 < cols,
                forall|i2: int|
                    0 <= i2 < res@.len() ==> (#[trigger] res@[i2]).1 < rows && res@[i2].2 < cols,
            decreases unseen, queue@.len() - head,
        {
            let (d, r, c) = queue[head];
            head += 1;
            res.push((d, r, c));
            let keep_going = match limit {
                Some(l) => d < l,
                None => true,
            };
            if keep_going && d < u64::MAX {
                let ghost unseen0 = unseen;
                let ghost q0 = queue@.len();
                let mut dir: usize = 0;
                while dir < 4
                    invariant
                        seen@.len() == n,
                        head <= queue@.len(),
                        queue@.len() >= q0,
                        queue@.len() > q0 ==> unseen < unseen0,
                        r < rows,
                        c < cols,
                        d < u64::MAX,
                        dir <= 4,
                        unseen as int == n - count_true(seen@),
                        unseen <= unseen0,
                        forall|k: int|
                            0 <= k < queue@.len() ==> (#[trigger] queue@[k]).1 < rows
                                && queue@[k].2 < cols,
                    decreases 4 - dir,
                {
                    let nr: usize;
                    let nc: usize;
                    let mut ok = true;
                    if dir == 0 {
                        if r + 1 < rows {
                            nr = r + 1;
                            nc = c;
                        } else {
                            nr = r;
                            nc = c;
                            ok = false;
                        }
                    } else if dir == 1 {
                        if c > 0 {
                            nr = r;
                            nc = c - 1;
                        } else {
                            nr = r;
                            nc = c;
                            ok = false;
                        }
                    } else if dir == 2 {
                        if r > 0 {
                            nr = r - 1;
                            nc = c;
                        } else {
                            nr = r;
                            nc = c;
                            ok = false;
                        }
                    } else {
                        if c + 1 < cols {
                            nr = r;
                            nc = c + 1;
                        } else {
                            nr = r;
                            nc = c;
                            ok = false;
                        }
                    }
                    if ok {
                        proof {
                            lemma_cell_ix(rows as int, cols as int, nr as int, nc as int);
                        }
                        let idx = nr * cols + nc;
                        if cells[idx] != 35 && !seen[idx] {
                            proof {
                                lemma_count_true_lt(seen@, idx as int);
                                lemma_count_true_set(seen@, idx as int);
                            }
                            seen.set(idx, true);
                            unseen = unseen - 1;
                            queue.push((d + 1, nr, nc));
                        }
                    }
                    dir += 1;
                }
                proof {
                    if unseen == unseen0 {
                    }
                }
            }
        }
        res
    }

    /// The garden tiles reachable in at most `steps` steps of even parity
    /// with the step count.
    pub fn reachable_in_steps(cells: &Vec<u8>, rows: usize, cols: usize, steps: u64) -> (res: Vec<
        (usize, usize),
    >)
        requires
            dims_ok21(rows as int, cols as int),
            cells@.len() == rows * cols,
        ensures
            forall|i: int|
                0 <= i < res@.len() ==> (#[trigger] res@[i]).0 < rows && res@[i].1 < cols,
    {
        let all = Day21::reachable(cells, rows, cols, Some(steps));
        let mut res: Vec<(usize, usize)> = Vec::new();
        let mut i: usize = 0;
        while i < all.len()
            invariant
                i <= all@.len(),
                forall|k: int|
                    0 <= k < all@.len() ==> (#[trigger] all@[k]).1 < rows && all@[k].2 < cols,
                forall|k: int|
                    0 <= k < res@.len() ==> (#[trigger] res@[k]).0 < rows && res@[k].1 < cols,
            decreases all@.len() - i,
        {
            let (d, r, c) = all[i];
            if d % 2 == steps % 2 && d <= steps {
                res.push((r, c));
            }
            i += 1;
        }
        res
    }
}

impl Solution for Day21 {
    type ParsedInput = (Vec<u8>, usize, usize);

    fn parse_input(input_lines: &str) -> (Vec<u8>, usize, usize) {
        let bytes = input_lines.as_bytes_vec();
        let ls = util::lines(&bytes);
        let rows = ls.len();
        let mut cols: usize = 0;
        if rows > 0 {
            cols = ls[0].len();
        }
        if rows == 0 || cols == 0 || rows > 0x4000 || cols > 0x4000 {
            let mut cells: Vec<u8> = Vec::new();
            cells.push(46);
            return (cells, 1, 1);
        }
        let mut cells: Vec<u8> = Vec::new();
        let mut r: usize = 0;
        while r < rows
            invariant
                rows == ls@.len(),
                cells@.len() == r * cols,
                r <= rows,
                1 <= cols <= 0x4000,
                1 <= rows <= 0x4000,
            decreases rows - r,
        {
            let mut c: usize = 0;
            while c < cols
                invariant
                    rows == ls@.len(),
                    r < rows,
                    c <= cols,
                    cells@.len() == r * cols + c,
                    1 <= cols <= 0x4000,
                    1 <= rows <= 0x4000,
                decreases cols - c,
            {
                proof {
                    lemma_cell_ix(rows as int, cols as int, r as int, c as int);
                }
                if c < ls[r].len() {
                    cells.push(ls[r][c]);
                } else {
                    cells.push(46);
                }
                c += 1;
            }
            proof {
                assert(r * cols + cols == (r + 1) * cols) by (nonlinear_arith);
            }
            r += 1;
        }
        (cells, rows, cols)
    }

    fn part_one(parsed_input: &mut (Vec<u8>, usize, usize)) -> (res: String) {
        let (cells, rows, cols) = parsed_input;
        let rows = *rows;
        let cols = *cols;
        if rows < 1 || rows > 0x4000 || cols < 1 || cols > 0x4000 {
            return "0".to_owned();
        }
        proof {
            assert((rows as int) * (cols as int) <= 0x10000000) by (nonlinear_arith)
                requires
                    1 <= rows as int,
                    rows as int <= 0x4000,
                    1 <= cols as int,
                    cols as int <= 0x4000,
            ;
        }
        if cells.len() != rows * cols {
            return "0".to_owned();
        }
        let tiles = Day21::reachable_in_steps(cells, rows, cols, 64);
        util::usize_to_string(tiles.len())
    }

    /// Extrapolates the full-map diamond pattern: the reachable counts of
    /// the center and corner diamonds grow quadratically with the number
    /// of repeated map widths walked.
    fn part_two(parsed_input: &mut (Vec<u8>, usize, usize)) -> (res: String) {
        let (cells, rows, cols) = parsed_input;
        let rows = *rows;
        let cols = *cols;
        if rows < 1 || rows > 0x4000 || cols < 1 || cols > 0x4000 {
            return "0".to_owned();
        }
        proof {
            assert((rows as int) * (cols as int) <= 0x10000000) by (nonlinear_arith)
                requires
                    1 <= rows as int,
                    rows as int <= 0x4000,
                    1 <= cols as int,
                    cols as int <= 0x4000,
            ;
        }
        if cells.len() != rows * cols {
            return "0".to_owned();
        }
        let all = Day21::reachable(cells, rows, cols, None);
        let mut odd_center: u64 = 0;
        let mut even_center: u64 = 0;
        let mut corners: u64 = 0;
        let mut i: usize = 0;
        while i < all.len()
            invariant
                odd_center <= i,
                even_center <= i,
                corners <= i,
            decreases all@.len() - i,
        {
            let (d, _, _) = all[i];
            if d <= 65 {
                if d % 2 == 1 {
                    odd_center += 1;
                } else {
                    even_center += 1;
                }
            } else {
                corners += 1;
            }
            i += 1;
        }
        let corner_diamond = corners / 2;
        let x: u64 = 202300;
        let a = util::sat_mul(util::sat_mul(x + 1, x + 1), odd_center);
        let b = util::sat_mul(util::sat_mul(x, x), even_center);
        let c2 = util::sat_mul(util::sat_mul(2 * x, x + 1), corner_diamond);
        util::u64_to_string(util::sat_add(util::sat_add(a, b), c2))
    }
}

} // verus!
