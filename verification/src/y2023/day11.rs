use crate::util;
use crate::Solution;
use vstd::prelude::*;
use vstd::string::StrSliceExecFns;

verus! {

pub struct Day11;

/// Whether some galaxy sits in row `r`.
pub open spec fn spec_row_populated(galaxies: Seq<(usize, usize)>, r: int) -> bool {
    exists|k: int| 0 <= k < galaxies.len() && (#[trigger] galaxies[k]).0 == r
}

pub open spec fn spec_col_populated(galaxies: Seq<(usize, usize)>, c: int) -> bool {
    exists|k: int| 0 <= k < galaxies.len() && (#[trigger] galaxies[k]).1 == c
}

/// How many rows in `lo..hi` hold a galaxy.
pub open spec fn spec_pop_rows(galaxies: Seq<(usize, usize)>, lo: int, hi: int) -> int
    decreases hi - lo,
{
    if hi <= lo {
        0
    } else {
        spec_pop_rows(galaxies, lo, hi - 1) + if spec_row_populated(galaxies, hi - 1) {
            1int
        } else {
            0
        }
    }
}

pub open spec fn spec_pop_cols(galaxies: Seq<(usize, usize)>, lo: int, hi: int) -> int
    decreases hi - lo,
{
    if hi <= lo {
        0
    } else {
        spec_pop_cols(galaxies, lo, hi - 1) + if spec_col_populated(galaxies, hi - 1) {
            1int
        } else {
            0
        }
    }
}

pub proof fn lemma_pop_range(galaxies: Seq<(usize, usize)>, lo: int, hi: int)
    requires
        lo <= hi,
    ensures
        0 <= spec_pop_rows(galaxies, lo, hi) <= hi - lo,
        0 <= spec_pop_cols(galaxies, lo, hi) <= hi - lo,
    decreases hi - lo,
{
    if hi > lo {
        lemma_pop_range(galaxies, lo, hi - 1);
    }
}

/// The distance between galaxies `i` and `j` once every unpopulated row
/// and column between them counts `expansion_factor` wide (saturating).
pub open spec fn spec_expanded_distance(
    galaxies: Seq<(usize, usize)>,
    expansion_factor: u64,
    i: int,
    j: int,
) -> int {
    let r_lo = if galaxies[i].0 <= galaxies[j].0 {
        galaxies[i].0 as int
    } else {
        galaxies[j].0 as int
    };
    let r_hi = if galaxies[i].0 <= galaxies[j].0 {
        galaxies[j].0 as int
    } else {
        galaxies[i].0 as int
    };
    let c_lo = if galaxies[i].1 <= galaxies[j].1 {
        galaxies[i].1 as int
    } else {
        galaxies[j].1 as int
    };
    let c_hi = if galaxies[i].1 <= galaxies[j].1 {
        galaxies[j].1 as int
    } else {
        galaxies[i].1 as int
    };
    let nr = spec_pop_rows(galaxies, r_lo, r_hi);
    let nc = spec_pop_cols(galaxies, c_lo, c_hi);
    let er = (r_hi - r_lo) - nr;
    let ec = (c_hi - c_lo) - nc;
    util::spec_cap_u64(
        util::spec_cap_u64(nr + nc) + util::spec_cap_u64(
            util::spec_cap_u64(er + ec) * expansion_factor,
        ),
    )
}

/// The pair distances of one first index, with second index below `j`.
pub open spec fn spec_dist_row(
    galaxies: Seq<(usize, usize)>,
    f: u64,
    i: int,
    j: int,
) -> Seq<u64>
    decreases j,
{
    if j <= i + 1 || j <= 0 {
        Seq::empty()
    } else {
        spec_dist_row(galaxies, f, i, j - 1).push(
            spec_expanded_distance(galaxies, f, i, j - 1) as u64,
        )
    }
}

/// Every pair's expanded distance, in scan order.
pub open spec fn spec_dists_upto(galaxies: Seq<(usize, usize)>, f: u64, i: int) -> Seq<u64>
    decreases i,
{
    if i <= 0 {
        Seq::empty()
    } else {
        spec_dists_upto(galaxies, f, i - 1) + spec_dist_row(
            galaxies,
            f,
            i - 1,
            galaxies.len() as int,
        )
    }
}

impl Day11 {
    /// The expanded distance between the galaxies at `i` and `j`.
    #[verifier::loop_isolation(false)]
    pub fn expanded_manhattan_distance(
        galaxies: &Vec<(usize, usize)>,
        expansion_factor: u64,
        i: usize,
        j: usize,
    ) -> (r: u64)
        requires
            i < galaxies@.len(),
            j < galaxies@.len(),
        ensures
            r as int == spec_expanded_distance(galaxies@, expansion_factor, i as int, j as int),
    {
        let (ir, ic) = galaxies[i];
        let (jr, jc) = galaxies[j];
        let (r_lo, r_hi) = if ir <= jr {
            (ir, jr)
        } else {
            (jr, ir)
        };
        let (c_lo, c_hi) = if ic <= jc {
            (ic, jc)
        } else {
            (jc, ic)
        };
        let mut nr: usize = 0;
        let mut r = r_lo;
        while r < r_hi
            invariant
                r_lo <= r <= r_hi,
                nr as int == spec_pop_rows(galaxies@, r_lo as int, r as int),
                nr <= r - r_lo,
            decreases r_hi - r,
        {
            if row_populated(galaxies, r) {
                nr += 1;
            }
            r += 1;
        }
        let mut nc: usize = 0;
        let mut c = c_lo;
        while c < c_hi
            invariant
                c_lo <= c <= c_hi,
                nc as int == spec_pop_cols(galaxies@, c_lo as int, c as int),
                nc <= c - c_lo,
            decreases c_hi - c,
        {
            if col_populated(galaxies, c) {
                nc += 1;
            }
            c += 1;
        }
        let er = (r_hi - r_lo) - nr;
        let ec = (c_hi - c_lo) - nc;
        proof {
            lemma_pop_range(galaxies@, r_lo as int, r_hi as int);
            lemma_pop_range(galaxies@, c_lo as int, c_hi as int);
        }
        let expanded = util::sat_mul(util::sat_add(er as u64, ec as u64), expansion_factor);
        util::sat_add(util::sat_add(nr as u64, nc as u64), expanded)
    }

    /// The expanded distances of every galaxy pair, in scan order.
    #[verifier::loop_isolation(false)]
    pub fn distances(galaxies: &Vec<(usize, usize)>, expansion_factor: u64) -> (r: Vec<u64>)
        ensures
            r@ == spec_dists_upto(galaxies@, expansion_factor, galaxies@.len() as int),
    {
        let mut out: Vec<u64> = Vec::new();
        let mut i: usize = 0;
        while i < galaxies.len()
            invariant
                i <= galaxies@.len(),
                out@ == spec_dists_upto(galaxies@, expansion_factor, i as int),
            decreases galaxies@.len() - i,
        {
            let mut j = i + 1;
            while j < galaxies.len()
                invariant
                    i < galaxies@.len(),
                    i < j,
                    j <= galaxies@.len(),
                    out@ == spec_dists_upto(galaxies@, expansion_factor, i as int)
                        + spec_dist_row(galaxies@, expansion_factor, i as int, j as int),
                decreases galaxies@.len() - j,
            {
                out.push(Day11::expanded_manhattan_distance(galaxies, expansion_factor, i, j));
                proof {
                    assert(out@ =~= spec_dists_upto(galaxies@, expansion_factor, i as int)
                        + spec_dist_row(galaxies@, expansion_factor, i as int, j as int + 1));
                }
                j += 1;
            }
            proof {
                assert(out@ =~= spec_dists_upto(galaxies@, expansion_factor, i as int + 1));
            }
            i += 1;
        }
        out
    }
}

fn row_populated(galaxies: &Vec<(usize, usize)>, r: usize) -> (res: bool)
    ensures
        res == spec_row_populated(galaxies@, r as int),
{
    let mut k: usize = 0;
    while k < galaxies.len()
        invariant
            k <= galaxies@.len(),
            forall|t: int| 0 <= t < k ==> (#[trigger] galaxies@[t]).0 != r,
        decreases galaxies@.len() - k,
    {
        if galaxies[k].0 == r {
            return true;
        }
        k += 1;
    }
    false
}

fn col_populated(galaxies: &Vec<(usize, usize)>, c: usize) -> (res: bool)
    ensures
        res == spec_col_populated(galaxies@, c as int),
{
    let mut k: usize = 0;
    while k < galaxies.len()
        invariant
            k <= galaxies@.len(),
            forall|t: int| 0 <= t < k ==> (#[trigger] galaxies@[t]).1 != c,
        decreases galaxies@.len() - k,
    {
        if galaxies[k].1 == c {
            return true;
        }
        k += 1;
    }
    false
}

impl Solution for Day11 {
    type ParsedInput = Vec<(usize, usize)>;

    fn parse_input(input_lines: &str) -> Vec<(usize, usize)> {
        let bytes = input_lines.as_bytes_vec();
        let ls = util::lines(&bytes);
        let mut galaxies: Vec<(usize, usize)> = Vec::new();
        let mut r: usize = 0;
        while r < ls.len()
            decreases ls@.len() - r,
        {
            let line = &ls[r];
            let mut c: usize = 0;
            while c < line.len()
                decreases line@.len() - c,
            {
                if line[c] == 35 {
                    galaxies.push((r, c));
                }
                c += 1;
            }
            r += 1;
        }
        galaxies
    }

    fn part_one(parsed_input: &mut Vec<(usize, usize)>) -> (res: String)
        ensures
            res@ == util::spec_u64_chars(
                util::spec_cap_u64(
                    util::spec_sum_u64(
                        spec_dists_upto(old(parsed_input)@, 2, old(parsed_input)@.len() as int),
                    ),
                ),
            ),
    {
        let d = Day11::distances(parsed_input, 2);
        util::u64_to_string(util::sum_sat_u64(&d))
    }

    fn part_two(parsed_input: &mut Vec<(usize, usize)>) -> (res: String)
        ensures
            res@ == util::spec_u64_chars(
                util::spec_cap_u64(
                    util::spec_sum_u64(
                        spec_dists_upto(
                            old(parsed_input)@,
                            1000000,
                            old(parsed_input)@.len() as int,
                        ),
                    ),
                ),
            ),
    {
        let d = Day11::distances(parsed_input, 1000000);
        util::u64_to_string(util::sum_sat_u64(&d))
    }
}

} // verus!
