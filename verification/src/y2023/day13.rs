use crate::util;
use crate::Solution;
use vstd::prelude::*;
use vstd::string::StrSliceExecFns;

verus! {

pub struct Day13;

/// One ash-and-rock pattern, by rows and by columns.
pub struct Pattern {
    pub rows: Vec<Vec<u8>>,
    pub cols: Vec<Vec<u8>>,
}

/// How many positions of the two lines differ (over the shorter length).
pub open spec fn spec_pair_diff(a: Seq<u8>, b: Seq<u8>, n: int) -> int
    decreases n,
{
    if n <= 0 {
        0
    } else {
        spec_pair_diff(a, b, n - 1) + if a[n - 1] != b[n - 1] {
            1int
        } else {
            0
        }
    }
}

pub open spec fn spec_min_len(a: Seq<u8>, b: Seq<u8>) -> int {
    if a.len() <= b.len() {
        a.len() as int
    } else {
        b.len() as int
    }
}

/// Total mismatches across the mirror at `x`: pairs `(x-1-t, x+t)` while
/// both sides stay on the pattern.
pub open spec fn spec_mirror_diff(e: Seq<Seq<u8>>, x: int, t: int) -> int
    decreases t,
{
    if t <= 0 {
        0
    } else {
        crate::util::spec_cap_u64(
            spec_mirror_diff(e, x, t - 1) + spec_pair_diff(
                e[x - t],
                e[x + t - 1],
                spec_min_len(e[x - t], e[x + t - 1]),
            ),
        )
    }
}

pub open spec fn spec_span(e: Seq<Seq<u8>>, x: int) -> int {
    if x <= e.len() - x {
        x
    } else {
        e.len() - x
    }
}

/// A valid mirror line: strictly inside the pattern, with zero mismatches
/// clean or exactly one with a smudge.
pub open spec fn spec_mirror_ok(e: Seq<Seq<u8>>, x: int, with_smudge: bool) -> bool {
    0 < x < e.len() && spec_mirror_diff(e, x, spec_span(e, x)) == if with_smudge {
        1int
    } else {
        0
    }
}

/// The reflection the scan reports: the largest valid mirror position at
/// most `x`, if any.
pub open spec fn spec_best_mirror(e: Seq<Seq<u8>>, with_smudge: bool, x: int) -> Option<usize>
    decreases x,
{
    if x <= 0 {
        None
    } else if spec_mirror_ok(e, x, with_smudge) {
        Some(x as usize)
    } else {
        spec_best_mirror(e, with_smudge, x - 1)
    }
}

pub open spec fn lines_view(e: Seq<Vec<u8>>) -> Seq<Seq<u8>> {
    e.map_values(|v: Vec<u8>| v@)
}

impl Day13 {
    /// Whether the two lines differ in exactly one position.
    pub fn equal_with_smudge(a: &Vec<u8>, b: &Vec<u8>) -> (r: bool)
        ensures
            r == (spec_pair_diff(a@, b@, spec_min_len(a@, b@)) == 1),
    {
        Day13::pair_diff(a, b) == 1
    }

    /// Counts differing positions of two lines.
    pub fn pair_diff(a: &Vec<u8>, b: &Vec<u8>) -> (r: u64)
        ensures
            r as int == spec_pair_diff(a@, b@, spec_min_len(a@, b@)),
    {
        let n = if a.len() <= b.len() {
            a.len()
        } else {
            b.len()
        };
        let mut c: u64 = 0;
        let mut i: usize = 0;
        while i < n
            invariant
                i <= n,
                n as int == spec_min_len(a@, b@),
                n <= a@.len() && n <= b@.len(),
                c <= i,
                c as int == spec_pair_diff(a@, b@, i as int),
            decreases n - i,
        {
            if a[i] != b[i] {
                c += 1;
            }
            i += 1;
        }
        c
    }

    /// The mirror position the pattern reports, scanning all candidates
    /// and keeping the furthest valid one.
    #[verifier::loop_isolation(false)]
    pub fn reflection_index(elements: &Vec<Vec<u8>>, with_smudge: bool) -> (r: Option<usize>)
        ensures
            r == spec_best_mirror(lines_view(elements@), with_smudge, elements@.len() as int),
    {
        let ghost ev = lines_view(elements@);
        let n = elements.len();
        let mut best: Option<usize> = None;
        let mut x: usize = 1;
        if n == 0 {
            return None;
        }
        while x < n
            invariant
                1 <= x <= n,
                n == elements@.len(),
                ev == lines_view(elements@),
                best == spec_best_mirror(ev, with_smudge, x - 1),
            decreases n - x,
        {
            // count mismatches across the candidate mirror
            let span = if x <= n - x {
                x
            } else {
                n - x
            };
            let mut diff: u64 = 0;
            let mut t: usize = 1;
            while t <= span
                invariant
                    1 <= t <= span + 1,
                    1 <= x <= n,
                    span as int == spec_span(ev, x as int),
                    span <= x && span <= n - x,
                    diff as int == spec_mirror_diff(ev, x as int, t - 1),
                    diff >= 0,
                decreases span + 1 - t,
            {
                proof {
                    assert(ev[x - t] == elements@[x - t]@);
                    assert(ev[x + t - 1] == elements@[x + t - 1]@);
                    lemma_mirror_diff_nonneg(ev, x as int, t - 1);
                    lemma_pair_diff_nonneg(
                        ev[x as int - t],
                        ev[x as int + t - 1],
                        spec_min_len(ev[x as int - t], ev[x as int + t - 1]),
                    );
                }
                let d = Day13::pair_diff(&elements[x - t], &elements[x + t - 1]);
                proof {
                    util::lemma_cap_add(spec_mirror_diff(ev, x as int, t - 1), d as int);
                }
                diff = util::sat_add(diff, d);
                t += 1;
            }
            let target: u64 = if with_smudge {
                1
            } else {
                0
            };
            if diff == target {
                best = Some(x);
            }
            x += 1;
        }
        proof {
            assert(spec_best_mirror(ev, with_smudge, n as int) == spec_best_mirror(
                ev,
                with_smudge,
                n as int - 1,
            ));
        }
        best
    }

    /// Both orientations' reflections.
    pub fn find_reflection(pattern: &Pattern) -> (r: (Option<usize>, Option<usize>))
        ensures
            r.0 == spec_best_mirror(lines_view(pattern.rows@), false, pattern.rows@.len() as int),
            r.1 == spec_best_mirror(lines_view(pattern.cols@), false, pattern.cols@.len() as int),
    {
        (
            Day13::reflection_index(&pattern.rows, false),
            Day13::reflection_index(&pattern.cols, false),
        )
    }

    pub fn find_reflection_with_smudge(pattern: &Pattern) -> (r: (Option<usize>, Option<usize>))
        ensures
            r.0 == spec_best_mirror(lines_view(pattern.rows@), true, pattern.rows@.len() as int),
            r.1 == spec_best_mirror(lines_view(pattern.cols@), true, pattern.cols@.len() as int),
    {
        (
            Day13::reflection_index(&pattern.rows, true),
            Day13::reflection_index(&pattern.cols, true),
        )
    }

    /// A pattern's summary: columns left of a vertical mirror, plus one
    /// hundred for each row above a horizontal one (saturating).
    pub fn summarize(reflection: (Option<usize>, Option<usize>)) -> (r: u64)
        requires
            reflection.0.is_some() ==> reflection.0.unwrap() <= usize::MAX,
        ensures
            r as int == util::spec_cap_u64(
                (match reflection.1 {
                    Some(v) => v as int,
                    None => 0,
                }) + util::spec_cap_u64(
                    100 * (match reflection.0 {
                        Some(h) => h as int,
                        None => 0,
                    }),
                ),
            ),
    {
        let v: u64 = match reflection.1 {
            Some(v) => v as u64,
            None => 0,
        };
        let h: u64 = match reflection.0 {
            Some(h) => h as u64,
            None => 0,
        };
        util::sat_add(v, util::sat_mul(100, h))
    }
}

pub proof fn lemma_pair_diff_nonneg(a: Seq<u8>, b: Seq<u8>, n: int)
    ensures
        0 <= spec_pair_diff(a, b, n) <= if n >= 0 {
            n
        } else {
            0
        },
    decreases n,
{
    if n > 0 {
        lemma_pair_diff_nonneg(a, b, n - 1);
    }
}

pub proof fn lemma_mirror_diff_nonneg(e: Seq<Seq<u8>>, x: int, t: int)
    ensures
        spec_mirror_diff(e, x, t) >= 0,
    decreases t,
{
    if t > 0 {
        lemma_mirror_diff_nonneg(e, x, t - 1);
        lemma_pair_diff_nonneg(e[x - t], e[x + t - 1], spec_min_len(e[x - t], e[x + t - 1]));
    }
}

/// The summary value of one pattern's mirrors: columns left of the
/// vertical one plus one hundred rows above the horizontal one.
pub open spec fn spec_summary(p: Pattern, smudge: bool) -> int {
    let h = spec_best_mirror(lines_view(p.rows@), smudge, p.rows@.len() as int);
    let v = spec_best_mirror(lines_view(p.cols@), smudge, p.cols@.len() as int);
    util::spec_cap_u64(
        (match v {
            Some(x) => x as int,
            None => 0,
        }) + util::spec_cap_u64(
            100 * (match h {
                Some(x) => x as int,
                None => 0,
            }),
        ),
    )
}

/// The saturating sum of the first `i` pattern summaries.
pub open spec fn spec_day13(patterns: Seq<Pattern>, smudge: bool, i: int) -> int
    decreases i,
{
    if i <= 0 {
        0
    } else {
        util::spec_cap_u64(
            spec_day13(patterns, smudge, i - 1) + spec_summary(patterns[i - 1], smudge),
        )
    }
}

pub proof fn lemma_day13_nonneg(patterns: Seq<Pattern>, smudge: bool, i: int)
    ensures
        spec_day13(patterns, smudge, i) >= 0,
    decreases i,
{
    if i > 0 {
        lemma_day13_nonneg(patterns, smudge, i - 1);
    }
}

impl Solution for Day13 {
    type ParsedInput = Vec<Pattern>;

    fn parse_input(input_lines: &str) -> Vec<Pattern> {
        let bytes = input_lines.as_bytes_vec();
        let ls = util::lines(&bytes);
        let mut patterns: Vec<Pattern> = Vec::new();
        let mut rows: Vec<Vec<u8>> = Vec::new();
        let mut i: usize = 0;
        while i < ls.len()
            decreases ls@.len() - i,
        {
            if ls[i].len() == 0 {
                if rows.len() > 0 {
                    patterns.push(make_pattern(rows));
                    rows = Vec::new();
                }
            } else {
                let mut row: Vec<u8> = Vec::new();
                let mut k: usize = 0;
                while k < ls[i].len()
                    invariant
                        i < ls@.len(),
                    decreases ls@[i as int]@.len() - k,
                {
                    row.push(ls[i][k]);
                    k += 1;
                }
                rows.push(row);
            }
            i += 1;
        }
        if rows.len() > 0 {
            patterns.push(make_pattern(rows));
        }
        patterns
    }

    fn part_one(parsed_input: &mut Vec<Pattern>) -> (res: String)
        ensures
            res@ == util::spec_u64_chars(
                spec_day13(old(parsed_input)@, false, old(parsed_input)@.len() as int),
            ),
    {
        let patterns = parsed_input;
        let mut total: u64 = 0;
        let mut i: usize = 0;
        while i < patterns.len()
            invariant
                i <= patterns@.len(),
                total as int == spec_day13(patterns@, false, i as int),
            decreases patterns@.len() - i,
        {
            let s = Day13::summarize(Day13::find_reflection(&patterns[i]));
            proof {
                assert(s as int == spec_summary(patterns@[i as int], false));
                lemma_day13_nonneg(patterns@, false, i as int);
                util::lemma_cap_add(spec_day13(patterns@, false, i as int), s as int);
            }
            total = util::sat_add(total, s);
            i += 1;
        }
        util::u64_to_string(total)
    }

    fn part_two(parsed_input: &mut Vec<Pattern>) -> (res: String)
        ensures
            res@ == util::spec_u64_chars(
                spec_day13(old(parsed_input)@, true, old(parsed_input)@.len() as int),
            ),
    {
        let patterns = parsed_input;
        let mut total: u64 = 0;
        let mut i: usize = 0;
        while i < patterns.len()
            invariant
                i <= patterns@.len(),
                total as int == spec_day13(patterns@, true, i as int),
            decreases patterns@.len() - i,
        {
            let s = Day13::summarize(Day13::find_reflection_with_smudge(&patterns[i]));
            proof {
                assert(s as int == spec_summary(patterns@[i as int], true));
                lemma_day13_nonneg(patterns@, true, i as int);
                util::lemma_cap_add(spec_day13(patterns@, true, i as int), s as int);
            }
            total = util::sat_add(total, s);
            i += 1;
        }
        util::u64_to_string(total)
    }
}

/// Builds a pattern from its rows, with the transposed columns.
fn make_pattern(rows: Vec<Vec<u8>>) -> (r: Pattern) {
    let mut width: usize = 0;
    let mut i: usize = 0;
    while i < rows.len()
        decreases rows@.len() - i,
    {
        if rows[i].len() > width {
            width = rows[i].len();
        }
        i += 1;
    }
    let mut cols: Vec<Vec<u8>> = Vec::new();
    let mut c: usize = 0;
    while c < width
        decreases width - c,
    {
        let mut col: Vec<u8> = Vec::new();
        let mut r: usize = 0;
        while r < rows.len()
            decreases rows@.len() - r,
        {
            if c < rows[r].len() {
                col.push(rows[r][c]);
            }
            r += 1;
        }
        cols.push(col);
        c += 1;
    }
    Pattern { rows, cols }
}

} // verus!
