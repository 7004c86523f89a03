use crate::util;
use crate::Solution;
use vstd::prelude::*;
use vstd::string::StrSliceExecFns;

verus! {

pub struct Day12;

/// How many ways the unknown springs can be set so the damaged groups come
/// out as `counts`, scanning from `i` with `j` groups done and a current
/// run of `run` damaged springs (`run < 0`: no open run). Saturating.
pub open spec fn spec_ways(row: Seq<u8>, counts: Seq<u64>, i: int, j: int, run: int) -> int
    decreases row.len() - i,
{
    if i < 0 || i >= row.len() {
        if run >= 0 {
            if j < counts.len() && run == counts[j] && j + 1 == counts.len() {
                1
            } else {
                0
            }
        } else {
            if j == counts.len() {
                1
            } else {
                0
            }
        }
    } else if row[i] == 35 {
        spec_ways_damaged(row, counts, i, j, run)
    } else if row[i] == 46 {
        spec_ways_working(row, counts, i, j, run)
    } else if row[i] == 63 {
        util::spec_cap_u64(
            spec_ways_damaged(row, counts, i, j, run) + spec_ways_working(row, counts, i, j, run),
        )
    } else {
        spec_ways(row, counts, i + 1, j, run)
    }
}

/// The continuation when position `i` is damaged.
pub open spec fn spec_ways_damaged(row: Seq<u8>, counts: Seq<u64>, i: int, j: int, run: int) -> int
    decreases row.len() - i, 0int,
{
    if i < 0 || i >= row.len() {
        0
    } else {
        let new_run = if run < 0 {
            1int
        } else {
            run + 1
        };
        if j >= counts.len() || new_run > counts[j] {
            0
        } else {
            spec_ways(row, counts, i + 1, j, new_run)
        }
    }
}

/// The continuation when position `i` is working.
pub open spec fn spec_ways_working(row: Seq<u8>, counts: Seq<u64>, i: int, j: int, run: int) -> int
    decreases row.len() - i, 0int,
{
    if i < 0 || i >= row.len() {
        0
    } else {
        if run >= 0 {
            if j >= counts.len() || run < counts[j] {
                0
            } else {
                spec_ways(row, counts, i + 1, j + 1, -1)
            }
        } else {
            spec_ways(row, counts, i + 1, j, -1)
        }
    }
}

pub proof fn lemma_ways_nonneg(row: Seq<u8>, counts: Seq<u64>, i: int, j: int, run: int)
    ensures
        0 <= spec_ways(row, counts, i, j, run) <= u64::MAX,
        0 <= spec_ways_damaged(row, counts, i, j, run) <= u64::MAX,
        0 <= spec_ways_working(row, counts, i, j, run) <= u64::MAX,
    decreases row.len() - i, 1int,
{
    if 0 <= i < row.len() {
        lemma_ways_nonneg(row, counts, i + 1, j, run);
        lemma_ways_nonneg(row, counts, i + 1, j, if run < 0 {
            1int
        } else {
            run + 1
        });
        lemma_ways_nonneg(row, counts, i + 1, j + 1, -1);
        lemma_ways_nonneg(row, counts, i + 1, j, -1);
        assert(0 <= spec_ways_damaged(row, counts, i, j, run) <= u64::MAX);
        assert(0 <= spec_ways_working(row, counts, i, j, run) <= u64::MAX);
        assert(0 <= spec_ways(row, counts, i, j, run) <= u64::MAX);
    }
}

/// The sizes the memo table is laid out for.
pub open spec fn dims_ok(l: int, c: int, rmax: int) -> bool {
    1 <= l + 1 && l <= 2000 && c <= 400 && rmax <= 400 && 0 <= c && 0 <= rmax
}

pub open spec fn memo_ix(c: int, rmax: int, i: int, j: int, code: int) -> int {
    (i * (c + 1) + j) * (rmax + 2) + code
}

pub open spec fn memo_len(l: int, c: int, rmax: int) -> int {
    (l + 1) * (c + 1) * (rmax + 2)
}

/// The run encoded by a memo slot index: slot 0 is "no open run".
pub open spec fn decode_run(code: int) -> int {
    code - 1
}

pub proof fn lemma_memo_ix(l: int, c: int, rmax: int, i: int, j: int, code: int)
    requires
        dims_ok(l, c, rmax),
        0 <= i <= l,
        0 <= j <= c,
        0 <= code <= rmax + 1,
    ensures
        0 <= memo_ix(c, rmax, i, j, code) < memo_len(l, c, rmax),
        memo_len(l, c, rmax) <= 0x20000000,
{
    assert(0 <= (i * (c + 1) + j) * (rmax + 2) + code && (i * (c + 1) + j) * (rmax + 2) + code < (l
        + 1) * (c + 1) * (rmax + 2) && (l + 1) * (c + 1) * (rmax + 2) <= 0x20000000) by (
    nonlinear_arith)
        requires
            0 <= i <= l,
            0 <= j <= c,
            0 <= code <= rmax + 1,
            l <= 2000,
            c <= 400,
            rmax <= 400,
            0 <= c,
            0 <= rmax,
    ;
}

pub proof fn lemma_memo_ix_inj(
    l: int,
    c: int,
    rmax: int,
    i: int,
    j: int,
    code: int,
    i2: int,
    j2: int,
    code2: int,
)
    requires
        dims_ok(l, c, rmax),
        0 <= i <= l,
        0 <= j <= c,
        0 <= code <= rmax + 1,
        0 <= i2 <= l,
        0 <= j2 <= c,
        0 <= code2 <= rmax + 1,
        memo_ix(c, rmax, i, j, code) == memo_ix(c, rmax, i2, j2, code2),
    ensures
        i == i2 && j == j2 && code == code2,
{
    assert(i == i2 && j == j2 && code == code2) by (nonlinear_arith)
        requires
            (i * (c + 1) + j) * (rmax + 2) + code == (i2 * (c + 1) + j2) * (rmax + 2) + code2,
            0 <= i,
            0 <= j <= c,
            0 <= code <= rmax + 1,
            0 <= i2,
            0 <= j2 <= c,
            0 <= code2 <= rmax + 1,
    ;
}

/// Every filled memo slot holds its state's answer.
pub open spec fn memo_ok(
    m: Seq<Option<u64>>,
    row: Seq<u8>,
    counts: Seq<u64>,
    c: int,
    rmax: int,
) -> bool {
    forall|i: int, j: int, code: int|
        0 <= i <= row.len() && 0 <= j <= c && 0 <= code <= rmax + 1 && (#[trigger] m[memo_ix(
            c,
            rmax,
            i,
            j,
            code,
        )]).is_some() ==> m[memo_ix(c, rmax, i, j, code)].unwrap() as int == spec_ways(
            row,
            counts,
            i,
            j,
            decode_run(code),
        )
}

impl Day12 {
    /// The memoized scan behind the count: the answer for the state
    /// `(i, j, run)`, filling the table as it goes.
    #[verifier::loop_isolation(false)]
    pub fn ways_from(
        row: &Vec<u8>,
        counts: &Vec<u64>,
        i: usize,
        j: usize,
        code: usize,
        memo: &mut Vec<Option<u64>>,
    ) -> (r: u64)
        requires
            dims_ok(row@.len() as int, counts@.len() as int, 400),
            forall|k: int| 0 <= k < counts@.len() ==> #[trigger] counts@[k] <= 399,
            i <= row@.len(),
            j <= counts@.len(),
            code <= 401,
            code >= 1 ==> code - 1 <= 400,
            old(memo)@.len() == memo_len(row@.len() as int, counts@.len() as int, 400),
            memo_ok(old(memo)@, row@, counts@, counts@.len() as int, 400),
        ensures
            final(memo)@.len() == old(memo)@.len(),
            memo_ok(final(memo)@, row@, counts@, counts@.len() as int, 400),
            r as int == spec_ways(row@, counts@, i as int, j as int, decode_run(code as int)),
        decreases row@.len() - i,
    {
        let ghost l = row@.len() as int;
        let ghost c = counts@.len() as int;
        proof {
            lemma_memo_ix(l, c, 400, i as int, j as int, code as int);
        }
        let cl = counts.len();
        let idx = (i * (cl + 1) + j) * 402 + code;
        proof {
            assert(idx as int == memo_ix(c, 400, i as int, j as int, code as int));
        }
        match memo[idx] {
            Some(v) => {
                return v;
            },
            None => {},
        }
        let ghost run = decode_run(code as int);
        let r: u64;
        if i >= row.len() {
            if code >= 1 {
                if j < counts.len() && (code - 1) as u64 == counts[j] && j + 1 == counts.len() {
                    r = 1;
                } else {
                    r = 0;
                }
            } else {
                if j == counts.len() {
                    r = 1;
                } else {
                    r = 0;
                }
            }
        } else {
            let b = row[i];
            if b == 35 {
                r = Day12::ways_damaged(row, counts, i, j, code, memo);
            } else if b == 46 {
                r = Day12::ways_working(row, counts, i, j, code, memo);
            } else if b == 63 {
                let a = Day12::ways_damaged(row, counts, i, j, code, memo);
                let w = Day12::ways_working(row, counts, i, j, code, memo);
                proof {
                    lemma_ways_nonneg(row@, counts@, i as int, j as int, run);
                }
                r = util::sat_add(a, w);
            } else {
                r = Day12::ways_from(row, counts, i + 1, j, code, memo);
            }
        }
        let ghost pre = memo@;
        memo.set(idx, Some(r));
        proof {
            assert forall|i2: int, j2: int, code2: int|
                0 <= i2 <= row@.len() && 0 <= j2 <= c && 0 <= code2 <= 401 && (#[trigger] memo@[
            memo_ix(c, 400, i2, j2, code2)]).is_some() implies memo@[memo_ix(
                c,
                400,
                i2,
                j2,
                code2,
            )].unwrap() as int == spec_ways(row@, counts@, i2, j2, decode_run(code2)) by {
                lemma_memo_ix(l, c, 400, i2, j2, code2);
                if memo_ix(c, 400, i2, j2, code2) == idx as int {
                    lemma_memo_ix_inj(
                        l,
                        c,
                        400,
                        i2,
                        j2,
                        code2,
                        i as int,
                        j as int,
                        code as int,
                    );
                } else {
                    assert(memo@[memo_ix(c, 400, i2, j2, code2)] == pre[memo_ix(
                        c,
                        400,
                        i2,
                        j2,
                        code2,
                    )]);
                }
            }
        }
        r
    }

    /// The damaged branch at position `i`.
    pub fn ways_damaged(
        row: &Vec<u8>,
        counts: &Vec<u64>,
        i: usize,
        j: usize,
        code: usize,
        memo: &mut Vec<Option<u64>>,
    ) -> (r: u64)
        requires
            dims_ok(row@.len() as int, counts@.len() as int, 400),
            forall|k: int| 0 <= k < counts@.len() ==> #[trigger] counts@[k] <= 399,
            i < row@.len(),
            j <= counts@.len(),
            code <= 401,
            old(memo)@.len() == memo_len(row@.len() as int, counts@.len() as int, 400),
            memo_ok(old(memo)@, row@, counts@, counts@.len() as int, 400),
        ensures
            final(memo)@.len() == old(memo)@.len(),
            memo_ok(final(memo)@, row@, counts@, counts@.len() as int, 400),
            r as int == spec_ways_damaged(
                row@,
                counts@,
                i as int,
                j as int,
                decode_run(code as int),
            ),
        decreases row@.len() - i, 0int,
    {
        let new_run: u64 = if code == 0 {
            1
        } else {
            code as u64
        };
        if j >= counts.len() || new_run > counts[j] {
            return 0;
        }
        proof {
            assert(new_run <= 399);
        }
        Day12::ways_from(row, counts, i + 1, j, (new_run + 1) as usize, memo)
    }

    /// The working branch at position `i`.
    pub fn ways_working(
        row: &Vec<u8>,
        counts: &Vec<u64>,
        i: usize,
        j: usize,
        code: usize,
        memo: &mut Vec<Option<u64>>,
    ) -> (r: u64)
        requires
            dims_ok(row@.len() as int, counts@.len() as int, 400),
            forall|k: int| 0 <= k < counts@.len() ==> #[trigger] counts@[k] <= 399,
            i < row@.len(),
            j <= counts@.len(),
            code <= 401,
            old(memo)@.len() == memo_len(row@.len() as int, counts@.len() as int, 400),
            memo_ok(old(memo)@, row@, counts@, counts@.len() as int, 400),
        ensures
            final(memo)@.len() == old(memo)@.len(),
            memo_ok(final(memo)@, row@, counts@, counts@.len() as int, 400),
            r as int == spec_ways_working(
                row@,
                counts@,
                i as int,
                j as int,
                decode_run(code as int),
            ),
        decreases row@.len() - i, 0int,
    {
        if code >= 1 {
            if j >= counts.len() || ((code - 1) as u64) < counts[j] {
                return 0;
            }
            Day12::ways_from(row, counts, i + 1, j + 1, 0, memo)
        } else {
            Day12::ways_from(row, counts, i + 1, j, 0, memo)
        }
    }

    /// How many arrangements of the row meet the damaged-group counts.
    pub fn ways(row: &Vec<u8>, counts: &Vec<u64>) -> (r: u64)
        requires
            dims_ok(row@.len() as int, counts@.len() as int, 400),
            forall|k: int| 0 <= k < counts@.len() ==> #[trigger] counts@[k] <= 399,
        ensures
            r as int == spec_ways(row@, counts@, 0, 0, -1),
    {
        let ghost l = row@.len() as int;
        let ghost c = counts@.len() as int;
        proof {
            lemma_memo_ix(l, c, 400, 0, 0, 0);
        }
        let n = (row.len() + 1) * (counts.len() + 1) * 402;
        proof {
            assert(n as int == memo_len(l, c, 400));
        }
        let mut memo: Vec<Option<u64>> = Vec::new();
        let mut k: usize = 0;
        while k < n
            invariant
                k <= n,
                memo@.len() == k,
                forall|t: int| 0 <= t < k ==> (#[trigger] memo@[t]).is_none(),
            decreases n - k,
        {
            memo.push(None);
            k += 1;
        }
        proof {
            assert forall|i2: int, j2: int, code2: int|
                0 <= i2 <= row@.len() && 0 <= j2 <= c && 0 <= code2 <= 401 && (#[trigger] memo@[
            memo_ix(c, 400, i2, j2, code2)]).is_some() implies memo@[memo_ix(
                c,
                400,
                i2,
                j2,
                code2,
            )].unwrap() as int == spec_ways(row@, counts@, i2, j2, decode_run(code2)) by {
                lemma_memo_ix(l, c, 400, i2, j2, code2);
            }
        }
        Day12::ways_from(row, counts, 0, 0, 0, &mut memo)
    }

    /// The unfolded row and counts: five copies joined by unknowns.
    pub fn unfold(row: &Vec<u8>, counts: &Vec<u64>) -> (r: (Vec<u8>, Vec<u64>))
        ensures
            r.0@ == spec_rep_row(row@, 5),
            r.1@ == spec_rep_counts(counts@, 5),
    {
        let mut bigrow: Vec<u8> = Vec::new();
        let mut bigcounts: Vec<u64> = Vec::new();
        let mut copy: usize = 0;
        while copy < 5
            invariant
                copy <= 5,
                bigrow@ == spec_rep_row(row@, copy as int),
                bigcounts@ == spec_rep_counts(counts@, copy as int),
            decreases 5 - copy,
        {
            if copy > 0 {
                bigrow.push(63);
            }
            let ghost base = bigrow@;
            let mut k: usize = 0;
            while k < row.len()
                invariant
                    k <= row@.len(),
                    bigrow@ == base + row@.take(k as int),
                decreases row@.len() - k,
            {
                bigrow.push(row[k]);
                proof {
                    assert(bigrow@ =~= base + row@.take(k as int + 1));
                }
                k += 1;
            }
            let ghost cbase = bigcounts@;
            let mut k2: usize = 0;
            while k2 < counts.len()
                invariant
                    k2 <= counts@.len(),
                    bigcounts@ == cbase + counts@.take(k2 as int),
                decreases counts@.len() - k2,
            {
                bigcounts.push(counts[k2]);
                proof {
                    assert(bigcounts@ =~= cbase + counts@.take(k2 as int + 1));
                }
                k2 += 1;
            }
            proof {
                assert(row@.take(row@.len() as int) =~= row@);
                assert(counts@.take(counts@.len() as int) =~= counts@);
                assert(bigrow@ =~= spec_rep_row(row@, copy as int + 1));
                assert(bigcounts@ =~= spec_rep_counts(counts@, copy as int + 1));
            }
            copy += 1;
        }
        (bigrow, bigcounts)
    }
}

/// Exec mirror of the sizes the memo is laid out for.
fn check_dims(row: &Vec<u8>, counts: &Vec<u64>) -> (r: bool)
    ensures
        r == (dims_ok(row@.len() as int, counts@.len() as int, 400) && (forall|k: int|
            0 <= k < counts@.len() ==> #[trigger] counts@[k] <= 399)),
{
    if row.len() > 2000 || counts.len() > 400 {
        return false;
    }
    let mut k: usize = 0;
    while k < counts.len()
        invariant
            k <= counts@.len(),
            row@.len() <= 2000,
            counts@.len() <= 400,
            forall|t: int| 0 <= t < k ==> #[trigger] counts@[t] <= 399,
        decreases counts@.len() - k,
    {
        if counts[k] > 399 {
            return false;
        }
        k += 1;
    }
    true
}

/// `k` copies of the row, joined by unknown cells.
pub open spec fn spec_rep_row(row: Seq<u8>, k: int) -> Seq<u8>
    decreases k,
{
    if k <= 0 {
        Seq::empty()
    } else if k == 1 {
        row
    } else {
        spec_rep_row(row, k - 1) + seq![63u8] + row
    }
}

/// `k` copies of the counts, joined end to end.
pub open spec fn spec_rep_counts(counts: Seq<u64>, k: int) -> Seq<u64>
    decreases k,
{
    if k <= 0 {
        Seq::empty()
    } else {
        spec_rep_counts(counts, k - 1) + counts
    }
}

/// Whether a row fits the memo's dimensions.
pub open spec fn spec_row_fits(row: Seq<u8>, counts: Seq<u64>) -> bool {
    dims_ok(row.len() as int, counts.len() as int, 400) && (forall|k: int|
        0 <= k < counts.len() ==> #[trigger] counts[k] <= 399)
}

/// The saturating sum of the arrangement counts of the first `i` rows
/// that fit the memo's dimensions.
pub open spec fn spec_day12(rows: Seq<(Vec<u8>, Vec<u64>)>, i: int) -> int
    decreases i,
{
    if i <= 0 {
        0
    } else {
        let prev = spec_day12(rows, i - 1);
        if spec_row_fits(rows[i - 1].0@, rows[i - 1].1@) {
            util::spec_cap_u64(prev + spec_ways(rows[i - 1].0@, rows[i - 1].1@, 0, 0, -1))
        } else {
            prev
        }
    }
}

/// The same sum over the unfolded rows.
pub open spec fn spec_day12_unfolded(rows: Seq<(Vec<u8>, Vec<u64>)>, i: int) -> int
    decreases i,
{
    if i <= 0 {
        0
    } else {
        let prev = spec_day12_unfolded(rows, i - 1);
        let brow = spec_rep_row(rows[i - 1].0@, 5);
        let bcounts = spec_rep_counts(rows[i - 1].1@, 5);
        if spec_row_fits(brow, bcounts) {
            util::spec_cap_u64(prev + spec_ways(brow, bcounts, 0, 0, -1))
        } else {
            prev
        }
    }
}

impl Solution for Day12 {
    type ParsedInput = Vec<(Vec<u8>, Vec<u64>)>;

    fn parse_input(input_lines: &str) -> Vec<(Vec<u8>, Vec<u64>)> {
        let bytes = input_lines.as_bytes_vec();
        let ls = util::lines(&bytes);
        let mut rows: Vec<(Vec<u8>, Vec<u64>)> = Vec::new();
        let mut i: usize = 0;
        while i < ls.len()
            decreases ls@.len() - i,
        {
            let toks = util::tokens(&ls[i]);
            if toks.len() == 2 {
                let rowtok = &toks[0];
                let mut row: Vec<u8> = Vec::new();
                let mut k: usize = 0;
                while k < rowtok.len()
                    decreases rowtok@.len() - k,
                {
                    row.push(rowtok[k]);
                    k += 1;
                }
                let parts = util::split_bytes(&toks[1], 44);
                let mut counts: Vec<u64> = Vec::new();
                let mut t: usize = 0;
                while t < parts.len()
                    decreases parts@.len() - t,
                {
                    match util::parse_u64(&parts[t]) {
                        Some(n) => counts.push(n),
                        None => {},
                    }
                    t += 1;
                }
                rows.push((row, counts));
            }
            i += 1;
        }
        rows
    }

    fn part_one(parsed_input: &mut Vec<(Vec<u8>, Vec<u64>)>) -> (res: String)
        ensures
            res@ == util::spec_u64_chars(
                spec_day12(old(parsed_input)@, old(parsed_input)@.len() as int),
            ),
    {
        let rows = parsed_input;
        let mut total: u64 = 0;
        let mut i: usize = 0;
        while i < rows.len()
            invariant
                i <= rows@.len(),
                total as int == spec_day12(rows@, i as int),
            decreases rows@.len() - i,
        {
            if check_dims(&rows[i].0, &rows[i].1) {
                let w = Day12::ways(&rows[i].0, &rows[i].1);
                total = util::sat_add(total, w);
            }
            i += 1;
        }
        util::u64_to_string(total)
    }

    fn part_two(parsed_input: &mut Vec<(Vec<u8>, Vec<u64>)>) -> (res: String)
        ensures
            res@ == util::spec_u64_chars(
                spec_day12_unfolded(old(parsed_input)@, old(parsed_input)@.len() as int),
            ),
    {
        let rows = parsed_input;
        let mut total: u64 = 0;
        let mut i: usize = 0;
        while i < rows.len()
            invariant
                i <= rows@.len(),
                total as int == spec_day12_unfolded(rows@, i as int),
            decreases rows@.len() - i,
        {
            let (bigrow, bigcounts) = Day12::unfold(&rows[i].0, &rows[i].1);
            if check_dims(&bigrow, &bigcounts) {
                let w = Day12::ways(&bigrow, &bigcounts);
                total = util::sat_add(total, w);
            }
            i += 1;
        }
        util::u64_to_string(total)
    }
}

} // verus!
