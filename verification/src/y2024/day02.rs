use crate::util;
use crate::Solution;
use vstd::prelude::*;
use vstd::string::StrSliceExecFns;

verus! {

pub struct Day02;

/// Strictly increasing, with each step between `min` and `max`.
pub open spec fn spec_inc_ok(report: Seq<i64>, min: i64, max: i64) -> bool {
    forall|i: int|
        0 <= i < report.len() - 1 ==> #[trigger] report[i] < report[i + 1] && report[i] + min
            <= report[i + 1] && report[i + 1] <= report[i] + max
}

pub open spec fn spec_dec_ok(report: Seq<i64>, min: i64, max: i64) -> bool {
    forall|i: int|
        0 <= i < report.len() - 1 ==> #[trigger] report[i + 1] < report[i] && report[i + 1] + min
            <= report[i] && report[i] <= report[i + 1] + max
}

/// Increasing within bounds, possibly after removing one entry.
pub open spec fn spec_inc_damp(report: Seq<i64>, min: i64, max: i64) -> bool {
    spec_inc_ok(report, min, max) || exists|i: int|
        0 <= i < report.len() && spec_inc_ok(#[trigger] report.remove(i), min, max)
}

impl Day02 {
    pub fn is_all_gradually_increasing(report: &Vec<i64>, min: i64, max: i64) -> (r: bool)
        requires
            -0x1000_0000 <= min <= 0x1000_0000,
            -0x1000_0000 <= max <= 0x1000_0000,
            forall|i: int|
                0 <= i < report@.len() ==> -0x4000_0000_0000_0000 <= #[trigger] report@[i]
                    <= 0x4000_0000_0000_0000,
        ensures
            r == spec_inc_ok(report@, min, max),
    {
        let mut i: usize = 0;
        if report.len() == 0 {
            return true;
        }
        while i < report.len() - 1
            invariant
                report@.len() >= 1,
                i <= report@.len() - 1,
                -0x1000_0000 <= min <= 0x1000_0000,
                -0x1000_0000 <= max <= 0x1000_0000,
                forall|k: int|
                    0 <= k < report@.len() ==> -0x4000_0000_0000_0000 <= #[trigger] report@[k]
                        <= 0x4000_0000_0000_0000,
                forall|k: int|
                    0 <= k < i ==> #[trigger] report@[k] < report@[k + 1] && report@[k] + min
                        <= report@[k + 1] && report@[k + 1] <= report@[k] + max,
            decreases report@.len() - i,
        {
            let a = report[i];
            let b = report[i + 1];
            if !(a < b && a + min <= b && b <= a + max) {
                return false;
            }
            i += 1;
        }
        true
    }

    pub fn is_all_gradually_decreasing(report: &Vec<i64>, min: i64, max: i64) -> (r: bool)
        requires
            -0x1000_0000 <= min <= 0x1000_0000,
            -0x1000_0000 <= max <= 0x1000_0000,
            forall|i: int|
                0 <= i < report@.len() ==> -0x4000_0000_0000_0000 <= #[trigger] report@[i]
                    <= 0x4000_0000_0000_0000,
        ensures
            r == spec_dec_ok(report@, min, max),
    {
        let mut i: usize = 0;
        if report.len() == 0 {
            return true;
        }
        while i < report.len() - 1
            invariant
                report@.len() >= 1,
                i <= report@.len() - 1,
                -0x1000_0000 <= min <= 0x1000_0000,
                -0x1000_0000 <= max <= 0x1000_0000,
                forall|k: int|
                    0 <= k < report@.len() ==> -0x4000_0000_0000_0000 <= #[trigger] report@[k]
                        <= 0x4000_0000_0000_0000,
                forall|k: int|
                    0 <= k < i ==> #[trigger] report@[k + 1] < report@[k] && report@[k + 1] + min
                        <= report@[k] && report@[k] <= report@[k + 1] + max,
            decreases report@.len() - i,
        {
            let a = report[i];
            let b = report[i + 1];
            if !(b < a && b + min <= a && a <= b + max) {
                return false;
            }
            i += 1;
        }
        true
    }

    /// A safe report rises or falls gradually, one to three at a time.
    pub fn is_safe(report: &Vec<i64>) -> (r: bool)
        requires
            forall|i: int|
                0 <= i < report@.len() ==> -0x4000_0000_0000_0000 <= #[trigger] report@[i]
                    <= 0x4000_0000_0000_0000,
        ensures
            r == (spec_inc_ok(report@, 1, 3) || spec_dec_ok(report@, 1, 3)),
    {
        Day02::is_all_gradually_increasing(report, 1, 3) || Day02::is_all_gradually_decreasing(
            report,
            1,
            3,
        )
    }

    /// Gradually increasing, with the dampener allowed to drop one entry.
    pub fn is_gradually_increasing_with_dampener(report: &Vec<i64>, min: i64, max: i64) -> (r:
        bool)
        requires
            -0x1000_0000 <= min <= 0x1000_0000,
            -0x1000_0000 <= max <= 0x1000_0000,
            forall|i: int|
                0 <= i < report@.len() ==> -0x4000_0000_0000_0000 <= #[trigger] report@[i]
                    <= 0x4000_0000_0000_0000,
        ensures
            r == spec_inc_damp(report@, min, max),
    {
        if Day02::is_all_gradually_increasing(report, min, max) {
            return true;
        }
        let mut i: usize = 0;
        while i < report.len()
            invariant
                -0x1000_0000 <= min <= 0x1000_0000,
                -0x1000_0000 <= max <= 0x1000_0000,
                forall|k: int|
                    0 <= k < report@.len() ==> -0x4000_0000_0000_0000 <= #[trigger] report@[k]
                        <= 0x4000_0000_0000_0000,
                forall|k: int| 0 <= k < i ==> !spec_inc_ok(#[trigger] report@.remove(k), min, max),
            decreases report@.len() - i,
        {
            let mut removed: Vec<i64> = Vec::new();
            let mut k: usize = 0;
            while k < report.len()
                invariant
                    i < report@.len(),
                    k <= report@.len(),
                    removed@ == if k <= i {
                        report@.take(k as int)
                    } else {
                        report@.remove(i as int).take(k - 1)
                    },
                decreases report@.len() - k,
            {
                if k != i {
                    removed.push(report[k]);
                    proof {
                        if k <= i {
                            assert(removed@ =~= report@.take(k + 1));
                        } else {
                            assert(removed@ =~= report@.remove(i as int).take(k as int));
                        }
                    }
                } else {
                    proof {
                        assert(report@.remove(i as int).take(k as int) =~= report@.take(k as int));
                    }
                }
                k += 1;
            }
            proof {
                assert(removed@ =~= report@.remove(i as int));
            }
            if Day02::is_all_gradually_increasing(&removed, min, max) {
                return true;
            }
            i += 1;
        }
        false
    }

    /// Safe with the dampener: one entry may be dropped, rising or falling.
    pub fn is_safe_with_dampener(report: &Vec<i64>) -> (r: bool)
        requires
            forall|i: int|
                0 <= i < report@.len() ==> -0x4000_0000_0000_0000 <= #[trigger] report@[i]
                    <= 0x4000_0000_0000_0000,
        ensures
            r == (spec_inc_damp(report@, 1, 3) || spec_inc_damp(report@.reverse(), 1, 3)),
    {
        if Day02::is_gradually_increasing_with_dampener(report, 1, 3) {
            return true;
        }
        let mut rev: Vec<i64> = Vec::new();
        let mut i: usize = report.len();
        while i > 0
            invariant
                i <= report@.len(),
                rev@.len() == report@.len() - i,
                forall|k: int| 0 <= k < rev@.len() ==> rev@[k] == report@[report@.len() - 1 - k],
            decreases i,
        {
            i -= 1;
            rev.push(report[i]);
        }
        proof {
            assert(rev@ =~= report@.reverse());
        }
        Day02::is_gradually_increasing_with_dampener(&rev, 1, 3)
    }
}

/// Whether every entry is small enough for the step arithmetic.
pub open spec fn spec_small(r: Seq<i64>) -> bool {
    forall|i: int|
        0 <= i < r.len() ==> -0x4000_0000_0000_0000 <= #[trigger] r[i] <= 0x4000_0000_0000_0000
}

/// How many of the first `i` small-entried reports are safe.
pub open spec fn spec_safe_count(reports: Seq<Vec<i64>>, i: int) -> int
    decreases i,
{
    if i <= 0 {
        0
    } else {
        spec_safe_count(reports, i - 1) + if spec_small(reports[i - 1]@) && (spec_inc_ok(
            reports[i - 1]@,
            1,
            3,
        ) || spec_dec_ok(reports[i - 1]@, 1, 3)) {
            1int
        } else {
            0
        }
    }
}

/// How many of the first `i` small-entried reports the dampener accepts.
pub open spec fn spec_damp_count(reports: Seq<Vec<i64>>, i: int) -> int
    decreases i,
{
    if i <= 0 {
        0
    } else {
        spec_damp_count(reports, i - 1) + if spec_small(reports[i - 1]@) && (spec_inc_damp(
            reports[i - 1]@,
            1,
            3,
        ) || spec_inc_damp(reports[i - 1]@.reverse(), 1, 3)) {
            1int
        } else {
            0
        }
    }
}

impl Solution for Day02 {
    type ParsedInput = Vec<Vec<i64>>;

    fn parse_input(input_lines: &str) -> Vec<Vec<i64>> {
        let bytes = input_lines.as_bytes_vec();
        let ls = util::lines(&bytes);
        let mut reports: Vec<Vec<i64>> = Vec::new();
        let mut i: usize = 0;
        while i < ls.len()
            decreases ls@.len() - i,
        {
            let toks = util::tokens(&ls[i]);
            let mut report: Vec<i64> = Vec::new();
            let mut k: usize = 0;
            while k < toks.len()
                invariant
                    forall|j: int|
                        0 <= j < report@.len() ==> -0x4000_0000_0000_0000 <= #[trigger] report@[j]
                            <= 0x4000_0000_0000_0000,
                decreases toks@.len() - k,
            {
                match util::parse_i64(&toks[k]) {
                    Some(n) => {
                        if -0x4000_0000_0000_0000 <= n && n <= 0x4000_0000_0000_0000 {
                            report.push(n);
                        }
                    },
                    None => {},
                }
                k += 1;
            }
            if report.len() > 0 {
                reports.push(report);
            }
            i += 1;
        }
        reports
    }

    fn part_one(parsed_input: &mut Vec<Vec<i64>>) -> (res: String)
        ensures
            res@ == util::spec_u64_chars(
                spec_safe_count(old(parsed_input)@, old(parsed_input)@.len() as int),
            ),
    {
        let reports = parsed_input;
        let mut count: u64 = 0;
        let mut i: usize = 0;
        while i < reports.len()
            invariant
                i <= reports@.len(),
                count <= i,
                count as int == spec_safe_count(reports@, i as int),
            decreases reports@.len() - i,
        {
            if check_small(&reports[i]) {
                if Day02::is_safe(&reports[i]) {
                    count += 1;
                }
            }
            i += 1;
        }
        util::u64_to_string(count)
    }

    fn part_two(parsed_input: &mut Vec<Vec<i64>>) -> (res: String)
        ensures
            res@ == util::spec_u64_chars(
                spec_damp_count(old(parsed_input)@, old(parsed_input)@.len() as int),
            ),
    {
        let reports = parsed_input;
        let mut count: u64 = 0;
        let mut i: usize = 0;
        while i < reports.len()
            invariant
                i <= reports@.len(),
                count <= i,
                count as int == spec_damp_count(reports@, i as int),
            decreases reports@.len() - i,
        {
            if check_small(&reports[i]) {
                if Day02::is_safe_with_dampener(&reports[i]) {
                    count += 1;
                }
            }
            i += 1;
        }
        util::u64_to_string(count)
    }
}

/// Exec mirror of the entry-magnitude bound the helpers ask for.
fn check_small(report: &Vec<i64>) -> (r: bool)
    ensures
        r == forall|i: int|
            0 <= i < report@.len() ==> -0x4000_0000_0000_0000 <= #[trigger] report@[i]
                <= 0x4000_0000_0000_0000,
{
    let mut i: usize = 0;
    while i < report.len()
        invariant
            i <= report@.len(),
            forall|k: int|
                0 <= k < i ==> -0x4000_0000_0000_0000 <= #[trigger] report@[k]
                    <= 0x4000_0000_0000_0000,
        decreases report@.len() - i,
    {
        if report[i] < -0x4000_0000_0000_0000 || report[i] > 0x4000_0000_0000_0000 {
            return false;
        }
        i += 1;
    }
    true
}

} // verus!
