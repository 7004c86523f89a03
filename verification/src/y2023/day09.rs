use crate::util;
use crate::Solution;
use vstd::prelude::*;
use vstd::string::StrSliceExecFns;

verus! {

pub struct Day09;

pub open spec fn spec_all_zero(s: Seq<int>) -> bool {
    forall|i: int| 0 <= i < s.len() ==> s[i] == 0
}

pub open spec fn spec_diffs(s: Seq<int>) -> Seq<int> {
    if s.len() == 0 {
        Seq::empty()
    } else {
        Seq::new((s.len() - 1) as nat, |i: int| s[i + 1] - s[i])
    }
}

/// The extrapolated next value of the sequence: its last element plus the
/// next value of its difference sequence, bottoming out at all zeroes.
pub open spec fn spec_next(s: Seq<int>) -> int
    decreases s.len(),
{
    if s.len() == 0 || spec_all_zero(s) {
        0
    } else {
        s.last() + spec_next(spec_diffs(s))
    }
}

pub open spec fn spec_bounded_by(s: Seq<int>, b: int) -> bool {
    forall|i: int| 0 <= i < s.len() ==> -b <= #[trigger] s[i] <= b
}

pub proof fn lemma_diffs_bounded(s: Seq<int>, b: int)
    requires
        spec_bounded_by(s, b),
        b >= 0,
    ensures
        spec_bounded_by(spec_diffs(s), 2 * b),
{
    assert forall|i: int| 0 <= i < spec_diffs(s).len() implies -(2 * b) <= #[trigger] spec_diffs(
        s,
    )[i] <= 2 * b by {
        assert(spec_diffs(s)[i] == s[i + 1] - s[i]);
        assert(-b <= s[i + 1] <= b);
        assert(-b <= s[i] <= b);
    }
}

pub open spec fn pow2_bound(n: int) -> int
    decreases n,
{
    if n <= 0 {
        1
    } else {
        2 * pow2_bound(n - 1)
    }
}

pub proof fn lemma_pow2_pos(n: int)
    ensures
        pow2_bound(n) >= 1,
    decreases n,
{
    if n > 0 {
        lemma_pow2_pos(n - 1);
    }
}

pub proof fn lemma_pow2_mono(a: int, b: int)
    requires
        a <= b,
    ensures
        pow2_bound(a) <= pow2_bound(b),
    decreases b - a,
{
    if a < b {
        lemma_pow2_mono(a, b - 1);
        lemma_pow2_pos(b - 1);
    }
}

pub proof fn lemma_pow2_bound_61()
    ensures
        pow2_bound(61) == 0x2000000000000000,
{
    assert(pow2_bound(0) == 0x1);
    assert(pow2_bound(1) == 0x2);
    assert(pow2_bound(2) == 0x4);
    assert(pow2_bound(3) == 0x8);
    assert(pow2_bound(4) == 0x10);
    assert(pow2_bound(5) == 0x20);
    assert(pow2_bound(6) == 0x40);
    assert(pow2_bound(7) == 0x80);
    assert(pow2_bound(8) == 0x100);
    assert(pow2_bound(9) == 0x200);
    assert(pow2_bound(10) == 0x400);
    assert(pow2_bound(11) == 0x800);
    assert(pow2_bound(12) == 0x1000);
    assert(pow2_bound(13) == 0x2000);
    assert(pow2_bound(14) == 0x4000);
    assert(pow2_bound(15) == 0x8000);
    assert(pow2_bound(16) == 0x10000);
    assert(pow2_bound(17) == 0x20000);
    assert(pow2_bound(18) == 0x40000);
    assert(pow2_bound(19) == 0x80000);
    assert(pow2_bound(20) == 0x100000);
    assert(pow2_bound(21) == 0x200000);
    assert(pow2_bound(22) == 0x400000);
    assert(pow2_bound(23) == 0x800000);
    assert(pow2_bound(24) == 0x1000000);
    assert(pow2_bound(25) == 0x2000000);
    assert(pow2_bound(26) == 0x4000000);
    assert(pow2_bound(27) == 0x8000000);
    assert(pow2_bound(28) == 0x10000000);
    assert(pow2_bound(29) == 0x20000000);
    assert(pow2_bound(30) == 0x40000000);
    assert(pow2_bound(31) == 0x80000000);
    assert(pow2_bound(32) == 0x100000000);
    assert(pow2_bound(33) == 0x200000000);
    assert(pow2_bound(34) == 0x400000000);
    assert(pow2_bound(35) == 0x800000000);
    assert(pow2_bound(36) == 0x1000000000);
    assert(pow2_bound(37) == 0x2000000000);
    assert(pow2_bound(38) == 0x4000000000);
    assert(pow2_bound(39) == 0x8000000000);
    assert(pow2_bound(40) == 0x10000000000);
    assert(pow2_bound(41) == 0x20000000000);
    assert(pow2_bound(42) == 0x40000000000);
    assert(pow2_bound(43) == 0x80000000000);
    assert(pow2_bound(44) == 0x100000000000);
    assert(pow2_bound(45) == 0x200000000000);
    assert(pow2_bound(46) == 0x400000000000);
    assert(pow2_bound(47) == 0x800000000000);
    assert(pow2_bound(48) == 0x1000000000000);
    assert(pow2_bound(49) == 0x2000000000000);
    assert(pow2_bound(50) == 0x4000000000000);
    assert(pow2_bound(51) == 0x8000000000000);
    assert(pow2_bound(52) == 0x10000000000000);
    assert(pow2_bound(53) == 0x20000000000000);
    assert(pow2_bound(54) == 0x40000000000000);
    assert(pow2_bound(55) == 0x80000000000000);
    assert(pow2_bound(56) == 0x100000000000000);
    assert(pow2_bound(57) == 0x200000000000000);
    assert(pow2_bound(58) == 0x400000000000000);
    assert(pow2_bound(59) == 0x800000000000000);
    assert(pow2_bound(60) == 0x1000000000000000);
    assert(pow2_bound(61) == 0x2000000000000000);
}

pub open spec fn ints_of(s: Seq<i64>) -> Seq<int> {
    s.map_values(|x: i64| x as int)
}

pub open spec fn ints_of_128(s: Seq<i128>) -> Seq<int> {
    s.map_values(|x: i128| x as int)
}

impl Day09 {
    /// The extrapolated next value of the sequence (sequences of at most 60
    /// values: the k-th difference row can hold values up to 2^k times the
    /// input bound, and these fit an `i128` for 60 rows).
    #[verifier::loop_isolation(false)]
    pub fn next_value(sequence: &Vec<i64>) -> (r: i128)
        requires
            sequence@.len() <= 60,
        ensures
            r as int == spec_next(ints_of(sequence@)),
    {
        let mut row: Vec<i128> = Vec::new();
        let mut i: usize = 0;
        while i < sequence.len()
            invariant
                i <= sequence@.len(),
                row@.len() == i,
                forall|k: int| 0 <= k < i ==> row@[k] as int == sequence@[k] as int,
            decreases sequence@.len() - i,
        {
            row.push(sequence[i] as i128);
            i += 1;
        }
        proof {
            assert(ints_of_128(row@) =~= ints_of(sequence@));
        }
        let ghost orig = ints_of_128(row@);
        let ghost base: int = 0x8000_0000_0000_0000;
        let mut result: i128 = 0;
        let ghost mut steps: int = 0;
        let ghost n0 = row@.len() as int;
        proof {
            assert(pow2_bound(0) == 1);
            assert(spec_bounded_by(ints_of_128(row@), base * pow2_bound(0)));
        }
        loop
            invariant
                base == 0x8000_0000_0000_0000,
                steps >= 0,
                steps + row@.len() == n0 <= 60,
                spec_bounded_by(ints_of_128(row@), base * pow2_bound(steps)),
                -(base * (pow2_bound(steps) - 1)) <= result as int <= base * (
                pow2_bound(steps) - 1),
                result as int + spec_next(ints_of_128(row@)) == spec_next(orig),
            decreases row@.len(),
        {
            let ghost cur = ints_of_128(row@);
            let ghost bnd = base * pow2_bound(steps);
            proof {
                lemma_pow2_mono(steps as int, 61);
                lemma_pow2_bound_61();
                lemma_pow2_pos(steps as int);
                assert(bnd <= base * 0x2000000000000000);
            }
            // check for the all-zero floor
            let mut z: usize = 0;
            let mut allz = true;
            while z < row.len()
                invariant
                    z <= row@.len(),
                    cur == ints_of_128(row@),
                    allz == (forall|k: int| 0 <= k < z ==> cur[k] == 0),
                decreases row@.len() - z,
            {
                proof {
                    assert(cur[z as int] == row@[z as int] as int);
                }
                if row[z] != 0 {
                    allz = false;
                }
                z += 1;
            }
            if allz || row.len() == 0 {
                proof {
                    assert(cur.len() == row@.len());
                    assert(spec_all_zero(cur));
                }
                return result;
            }
            proof {
                assert(cur.len() == row@.len());
                assert(!spec_all_zero(cur));
                assert(spec_next(cur) == cur.last() + spec_next(spec_diffs(cur)));
            }
            let last = row[row.len() - 1];
            proof {
                assert(cur[row@.len() - 1] == row@[row@.len() - 1] as int);
            }
            // replace each cell with the difference to its right neighbour
            let mut k: usize = 0;
            while k < row.len() - 1
                invariant
                    row@.len() == cur.len() >= 1,
                    k <= cur.len() - 1,
                    spec_bounded_by(cur, bnd),
                    base == 0x8000_0000_0000_0000,
                    1 <= pow2_bound(steps),
                    bnd == base * pow2_bound(steps),
                    bnd <= base * 0x2000000000000000,
                    forall|j: int| 0 <= j < k ==> #[trigger] row@[j] as int == cur[j + 1] - cur[j],
                    forall|j: int| k <= j < cur.len() ==> #[trigger] row@[j] as int == cur[j],
                decreases cur.len() - k,
            {
                proof {
                    assert(row@[k as int] as int == cur[k as int]);
                    assert(row@[k + 1] as int == cur[k + 1]);
                }
                let d = row[k + 1] - row[k];
                row.set(k, d);
                k += 1;
            }
            row.pop();
            proof {
                assert(ints_of_128(row@) =~= spec_diffs(cur));
                lemma_diffs_bounded(cur, bnd);
                assert(pow2_bound(steps + 1) == 2 * pow2_bound(steps));
                assert(spec_bounded_by(spec_diffs(cur), base * pow2_bound(steps + 1)));
                steps = steps + 1;
            }
            result = result + last;
        }
    }

    /// The extrapolated previous value: the next value of the reversal.
    pub fn prev_value(sequence: &Vec<i64>) -> (r: i128)
        requires
            sequence@.len() <= 60,
        ensures
            r as int == spec_next(ints_of(sequence@).reverse()),
    {
        let mut rev: Vec<i64> = Vec::new();
        let mut i: usize = sequence.len();
        while i > 0
            invariant
                i <= sequence@.len(),
                rev@.len() == sequence@.len() - i,
                forall|k: int| 0 <= k < rev@.len() ==> rev@[k] == sequence@[sequence@.len() - 1
                    - k],
            decreases i,
        {
            i -= 1;
            rev.push(sequence[i]);
        }
        let r = Day09::next_value(&rev);
        proof {
            assert(ints_of(rev@) =~= ints_of(sequence@).reverse());
        }
        r
    }
}

/// The clamped running sum of each sequence's next value; sequences of
/// more than sixty values are skipped.
pub open spec fn spec_sum_next(seqs: Seq<Vec<i64>>, i: int) -> int
    decreases i,
{
    if i <= 0 {
        0
    } else {
        let prev = spec_sum_next(seqs, i - 1);
        if seqs[i - 1]@.len() <= 60 {
            util::spec_clamp128(prev + spec_next(ints_of(seqs[i - 1]@)))
        } else {
            prev
        }
    }
}

/// The clamped running sum of each sequence's previous value; sequences
/// of more than sixty values are skipped.
pub open spec fn spec_sum_prev(seqs: Seq<Vec<i64>>, i: int) -> int
    decreases i,
{
    if i <= 0 {
        0
    } else {
        let prev = spec_sum_prev(seqs, i - 1);
        if seqs[i - 1]@.len() <= 60 {
            util::spec_clamp128(prev + spec_next(ints_of(seqs[i - 1]@).reverse()))
        } else {
            prev
        }
    }
}

impl Solution for Day09 {
    type ParsedInput = Vec<Vec<i64>>;

    fn parse_input(input_lines: &str) -> Vec<Vec<i64>> {
        let bytes = input_lines.as_bytes_vec();
        let ls = util::lines(&bytes);
        let mut seqs: Vec<Vec<i64>> = Vec::new();
        let mut i: usize = 0;
        while i < ls.len()
            decreases ls@.len() - i,
        {
            let toks = util::tokens(&ls[i]);
            let mut seq_row: Vec<i64> = Vec::new();
            let mut k: usize = 0;
            while k < toks.len()
                decreases toks@.len() - k,
            {
                match util::parse_i64(&toks[k]) {
                    Some(n) => seq_row.push(n),
                    None => {},
                }
                k += 1;
            }
            if seq_row.len() > 0 {
                seqs.push(seq_row);
            }
            i += 1;
        }
        seqs
    }

    fn part_one(parsed_input: &mut Vec<Vec<i64>>) -> (res: String)
        ensures
            res@ == util::spec_i64_chars(
                util::spec_clamp_to_i64(
                    spec_sum_next(old(parsed_input)@, old(parsed_input)@.len() as int),
                ),
            ),
    {
        let seqs = parsed_input;
        let mut acc: i128 = 0;
        let mut i: usize = 0;
        while i < seqs.len()
            invariant
                i <= seqs@.len(),
                acc as int == spec_sum_next(seqs@, i as int),
                -0x4000_0000_0000_0000_0000_0000_0000_0000
                    <= acc <= 0x4000_0000_0000_0000_0000_0000_0000_0000,
            decreases seqs@.len() - i,
        {
            if seqs[i].len() <= 60 {
                let v = Day09::next_value(&seqs[i]);
                acc = util::clamp_add_i128(acc, v);
            }
            i += 1;
        }
        util::i128_to_clamped_string(acc)
    }

    fn part_two(parsed_input: &mut Vec<Vec<i64>>) -> (res: String)
        ensures
            res@ == util::spec_i64_chars(
                util::spec_clamp_to_i64(
                    spec_sum_prev(old(parsed_input)@, old(parsed_input)@.len() as int),
                ),
            ),
    {
        let seqs = parsed_input;
        let mut acc: i128 = 0;
        let mut i: usize = 0;
        while i < seqs.len()
            invariant
                i <= seqs@.len(),
                acc as int == spec_sum_prev(seqs@, i as int),
                -0x4000_0000_0000_0000_0000_0000_0000_0000
                    <= acc <= 0x4000_0000_0000_0000_0000_0000_0000_0000,
            decreases seqs@.len() - i,
        {
            if seqs[i].len() <= 60 {
                let v = Day09::prev_value(&seqs[i]);
                acc = util::clamp_add_i128(acc, v);
            }
            i += 1;
        }
        util::i128_to_clamped_string(acc)
    }
}

} // verus!
