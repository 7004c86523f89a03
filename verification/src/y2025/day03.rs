use crate::util;
use crate::y2025::day02::lemma_ten_pow_mono;
use crate::y2025::day02::lemma_ten_pow_vals;
use crate::y2025::day02::ten_pow;
use crate::Solution;
use vstd::prelude::*;
use vstd::string::StrSliceExecFns;

verus! {

pub struct Day03;

/// The digit stack after greedily processing the bank: a larger incoming
/// digit evicts smaller stacked digits while removals remain.
pub open spec fn spec_greedy(stack: Seq<u64>, bank: Seq<u64>, i: int, k: int) -> Seq<u64>
    decreases bank.len() - i, stack.len(),
{
    if i < 0 || i >= bank.len() {
        stack
    } else if k > 0 && stack.len() > 0 && stack.last() < bank[i] {
        spec_greedy(stack.drop_last(), bank, i, k - 1)
    } else {
        spec_greedy(stack.push(bank[i]), bank, i + 1, k)
    }
}

/// The number read off the first `j` stacked digits.
pub open spec fn spec_fold10(s: Seq<u64>, j: int) -> int
    decreases j,
{
    if j <= 0 {
        0
    } else {
        spec_fold10(s, j - 1) * 10 + s[j - 1]
    }
}

pub open spec fn bank_ok(bank: Seq<u64>, count: int) -> bool {
    &&& 1 <= count <= 18
    &&& count <= bank.len()
    &&& forall|i: int| 0 <= i < bank.len() ==> #[trigger] bank[i] <= 9
}

pub proof fn lemma_fold10_bounded(s: Seq<u64>, j: int)
    requires
        forall|i: int| 0 <= i < s.len() ==> #[trigger] s[i] <= 9,
        0 <= j <= s.len(),
    ensures
        0 <= spec_fold10(s, j) < ten_pow(j),
    decreases j,
{
    if j > 0 {
        lemma_fold10_bounded(s, j - 1);
    }
}

impl Day03 {
    /// The largest joltage obtainable by keeping `count` digits of the
    /// bank in order: the greedy eviction stack, read off at width
    /// `count`.
    #[verifier::loop_isolation(false)]
    pub fn max_joltage(bank: &Vec<u64>, count: usize) -> (r: u64)
        requires
            bank_ok(bank@, count as int),
        ensures
            r as int == spec_fold10(
                spec_greedy(Seq::empty(), bank@, 0, bank@.len() - count as int),
                count as int,
            ),
    {
        let mut k: usize = bank.len() - count;
        let ghost k0 = bank@.len() - count as int;
        let mut stack: Vec<u64> = Vec::new();
        let mut i: usize = 0;
        while i < bank.len()
            invariant
                i <= bank@.len(),
                stack@.len() == i - (k0 - k),
                0 <= k,
                k <= k0,
                forall|t: int| 0 <= t < stack@.len() ==> #[trigger] stack@[t] <= 9,
                spec_greedy(stack@, bank@, i as int, k as int) == spec_greedy(
                    Seq::empty(),
                    bank@,
                    0,
                    k0,
                ),
            decreases bank@.len() - i, k,
        {
            let b = bank[i];
            if k > 0 && stack.len() > 0 && *stack.last().unwrap() < b {
                stack.pop();
                k -= 1;
            } else {
                stack.push(b);
                i += 1;
            }
        }
        proof {
            assert(spec_greedy(stack@, bank@, i as int, k as int) == stack@);
            assert(stack@.len() >= count);
        }
        let mut val: u64 = 0;
        let mut j: usize = 0;
        while j < count
            invariant
                j <= count,
                val as int == spec_fold10(stack@, j as int),
                0 <= val,
            decreases count - j,
        {
            proof {
                lemma_ten_pow_vals();
                lemma_fold10_bounded(stack@, j as int);
                lemma_fold10_bounded(stack@, j + 1);
                lemma_ten_pow_mono(j + 1, 18);
            }
            val = val * 10 + stack[j];
            j += 1;
        }
        val
    }

    /// The sum of every valid bank's best joltage (saturating; banks the
    /// size cap excludes contribute nothing).
    pub fn total_output_joltage(banks: &Vec<Vec<u64>>, count: usize) -> (r: u64)
        ensures
            r as int == spec_total(banks_view(banks@), count as int),
    {
        let ghost bv = banks_view(banks@);
        let mut total: u64 = 0;
        let mut i: usize = 0;
        while i < banks.len()
            invariant
                i <= banks@.len(),
                bv == banks_view(banks@),
                bv.len() == banks@.len(),
                total as int == spec_total(bv.take(i as int), count as int),
            decreases banks@.len() - i,
        {
            proof {
                assert(bv[i as int] == banks@[i as int]@);
                assert(bv.take(i + 1).drop_last() =~= bv.take(i as int));
                assert(bv.take(i + 1).last() == bv[i as int]);
                lemma_total_nonneg(bv.take(i as int), count as int);
            }
            if check_bank(&banks[i], count) {
                let m = Day03::max_joltage(&banks[i], count);
                proof {
                    util::lemma_cap_add(spec_total(bv.take(i as int), count as int), m as int);
                }
                total = util::sat_add(total, m);
            }
            i += 1;
        }
        proof {
            assert(bv.take(bv.len() as int) =~= bv);
        }
        total
    }
}

pub open spec fn banks_view(banks: Seq<Vec<u64>>) -> Seq<Seq<u64>> {
    banks.map_values(|b: Vec<u64>| b@)
}

pub open spec fn spec_total(banks: Seq<Seq<u64>>, count: int) -> int
    decreases banks.len(),
{
    if banks.len() == 0 {
        0
    } else {
        util::spec_cap_u64(
            spec_total(banks.drop_last(), count) + if bank_ok(banks.last(), count) {
                spec_fold10(
                    spec_greedy(Seq::empty(), banks.last(), 0, banks.last().len() - count),
                    count,
                )
            } else {
                0
            },
        )
    }
}

pub proof fn lemma_total_nonneg(banks: Seq<Seq<u64>>, count: int)
    ensures
        spec_total(banks, count) >= 0,
    decreases banks.len(),
{
    if banks.len() > 0 {
        lemma_total_nonneg(banks.drop_last(), count);
        if bank_ok(banks.last(), count) {
            lemma_fold10_bounded_weak(banks.last(), count);
        }
    }
}

pub proof fn lemma_fold10_bounded_weak(bank: Seq<u64>, count: int)
    requires
        bank_ok(bank, count),
    ensures
        spec_fold10(spec_greedy(Seq::empty(), bank, 0, bank.len() - count), count) >= 0,
{
    lemma_fold10_nonneg(spec_greedy(Seq::empty(), bank, 0, bank.len() - count), count);
}

pub proof fn lemma_fold10_nonneg(s: Seq<u64>, j: int)
    ensures
        spec_fold10(s, j) >= 0,
    decreases j,
{
    if j > 0 {
        lemma_fold10_nonneg(s, j - 1);
        assert(spec_fold10(s, j - 1) * 10 >= 0) by (nonlinear_arith)
            requires
                spec_fold10(s, j - 1) >= 0,
        ;
    }
}

/// Exec mirror of `bank_ok`.
fn check_bank(bank: &Vec<u64>, count: usize) -> (r: bool)
    ensures
        r == bank_ok(bank@, count as int),
{
    if count < 1 || count > 18 || count > bank.len() {
        return false;
    }
    let mut i: usize = 0;
    while i < bank.len()
        invariant
            i <= bank@.len(),
            1 <= count <= 18,
            count <= bank@.len(),
            forall|k: int| 0 <= k < i ==> #[trigger] bank@[k] <= 9,
        decreases bank@.len() - i,
    {
        if bank[i] > 9 {
            return false;
        }
        i += 1;
    }
    true
}

impl Solution for Day03 {
    type ParsedInput = Vec<Vec<u64>>;

    fn parse_input(input_lines: &str) -> Vec<Vec<u64>> {
        let bytes = input_lines.as_bytes_vec();
        let ls = util::lines(&bytes);
        let mut banks: Vec<Vec<u64>> = Vec::new();
        let mut i: usize = 0;
        while i < ls.len()
            decreases ls@.len() - i,
        {
            let line = &ls[i];
            let mut bank: Vec<u64> = Vec::new();
            let mut k: usize = 0;
            while k < line.len()
                decreases line@.len() - k,
            {
                if line[k] >= 48 && line[k] <= 57 {
                    bank.push((line[k] - 48) as u64);
                }
                k += 1;
            }
            if bank.len() > 0 {
                banks.push(bank);
            }
            i += 1;
        }
        banks
    }

    fn part_one(parsed_input: &mut Vec<Vec<u64>>) -> (res: String)
        ensures
            res@ == util::spec_u64_chars(spec_total(banks_view(old(parsed_input)@), 2)),
    {
        util::u64_to_string(Day03::total_output_joltage(parsed_input, 2))
    }

    fn part_two(parsed_input: &mut Vec<Vec<u64>>) -> (res: String)
        ensures
            res@ == util::spec_u64_chars(spec_total(banks_view(old(parsed_input)@), 12)),
    {
        util::u64_to_string(Day03::total_output_joltage(parsed_input, 12))
    }
}

} // verus!
