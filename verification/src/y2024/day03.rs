use crate::util;
use crate::Solution;
use vstd::prelude::*;
use vstd::string::StrSliceExecFns;

verus! {

pub struct Day03;

/// The sum of the products of the listed multiplications, counting only
/// the enabled ones when `enabled_only` is set (saturating).
pub open spec fn spec_mul_sum(muls: Seq<(bool, u64, u64)>, enabled_only: bool) -> int
    decreases muls.len(),
{
    if muls.len() == 0 {
        0
    } else {
        util::spec_cap_u64(
            spec_mul_sum(muls.drop_last(), enabled_only) + if !enabled_only || muls.last().0 {
                util::spec_cap_u64((muls.last().1 as int) * (muls.last().2 as int))
            } else {
                0
            },
        )
    }
}

pub proof fn lemma_mul_sum_nonneg(muls: Seq<(bool, u64, u64)>, enabled_only: bool)
    ensures
        spec_mul_sum(muls, enabled_only) >= 0,
    decreases muls.len(),
{
    if muls.len() > 0 {
        lemma_mul_sum_nonneg(muls.drop_last(), enabled_only);
        let l = muls.last();
        assert((l.1 as int) * (l.2 as int) >= 0) by (nonlinear_arith)
            requires
                l.1 as int >= 0,
                l.2 as int >= 0,
        ;
    }
}

impl Day03 {
    /// Sums the products, optionally only the enabled ones.
    pub fn sum_muls(muls: &Vec<(bool, u64, u64)>, enabled_only: bool) -> (r: u64)
        ensures
            r as int == spec_mul_sum(muls@, enabled_only),
    {
        let mut acc: u64 = 0;
        let mut i: usize = 0;
        while i < muls.len()
            invariant
                i <= muls@.len(),
                acc as int == spec_mul_sum(muls@.take(i as int), enabled_only),
            decreases muls@.len() - i,
        {
            proof {
                assert(muls@.take(i + 1).drop_last() =~= muls@.take(i as int));
                lemma_mul_sum_nonneg(muls@.take(i as int), enabled_only);
            }
            let (en, x, y) = muls[i];
            if !enabled_only || en {
                let p = util::sat_mul(x, y);
                proof {
                    util::lemma_cap_add(
                        spec_mul_sum(muls@.take(i as int), enabled_only),
                        p as int,
                    );
                }
                acc = util::sat_add(acc, p);
            }
            i += 1;
        }
        proof {
            assert(muls@.take(muls@.len() as int) =~= muls@);
        }
        acc
    }
}

/// Tries to read an unsigned number at `pos`; gives the value and the
/// position after its digits.
#[verifier::loop_isolation(false)]
fn scan_number(v: &Vec<u8>, pos: usize) -> (r: Option<(u64, usize)>)
    requires
        pos <= v@.len(),
    ensures
        match r {
            Some(p) => pos < p.1 <= v@.len(),
            None => true,
        },
{
    let mut i = pos;
    let mut val: u64 = 0;
    let mut any = false;
    while i < v.len() && v[i] >= 48 && v[i] <= 57
        invariant
            pos <= i <= v@.len(),
            any == (i > pos),
            val <= 0xffff_ffff_ffff_ffff,
        decreases v@.len() - i,
    {
        let d = (v[i] - 48) as u64;
        if val > (u64::MAX - d) / 10 {
            return None;
        }
        val = val * 10 + d;
        any = true;
        i += 1;
    }
    if any {
        Some((val, i))
    } else {
        None
    }
}

/// Whether the bytes at `pos` start with the given marker.
#[verifier::loop_isolation(false)]
fn match_at(v: &Vec<u8>, pos: usize, pat: &Vec<u8>) -> (r: bool)
    requires
        pos <= v@.len(),
    ensures
        r ==> pos + pat@.len() <= v@.len(),
{
    if pat.len() > v.len() - pos {
        return false;
    }
    let mut k: usize = 0;
    while k < pat.len()
        invariant
            pos + pat@.len() <= v@.len(),
            k <= pat@.len(),
        decreases pat@.len() - k,
    {
        if v[pos + k] != pat[k] {
            return false;
        }
        k += 1;
    }
    true
}

impl Solution for Day03 {
    type ParsedInput = Vec<(bool, u64, u64)>;

    /// Scans the corrupted memory for `mul(x,y)` instructions and the
    /// `do()` / `don't()` toggles that enable or disable them.
    #[verifier::loop_isolation(false)]
    fn parse_input(input_lines: &str) -> Vec<(bool, u64, u64)> {
        let bytes = input_lines.as_bytes_vec();
        // the literal markers, built byte by byte
        let mut mul_pat: Vec<u8> = Vec::new();
        mul_pat.push(109);  // m
        mul_pat.push(117);  // u
        mul_pat.push(108);  // l
        mul_pat.push(40);  // (
        let mut do_pat: Vec<u8> = Vec::new();
        do_pat.push(100);  // d
        do_pat.push(111);  // o
        do_pat.push(40);  // (
        do_pat.push(41);  // )
        let mut dont_pat: Vec<u8> = Vec::new();
        dont_pat.push(100);  // d
        dont_pat.push(111);  // o
        dont_pat.push(110);  // n
        dont_pat.push(39);  // '
        dont_pat.push(116);  // t
        dont_pat.push(40);  // (
        dont_pat.push(41);  // )
        let mut muls: Vec<(bool, u64, u64)> = Vec::new();
        let mut enabled = true;
        let mut pos: usize = 0;
        while pos < bytes.len()
            invariant
                pos <= bytes@.len(),
            decreases bytes@.len() - pos,
        {
            if match_at(&bytes, pos, &do_pat) {
                enabled = true;
                pos += 4;
            } else if match_at(&bytes, pos, &dont_pat) {
                enabled = false;
                pos += 7;
            } else if match_at(&bytes, pos, &mul_pat) {
                let after = pos + 4;
                match scan_number(&bytes, after) {
                    Some((x, p2)) => {
                        if p2 < bytes.len() && bytes[p2] == 44 {
                            match scan_number(&bytes, p2 + 1) {
                                Some((y, p3)) => {
                                    if p3 < bytes.len() && bytes[p3] == 41 {
                                        muls.push((enabled, x, y));
                                        pos = p3 + 1;
                                    } else {
                                        pos += 1;
                                    }
                                },
                                None => {
                                    pos += 1;
                                },
                            }
                        } else {
                            pos += 1;
                        }
                    },
                    None => {
                        pos += 1;
                    },
                }
            } else {
                pos += 1;
            }
        }
        muls
    }

    fn part_one(parsed_input: &mut Vec<(bool, u64, u64)>) -> (res: String)
        ensures
            res@ == util::spec_u64_chars(spec_mul_sum(old(parsed_input)@, false)),
    {
        util::u64_to_string(Day03::sum_muls(parsed_input, false))
    }

    fn part_two(parsed_input: &mut Vec<(bool, u64, u64)>) -> (res: String)
        ensures
            res@ == util::spec_u64_chars(spec_mul_sum(old(parsed_input)@, true)),
    {
        util::u64_to_string(Day03::sum_muls(parsed_input, true))
    }
}

} // verus!
