use crate::util;
use crate::Solution;
use vstd::prelude::*;
use vstd::string::StrSliceExecFns;

verus! {

pub struct Day01;

/// The summed distances between the two lists' entries, each matched by
/// rank.
pub open spec fn spec_dist_sum(a: Seq<i64>, b: Seq<i64>, n: int) -> int
    decreases n,
{
    if n <= 0 {
        0
    } else {
        util::spec_cap_u64(
            spec_dist_sum(a, b, n - 1) + if a[n - 1] >= b[n - 1] {
                a[n - 1] - b[n - 1]
            } else {
                b[n - 1] - a[n - 1]
            },
        )
    }
}

pub proof fn lemma_dist_sum_nonneg(a: Seq<i64>, b: Seq<i64>, n: int)
    ensures
        spec_dist_sum(a, b, n) >= 0,
    decreases n,
{
    if n > 0 {
        lemma_dist_sum_nonneg(a, b, n - 1);
    }
}

/// The similarity score: each left entry times how often it occurs on the
/// right, summed with clamping.
pub open spec fn spec_similarity(left: Seq<i64>, right: Seq<i64>, n: int) -> int
    decreases n,
{
    if n <= 0 {
        0
    } else {
        util::spec_clamp128(
            spec_similarity(left, right, n - 1) + left[n - 1] * util::spec_count_i64(
                right,
                left[n - 1],
            ),
        )
    }
}

impl Day01 {
    /// The total distance between the two lists, smallest entry to
    /// smallest entry and so on: the answer is pinned for the sorted pair
    /// of sequences, which the multiset equalities make unique.
    pub fn total_distance(left: &Vec<i64>, right: &Vec<i64>) -> (r: u64)
        requires
            left@.len() == right@.len(),
        ensures
            exists|sl: Seq<i64>, sr: Seq<i64>|
                {
                    &&& util::spec_sorted_i64(sl)
                    &&& util::spec_sorted_i64(sr)
                    &&& sl.to_multiset() == left@.to_multiset()
                    &&& sr.to_multiset() == right@.to_multiset()
                    &&& sl.len() == left@.len()
                    &&& r as int == util::spec_cap_u64(
                        #[trigger] spec_dist_sum(sl, sr, sl.len() as int),
                    )
                },
    {
        let sl = util::sorted_i64(clone_i64(left));
        let sr = util::sorted_i64(clone_i64(right));
        let mut acc: u64 = 0;
        let mut i: usize = 0;
        while i < sl.len()
            invariant
                i <= sl@.len(),
                sl@.len() == sr@.len(),
                acc as int == util::spec_cap_u64(spec_dist_sum(sl@, sr@, i as int)),
            decreases sl@.len() - i,
        {
            let a = sl[i];
            let b = sr[i];
            let d: u64 = if a >= b {
                ((a as i128) - (b as i128)) as u64
            } else {
                ((b as i128) - (a as i128)) as u64
            };
            proof {
                lemma_dist_sum_nonneg(sl@, sr@, i as int);
                util::lemma_cap_add(spec_dist_sum(sl@, sr@, i as int), d as int);
            }
            acc = util::sat_add(acc, d);
            i += 1;
        }
        proof {
            assert(util::spec_sorted_i64(sl@) && util::spec_sorted_i64(sr@));
        }
        acc
    }

    /// The similarity score of the two lists, clamped.
    pub fn similarity(left: &Vec<i64>, right: &Vec<i64>) -> (r: i128)
        ensures
            r as int == spec_similarity(left@, right@, left@.len() as int),
    {
        let mut acc: i128 = 0;
        let mut i: usize = 0;
        while i < left.len()
            invariant
                i <= left@.len(),
                acc as int == spec_similarity(left@, right@, i as int),
                -0x4000_0000_0000_0000_0000_0000_0000_0000 <= acc
                    <= 0x4000_0000_0000_0000_0000_0000_0000_0000,
            decreases left@.len() - i,
        {
            let l = left[i];
            let c = util::count_i64(right, l);
            proof {
                assert((l as int) * (c as int) <= 0x8000_0000_0000_0000 * 0xffff_ffff_ffff_ffff
                    && (l as int) * (c as int) >= -0x8000_0000_0000_0000 * 0xffff_ffff_ffff_ffff)
                    by (nonlinear_arith)
                    requires
                        -0x8000_0000_0000_0000 <= l as int <= 0x8000_0000_0000_0000,
                        0 <= c as int <= 0xffff_ffff_ffff_ffff,
                ;
            }
            let term: i128 = (l as i128) * (c as i128);
            acc = util::clamp_add_i128(acc, term);
            i += 1;
        }
        acc
    }
}

/// A plain copy of the list.
fn clone_i64(v: &Vec<i64>) -> (r: Vec<i64>)
    ensures
        r@ == v@,
{
    let mut r: Vec<i64> = Vec::new();
    let mut i: usize = 0;
    while i < v.len()
        invariant
            i <= v@.len(),
            r@ == v@.take(i as int),
        decreases v@.len() - i,
    {
        r.push(v[i]);
        proof {
            assert(r@ =~= v@.take(i + 1));
        }
        i += 1;
    }
    proof {
        assert(v@.take(v@.len() as int) =~= v@);
    }
    r
}

impl Solution for Day01 {
    type ParsedInput = (Vec<i64>, Vec<i64>);

    fn parse_input(input_lines: &str) -> (Vec<i64>, Vec<i64>) {
        let bytes = input_lines.as_bytes_vec();
        let ls = util::lines(&bytes);
        let mut left: Vec<i64> = Vec::new();
        let mut right: Vec<i64> = Vec::new();
        let mut i: usize = 0;
        while i < ls.len()
            invariant
                left@.len() == right@.len(),
            decreases ls@.len() - i,
        {
            let toks = util::tokens(&ls[i]);
            if toks.len() == 2 {
                match (util::parse_i64(&toks[0]), util::parse_i64(&toks[1])) {
                    (Some(a), Some(b)) => {
                        left.push(a);
                        right.push(b);
                    },
                    _ => {},
                }
            }
            i += 1;
        }
        (left, right)
    }

    fn part_one(parsed_input: &mut (Vec<i64>, Vec<i64>)) -> (res: String)
        ensures
            old(parsed_input).0@.len() == old(parsed_input).1@.len() ==> exists|
                sl: Seq<i64>,
                sr: Seq<i64>,
            |
                {
                    &&& util::spec_sorted_i64(sl)
                    &&& util::spec_sorted_i64(sr)
                    &&& sl.to_multiset() == old(parsed_input).0@.to_multiset()
                    &&& sr.to_multiset() == old(parsed_input).1@.to_multiset()
                    &&& sl.len() == old(parsed_input).0@.len()
                    &&& res@ == util::spec_u64_chars(
                        util::spec_cap_u64(#[trigger] spec_dist_sum(sl, sr, sl.len() as int)),
                    )
                },
            old(parsed_input).0@.len() != old(parsed_input).1@.len() ==> res@ == "0"@,
    {
        let (left, right) = parsed_input;
        if left.len() == right.len() {
            let d = Day01::total_distance(left, right);
            proof {
                let (sl, sr) = choose|sl: Seq<i64>, sr: Seq<i64>|
                    {
                        &&& util::spec_sorted_i64(sl)
                        &&& util::spec_sorted_i64(sr)
                        &&& sl.to_multiset() == left@.to_multiset()
                        &&& sr.to_multiset() == right@.to_multiset()
                        &&& sl.len() == left@.len()
                        &&& d as int == util::spec_cap_u64(
                            #[trigger] spec_dist_sum(sl, sr, sl.len() as int),
                        )
                    };
                assert(util::spec_sorted_i64(sl) && util::spec_sorted_i64(sr));
            }
            util::u64_to_string(d)
        } else {
            "0".to_owned()
        }
    }

    fn part_two(parsed_input: &mut (Vec<i64>, Vec<i64>)) -> (res: String)
        ensures
            res@ == util::spec_i64_chars(
                util::spec_clamp_to_i64(
                    spec_similarity(
                        old(parsed_input).0@,
                        old(parsed_input).1@,
                        old(parsed_input).0@.len() as int,
                    ),
                ),
            ),
    {
        let (left, right) = parsed_input;
        util::i128_to_clamped_string(Day01::similarity(left, right))
    }
}

} // verus!
