use crate::util;
use crate::Solution;
use vstd::prelude::*;
use vstd::string::StrSliceExecFns;

verus! {

pub struct Day01;

/// One tick of the dial: a step left (negative) or right, wrapped into
/// 0..100.
pub open spec fn spec_tick(dial: int, neg: bool) -> int {
    let d = if neg {
        dial - 1
    } else {
        dial + 1
    };
    if d < 0 {
        d + 100
    } else if d > 99 {
        d - 100
    } else {
        d
    }
}

/// Turning the dial `ticks` single steps: the final position and how often
/// it passed zero.
pub open spec fn spec_run(dial: int, ticks: int, neg: bool) -> (int, int)
    decreases ticks,
{
    if ticks <= 0 {
        (dial, 0)
    } else {
        let p = spec_run(dial, ticks - 1, neg);
        let d = spec_tick(p.0, neg);
        (d, p.1 + (if d == 0 {
            1int
        } else {
            0
        }))
    }
}

/// Following every rotation from the start position 50: the number of
/// rotations that end on zero, and the number of ticks that land on zero.
pub open spec fn spec_follow(rots: Seq<i32>) -> (int, int, int)
    decreases rots.len(),
{
    if rots.len() == 0 {
        (50, 0, 0)
    } else {
        let p = spec_follow(rots.drop_last());
        let r = rots.last() as int;
        let ticks = if r < 0 {
            -r
        } else {
            r
        };
        let run = spec_run(p.0, ticks, r < 0);
        (
            run.0,
            p.1 + (if run.0 == 0 {
                1int
            } else {
                0
            }),
            p.2 + run.1,
        )
    }
}

pub proof fn lemma_run_dial_range(dial: int, ticks: int, neg: bool)
    requires
        0 <= dial <= 99,
        0 <= ticks,
    ensures
        0 <= spec_run(dial, ticks, neg).0 <= 99,
        0 <= spec_run(dial, ticks, neg).1 <= ticks,
    decreases ticks,
{
    if ticks > 0 {
        lemma_run_dial_range(dial, ticks - 1, neg);
    }
}

pub proof fn lemma_follow_nonneg(rots: Seq<i32>)
    ensures
        0 <= spec_follow(rots).0 <= 99,
        spec_follow(rots).1 >= 0,
        spec_follow(rots).2 >= 0,
    decreases rots.len(),
{
    if rots.len() > 0 {
        lemma_follow_nonneg(rots.drop_last());
        let p = spec_follow(rots.drop_last());
        let r = rots.last() as int;
        let ticks = if r < 0 {
            -r
        } else {
            r
        };
        lemma_run_dial_range(p.0, ticks, r < 0);
    }
}

impl Day01 {
    /// How many rotations end on zero, and how many ticks pass zero,
    /// starting from 50 (counts saturate at `u64::MAX`).
    pub fn follow_rotations(rotations: &Vec<i32>) -> (res: (u64, u64))
        ensures
            res.0 as int == util::spec_cap_u64(spec_follow(rotations@).1),
            res.1 as int == util::spec_cap_u64(spec_follow(rotations@).2),
    {
        let mut dial: i32 = 50;
        let mut end: u64 = 0;
        let mut total: u64 = 0;
        let mut i: usize = 0;
        while i < rotations.len()
            invariant
                i <= rotations@.len(),
                0 <= dial <= 99,
                dial as int == spec_follow(rotations@.take(i as int)).0,
                end as int == util::spec_cap_u64(spec_follow(rotations@.take(i as int)).1),
                total as int == util::spec_cap_u64(spec_follow(rotations@.take(i as int)).2),
            decreases rotations@.len() - i,
        {
            let r = rotations[i];
            let neg = r < 0;
            let ticks: u64 = if r < 0 {
                (-(r as i64)) as u64
            } else {
                r as u64
            };
            let ghost pre = spec_follow(rotations@.take(i as int));
            let mut t: u64 = 0;
            let mut zeros: u64 = 0;
            while t < ticks
                invariant
                    t <= ticks,
                    0 <= dial <= 99,
                    neg == (r < 0),
                    ticks as int == if r < 0 {
                        -(r as int)
                    } else {
                        r as int
                    },
                    dial as int == spec_run(pre.0, t as int, neg).0,
                    zeros as int == spec_run(pre.0, t as int, neg).1,
                    zeros <= t,
                    0 <= pre.0 <= 99,
                decreases ticks - t,
            {
                if neg {
                    dial = dial - 1;
                } else {
                    dial = dial + 1;
                }
                if dial < 0 {
                    dial = dial + 100;
                }
                if dial > 99 {
                    dial = dial - 100;
                }
                if dial == 0 {
                    zeros = zeros + 1;
                }
                t += 1;
            }
            proof {
                assert(rotations@.take(i + 1).drop_last() =~= rotations@.take(i as int));
                assert(rotations@.take(i + 1).last() == r);
                lemma_follow_nonneg(rotations@.take(i as int));
                lemma_run_dial_range(pre.0, ticks as int, neg);
                util::lemma_cap_add(pre.2, spec_run(pre.0, ticks as int, neg).1);
            }
            total = util::sat_add(total, zeros);
            if dial == 0 {
                proof {
                    util::lemma_cap_add(pre.1, 1);
                }
                end = util::sat_add(end, 1);
            }
            i += 1;
        }
        proof {
            assert(rotations@.take(rotations@.len() as int) =~= rotations@);
        }
        (end, total)
    }
}

impl Solution for Day01 {
    type ParsedInput = Vec<i32>;

    fn parse_input(input_lines: &str) -> Vec<i32> {
        let bytes = input_lines.as_bytes_vec();
        let ls = util::lines(&bytes);
        let mut rots: Vec<i32> = Vec::new();
        let mut i: usize = 0;
        while i < ls.len()
            decreases ls@.len() - i,
        {
            let line = &ls[i];
            if line.len() >= 2 {
                let mut digits: Vec<u8> = Vec::new();
                let mut k: usize = 1;
                while k < line.len()
                    decreases line@.len() - k,
                {
                    digits.push(line[k]);
                    k += 1;
                }
                match util::parse_u64(&digits) {
                    Some(n) => {
                        if n <= i32::MAX as u64 {
                            if line[0] == 76 {
                                // 'L'
                                rots.push(-(n as i32));
                            } else {
                                rots.push(n as i32);
                            }
                        }
                    },
                    None => {},
                }
            }
            i += 1;
        }
        rots
    }

    fn part_one(parsed_input: &mut Vec<i32>) -> (res: String)
        ensures
            res@ == util::spec_u64_chars(util::spec_cap_u64(spec_follow(old(parsed_input)@).1)),
    {
        let (end, _) = Day01::follow_rotations(parsed_input);
        util::u64_to_string(end)
    }

    fn part_two(parsed_input: &mut Vec<i32>) -> (res: String)
        ensures
            res@ == util::spec_u64_chars(util::spec_cap_u64(spec_follow(old(parsed_input)@).2)),
    {
        let (_, total) = Day01::follow_rotations(parsed_input);
        util::u64_to_string(total)
    }
}

} // verus!
