use crate::util;
use crate::Solution;
use vstd::prelude::*;
use vstd::string::StrSliceExecFns;

verus! {

pub struct Day06;

/// One race record: its duration and the distance to beat.
pub struct Record {
    pub time: u64,
    pub distance: u64,
}

/// How many hold times `t` in `0..=tmax` win: the boat moves
/// `t * (time - t)` and must beat `distance`.
pub open spec fn spec_ways_upto(time: int, distance: int, tmax: int) -> int
    decreases tmax + 1,
{
    if tmax < 0 {
        0
    } else {
        spec_ways_upto(time, distance, tmax - 1) + if tmax * (time - tmax) > distance {
            1int
        } else {
            0
        }
    }
}

pub proof fn lemma_ways_range(time: int, distance: int, tmax: int)
    requires
        distance >= 0,
    ensures
        0 <= spec_ways_upto(time, distance, tmax),
        tmax >= 0 ==> spec_ways_upto(time, distance, tmax) <= tmax,
    decreases tmax + 1,
{
    if tmax >= 0 {
        lemma_ways_range(time, distance, tmax - 1);
        if tmax == 0 {
            assert(0int * (time - 0) == 0) by (nonlinear_arith);
        }
    }
}

/// The per-race way counts, skipping races whose time is `u64::MAX`.
pub open spec fn spec_ways_list(records: Seq<Record>, i: int) -> Seq<u64>
    decreases i,
{
    if i <= 0 {
        Seq::empty()
    } else {
        let prev = spec_ways_list(records, i - 1);
        let rec = records[i - 1];
        if rec.time < u64::MAX {
            prev.push(spec_ways_upto(rec.time as int, rec.distance as int, rec.time as int) as u64)
        } else {
            prev
        }
    }
}

impl Day06 {
    /// The number of hold times that beat the record.
    #[verifier::loop_isolation(false)]
    pub fn ways_to_beat(record: &Record) -> (r: u64)
        requires
            record.time < u64::MAX,
        ensures
            r as int == spec_ways_upto(record.time as int, record.distance as int, record.time as int),
    {
        let time = record.time;
        let distance = record.distance;
        let mut count: u64 = 0;
        let mut t: u64 = 0;
        while t <= time
            invariant
                t <= time + 1,
                time < u64::MAX,
                count as int == spec_ways_upto(time as int, distance as int, t as int - 1),
                count <= t,
            decreases time + 1 - t,
        {
            proof {
                let tt: int = t as int;
                let rem: int = time as int - t as int;
                assert(tt * rem >= 0) by (nonlinear_arith)
                    requires
                        tt >= 0,
                        rem >= 0,
                ;
                assert(tt * rem < 0x100000000000000000000000000000000) by (nonlinear_arith)
                    requires
                        tt >= 0,
                        tt < 0x10000000000000000,
                        rem >= 0,
                        rem < 0x10000000000000000,
                ;
                lemma_ways_range(time as int, distance as int, t as int - 1);
            }
            let moved = (t as u128) * ((time - t) as u128);
            if moved > distance as u128 {
                count = count + 1;
            }
            t += 1;
        }
        count
    }
}

impl Solution for Day06 {
    type ParsedInput = (Vec<Record>, Record);

    fn parse_input(input_lines: &str) -> (Vec<Record>, Record) {
        let bytes = input_lines.as_bytes_vec();
        let ls = util::lines(&bytes);
        let mut times: Vec<u64> = Vec::new();
        let mut dists: Vec<u64> = Vec::new();
        if ls.len() >= 2 {
            let t1 = util::tokens(&ls[0]);
            let mut k: usize = 1;
            while k < t1.len()
                decreases t1@.len() - k,
            {
                match util::parse_u64(&t1[k]) {
                    Some(n) => times.push(n),
                    None => {},
                }
                k += 1;
            }
            let t2 = util::tokens(&ls[1]);
            let mut k2: usize = 1;
            while k2 < t2.len()
                decreases t2@.len() - k2,
            {
                match util::parse_u64(&t2[k2]) {
                    Some(n) => dists.push(n),
                    None => {},
                }
                k2 += 1;
            }
        }
        let mut records: Vec<Record> = Vec::new();
        let mut i: usize = 0;
        while i < times.len() && i < dists.len()
            decreases times@.len() - i,
        {
            records.push(Record { time: times[i], distance: dists[i] });
            i += 1;
        }
        // the one big race: every digit of each line glued together
        let mut big: (u64, u64) = (0, 0);
        if ls.len() >= 2 {
            let mut digits: Vec<u8> = Vec::new();
            let line = &ls[0];
            let mut k: usize = 0;
            while k < line.len()
                decreases line@.len() - k,
            {
                if line[k] >= 48 && line[k] <= 57 {
                    digits.push(line[k]);
                }
                k += 1;
            }
            let t = match util::parse_u64(&digits) {
                Some(n) => n,
                None => 0,
            };
            let mut digits2: Vec<u8> = Vec::new();
            let line2 = &ls[1];
            let mut k2: usize = 0;
            while k2 < line2.len()
                decreases line2@.len() - k2,
            {
                if line2[k2] >= 48 && line2[k2] <= 57 {
                    digits2.push(line2[k2]);
                }
                k2 += 1;
            }
            let d = match util::parse_u64(&digits2) {
                Some(n) => n,
                None => 0,
            };
            big = (t, d);
        }
        (records, Record { time: big.0, distance: big.1 })
    }

    fn part_one(parsed_input: &mut (Vec<Record>, Record)) -> (res: String)
        ensures
            res@ == util::spec_u64_chars(
                util::spec_cap_u64(
                    util::spec_prod_u64(
                        spec_ways_list(old(parsed_input).0@, old(parsed_input).0@.len() as int),
                    ),
                ),
            ),
    {
        let (records, _) = parsed_input;
        let mut ways: Vec<u64> = Vec::new();
        let mut i: usize = 0;
        while i < records.len()
            invariant
                i <= records@.len(),
                ways@ == spec_ways_list(records@, i as int),
            decreases records@.len() - i,
        {
            let ghost pre = ways@;
            if records[i].time < u64::MAX {
                ways.push(Day06::ways_to_beat(&records[i]));
            }
            proof {
                if records@[i as int].time < u64::MAX {
                    lemma_ways_range(
                        records@[i as int].time as int,
                        records@[i as int].distance as int,
                        records@[i as int].time as int,
                    );
                }
                assert(ways@ =~= spec_ways_list(records@, i as int + 1));
            }
            i += 1;
        }
        util::u64_to_string(util::prod_sat_u64(&ways))
    }

    fn part_two(parsed_input: &mut (Vec<Record>, Record)) -> (res: String)
        ensures
            old(parsed_input).1.time < u64::MAX ==> res@ == util::spec_u64_chars(
                spec_ways_upto(
                    old(parsed_input).1.time as int,
                    old(parsed_input).1.distance as int,
                    old(parsed_input).1.time as int,
                ),
            ),
            old(parsed_input).1.time == u64::MAX ==> res@ == "0"@,
    {
        let (_, record) = parsed_input;
        if record.time < u64::MAX {
            util::u64_to_string(Day06::ways_to_beat(record))
        } else {
            "0".to_owned()
        }
    }
}

} // verus!
