use crate::util;
use crate::Solution;
use vstd::prelude::*;
use vstd::string::StrSliceExecFns;

verus! {

pub struct Day05;

/// Whether some range of the list covers `id`.
pub open spec fn spec_in_any(ranges: Seq<(u64, u64)>, id: u64) -> bool {
    exists|j: int| 0 <= j < ranges.len() && (#[trigger] ranges[j]).0 <= id <= ranges[j].1
}

/// The ids covered by at least one range, in their given order.
pub open spec fn spec_fresh(ranges: Seq<(u64, u64)>, ids: Seq<u64>) -> Seq<u64>
    decreases ids.len(),
{
    if ids.len() == 0 {
        Seq::empty()
    } else if spec_in_any(ranges, ids.last()) {
        spec_fresh(ranges, ids.drop_last()).push(ids.last())
    } else {
        spec_fresh(ranges, ids.drop_last())
    }
}

impl Day05 {
    /// The ids that fall inside at least one of the given ranges.
    pub fn fresh_ids(ranges: &Vec<(u64, u64)>, ids: &Vec<u64>) -> (r: Vec<u64>)
        ensures
            r@ == spec_fresh(ranges@, ids@),
    {
        let mut r: Vec<u64> = Vec::new();
        let mut i: usize = 0;
        while i < ids.len()
            invariant
                i <= ids@.len(),
                r@ == spec_fresh(ranges@, ids@.take(i as int)),
            decreases ids@.len() - i,
        {
            let id = ids[i];
            let mut j: usize = 0;
            let mut found = false;
            while j < ranges.len()
                invariant
                    j <= ranges@.len(),
                    found == exists|k: int|
                        0 <= k < j && (#[trigger] ranges@[k]).0 <= id <= ranges@[k].1,
                decreases ranges@.len() - j,
            {
                let (a, b) = ranges[j];
                if a <= id && id <= b {
                    found = true;
                }
                j += 1;
            }
            proof {
                assert(found == spec_in_any(ranges@, id));
                assert(ids@.take(i + 1).drop_last() =~= ids@.take(i as int));
                assert(ids@.take(i + 1).last() == id);
            }
            if found {
                r.push(id);
            }
            i += 1;
        }
        proof {
            assert(ids@.take(ids@.len() as int) =~= ids@);
        }
        r
    }
}

impl Solution for Day05 {
    type ParsedInput = (Vec<(u64, u64)>, Vec<u64>);

    fn parse_input(input_lines: &str) -> (Vec<(u64, u64)>, Vec<u64>) {
        let bytes = input_lines.as_bytes_vec();
        let ls = util::lines(&bytes);
        let mut ranges: Vec<(u64, u64)> = Vec::new();
        let mut ids: Vec<u64> = Vec::new();
        let mut in_ids = false;
        let mut i: usize = 0;
        while i < ls.len()
            decreases ls@.len() - i,
        {
            if ls[i].len() == 0 {
                in_ids = true;
            } else if in_ids {
                match util::parse_u64(&ls[i]) {
                    Some(n) => ids.push(n),
                    None => {},
                }
            } else {
                let parts = util::split_bytes(&ls[i], 45);
                if parts.len() == 2 {
                    match (util::parse_u64(&parts[0]), util::parse_u64(&parts[1])) {
                        (Some(a), Some(b)) => ranges.push((a, b)),
                        _ => {},
                    }
                }
            }
            i += 1;
        }
        (ranges, ids)
    }

    fn part_one(parsed_input: &mut (Vec<(u64, u64)>, Vec<u64>)) -> (res: String)
        ensures
            res@ == util::spec_u64_chars(
                spec_fresh(old(parsed_input).0@, old(parsed_input).1@).len() as int,
            ),
    {
        let (ranges, ids) = parsed_input;
        let fresh = Day05::fresh_ids(ranges, ids);
        util::usize_to_string(fresh.len())
    }

    fn part_two(parsed_input: &mut (Vec<(u64, u64)>, Vec<u64>)) -> (res: String)
        ensures
            res@ == "0"@,
    {
        "0".to_owned()
    }
}

} // verus!
