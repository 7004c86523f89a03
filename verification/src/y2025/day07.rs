use crate::util;
use crate::Solution;
use vstd::prelude::*;
use vstd::string::StrSliceExecFns;

verus! {

pub struct Day07;

/// One row of the beam walk over the first `c` columns: the beams handed
/// to the next row, and the split count so far (saturating).
pub open spec fn spec_split_row(
    line: Seq<u8>,
    beams: Seq<bool>,
    width: int,
    total0: int,
    c: int,
) -> (Seq<bool>, int)
    decreases c,
{
    if c <= 0 {
        (Seq::new(width as nat, |i: int| false), total0)
    } else {
        let prev = spec_split_row(line, beams, width, total0, c - 1);
        let next = prev.0;
        let t = prev.1;
        let splitter = c - 1 < line.len() && line[c - 1] == 94;
        if beams[c - 1] {
            if splitter {
                let n1 = if c - 1 >= 1 {
                    next.update(c - 2, true)
                } else {
                    next
                };
                let n2 = if c < width {
                    n1.update(c, true)
                } else {
                    n1
                };
                (n2, util::spec_cap_u64(t + 1))
            } else {
                (next.update(c - 1, true), t)
            }
        } else {
            (next, t)
        }
    }
}

/// The beams and split count after the first `row` rows.
pub open spec fn spec_split_state(diagram: Seq<Vec<u8>>, width: int, row: int) -> (Seq<bool>, int)
    decreases row,
{
    if row <= 1 {
        (Seq::new(width as nat, |i: int| diagram[0]@[i] == 83), 0)
    } else {
        let prev = spec_split_state(diagram, width, row - 1);
        spec_split_row(diagram[row - 1]@, prev.0, width, prev.1, width)
    }
}

/// How many times a beam meets a splitter over the whole diagram.
pub open spec fn spec_count_splits(diagram: Seq<Vec<u8>>) -> int {
    if diagram.len() == 0 || diagram[0]@.len() == 0 {
        0
    } else {
        spec_split_state(diagram, diagram[0]@.len() as int, diagram.len() as int).1
    }
}

/// One row of the timeline walk over the first `c` columns: each beam's
/// weight flows down, splitting at splitters and merging (saturating).
pub open spec fn spec_tl_row(line: Seq<u8>, wts: Seq<u64>, width: int, c: int) -> Seq<u64>
    decreases c,
{
    if c <= 0 {
        Seq::new(width as nat, |i: int| 0u64)
    } else {
        let next = spec_tl_row(line, wts, width, c - 1);
        let splitter = c - 1 < line.len() && line[c - 1] == 94;
        let w = wts[c - 1];
        if w > 0 {
            if splitter {
                let n1 = if c - 1 >= 1 {
                    next.update(c - 2, util::spec_cap_u64(next[c - 2] + w) as u64)
                } else {
                    next
                };
                let n2 = if c < width {
                    n1.update(c, util::spec_cap_u64(n1[c] + w) as u64)
                } else {
                    n1
                };
                n2
            } else {
                next.update(c - 1, util::spec_cap_u64(next[c - 1] + w) as u64)
            }
        } else {
            next
        }
    }
}

/// The timeline weights after the first `row` rows.
pub open spec fn spec_tl_state(diagram: Seq<Vec<u8>>, width: int, row: int) -> Seq<u64>
    decreases row,
{
    if row <= 1 {
        Seq::new(
            width as nat,
            |i: int|
                if diagram[0]@[i] == 83 {
                    1u64
                } else {
                    0u64
                },
        )
    } else {
        spec_tl_row(diagram[row - 1]@, spec_tl_state(diagram, width, row - 1), width, width)
    }
}

/// How many distinct timelines leave the diagram (saturating).
pub open spec fn spec_count_timelines(diagram: Seq<Vec<u8>>) -> int {
    if diagram.len() == 0 || diagram[0]@.len() == 0 {
        0
    } else {
        util::spec_cap_u64(
            util::spec_sum_u64(
                spec_tl_state(diagram, diagram[0]@.len() as int, diagram.len() as int),
            ),
        )
    }
}

impl Day07 {
    /// How many times a beam meets a splitter, walking the diagram row by
    /// row (saturating).
    #[verifier::loop_isolation(false)]
    pub fn count_splits(diagram: &Vec<Vec<u8>>) -> (r: u64)
        ensures
            r as int == spec_count_splits(diagram@),
    {
        if diagram.len() == 0 || diagram[0].len() == 0 {
            return 0;
        }
        let width = diagram[0].len();
        let mut beams: Vec<bool> = Vec::new();
        let mut c: usize = 0;
        while c < width
            invariant
                c <= width,
                beams@.len() == c,
                width == diagram@[0]@.len(),
                diagram@.len() > 0,
                forall|i: int| 0 <= i < c ==> #[trigger] beams@[i] == (diagram@[0]@[i] == 83),
            decreases width - c,
        {
            beams.push(diagram[0][c] == 83);
            c += 1;
        }
        proof {
            assert(beams@ =~= spec_split_state(diagram@, width as int, 1).0);
        }
        let mut total: u64 = 0;
        let mut row: usize = 1;
        while row < diagram.len()
            invariant
                1 <= row <= diagram@.len(),
                beams@.len() == width,
                (beams@, total as int) == spec_split_state(diagram@, width as int, row as int),
            decreases diagram@.len() - row,
        {
            let ghost ebeams = beams@;
            let ghost etotal = total as int;
            let line = &diagram[row];
            let mut next: Vec<bool> = Vec::new();
            let mut c2: usize = 0;
            while c2 < width
                invariant
                    c2 <= width,
                    next@.len() == c2,
                    beams@.len() == width,
                    forall|i: int| 0 <= i < c2 ==> !(#[trigger] next@[i]),
                decreases width - c2,
            {
                next.push(false);
                c2 += 1;
            }
            proof {
                assert(next@ =~= spec_split_row(line@, ebeams, width as int, etotal, 0).0);
            }
            let mut c3: usize = 0;
            while c3 < width
                invariant
                    c3 <= width,
                    next@.len() == width,
                    beams@.len() == width,
                    beams@ == ebeams,
                    line@ == diagram@[row as int]@,
                    row < diagram@.len(),
                    (next@, total as int) == spec_split_row(
                        line@,
                        ebeams,
                        width as int,
                        etotal,
                        c3 as int,
                    ),
                decreases width - c3,
            {
                let splitter = c3 < line.len() && line[c3] == 94;
                if beams[c3] {
                    if splitter {
                        total = util::sat_add(total, 1);
                        if c3 >= 1 {
                            next.set(c3 - 1, true);
                        }
                        if c3 + 1 < width {
                            next.set(c3 + 1, true);
                        }
                    } else {
                        next.set(c3, true);
                    }
                }
                c3 += 1;
            }
            beams = next;
            row += 1;
        }
        total
    }

    /// How many distinct timelines leave the diagram: beam weights split
    /// and merge row by row (saturating).
    #[verifier::loop_isolation(false)]
    pub fn count_timelines(diagram: &Vec<Vec<u8>>) -> (r: u64)
        ensures
            r as int == spec_count_timelines(diagram@),
    {
        if diagram.len() == 0 || diagram[0].len() == 0 {
            return 0;
        }
        let width = diagram[0].len();
        let mut weights: Vec<u64> = Vec::new();
        let mut c: usize = 0;
        while c < width
            invariant
                c <= width,
                weights@.len() == c,
                width == diagram@[0]@.len(),
                diagram@.len() > 0,
                forall|i: int|
                    0 <= i < c ==> #[trigger] weights@[i] == (if diagram@[0]@[i] == 83 {
                        1u64
                    } else {
                        0u64
                    }),
            decreases width - c,
        {
            weights.push(
                if diagram[0][c] == 83 {
                    1
                } else {
                    0
                },
            );
            c += 1;
        }
        proof {
            assert(weights@ =~= spec_tl_state(diagram@, width as int, 1));
        }
        let mut row: usize = 1;
        while row < diagram.len()
            invariant
                1 <= row <= diagram@.len(),
                weights@.len() == width,
                weights@ == spec_tl_state(diagram@, width as int, row as int),
            decreases diagram@.len() - row,
        {
            let ghost ewts = weights@;
            let line = &diagram[row];
            let mut next: Vec<u64> = Vec::new();
            let mut c2: usize = 0;
            while c2 < width
                invariant
                    c2 <= width,
                    next@.len() == c2,
                    weights@.len() == width,
                    forall|i: int| 0 <= i < c2 ==> #[trigger] next@[i] == 0u64,
                decreases width - c2,
            {
                next.push(0);
                c2 += 1;
            }
            proof {
                assert(next@ =~= spec_tl_row(line@, ewts, width as int, 0));
            }
            let mut c3: usize = 0;
            while c3 < width
                invariant
                    c3 <= width,
                    next@.len() == width,
                    weights@.len() == width,
                    weights@ == ewts,
                    line@ == diagram@[row as int]@,
                    row < diagram@.len(),
                    next@ == spec_tl_row(line@, ewts, width as int, c3 as int),
                decreases width - c3,
            {
                let splitter = c3 < line.len() && line[c3] == 94;
                let w = weights[c3];
                if w > 0 {
                    if splitter {
                        if c3 >= 1 {
                            let merged = util::sat_add(next[c3 - 1], w);
                            next.set(c3 - 1, merged);
                        }
                        if c3 + 1 < width {
                            let merged = util::sat_add(next[c3 + 1], w);
                            next.set(c3 + 1, merged);
                        }
                    } else {
                        let merged = util::sat_add(next[c3], w);
                        next.set(c3, merged);
                    }
                }
                proof {
                    assert(next@ =~= spec_tl_row(line@, ewts, width as int, c3 as int + 1));
                }
                c3 += 1;
            }
            weights = next;
            row += 1;
        }
        util::sum_sat_u64(&weights)
    }
}

impl Solution for Day07 {
    type ParsedInput = Vec<Vec<u8>>;

    fn parse_input(input_lines: &str) -> Vec<Vec<u8>> {
        let bytes = input_lines.as_bytes_vec();
        util::lines(&bytes)
    }

    fn part_one(parsed_input: &mut Vec<Vec<u8>>) -> (res: String)
        ensures
            res@ == util::spec_u64_chars(spec_count_splits(old(parsed_input)@)),
    {
        util::u64_to_string(Day07::count_splits(parsed_input))
    }

    fn part_two(parsed_input: &mut Vec<Vec<u8>>) -> (res: String)
        ensures
            res@ == util::spec_u64_chars(spec_count_timelines(old(parsed_input)@)),
    {
        util::u64_to_string(Day07::count_timelines(parsed_input))
    }
}

} // verus!
