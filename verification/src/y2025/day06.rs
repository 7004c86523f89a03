use crate::util;
use crate::Solution;
use vstd::prelude::*;
use vstd::string::StrSliceExecFns;

verus! {

pub struct Day06;

/// The value of one worksheet problem: the product of the operands under
/// `*`, their sum under `+`, zero under anything else (saturating).
pub open spec fn spec_term(op: Seq<char>, xs: Seq<u64>) -> int {
    if op.len() == 1 && op[0] == '*' {
        util::spec_cap_u64(util::spec_prod_u64(xs))
    } else if op.len() == 1 && op[0] == '+' {
        util::spec_cap_u64(util::spec_sum_u64(xs))
    } else {
        0
    }
}

/// The saturating sum of every problem's value.
pub open spec fn spec_calc(problems: Seq<(Seq<char>, Seq<u64>)>) -> int
    decreases problems.len(),
{
    if problems.len() == 0 {
        0
    } else {
        util::spec_cap_u64(
            spec_calc(problems.drop_last()) + spec_term(
                problems.last().0,
                problems.last().1,
            ),
        )
    }
}

pub open spec fn problems_view(problems: Seq<(String, Vec<u64>)>) -> Seq<(Seq<char>, Seq<u64>)> {
    problems.map_values(|p: (String, Vec<u64>)| (p.0@, p.1@))
}

pub proof fn lemma_calc_range(problems: Seq<(Seq<char>, Seq<u64>)>)
    ensures
        0 <= spec_calc(problems) <= u64::MAX,
    decreases problems.len(),
{
    if problems.len() > 0 {
        lemma_calc_range(problems.drop_last());
        util::lemma_sum_nonneg(problems.last().1);
        util::lemma_prod_nonneg(problems.last().1);
    }
}

impl Day06 {
    /// The grand total of all the worksheet's problems.
    pub fn calculate(problems: &Vec<(String, Vec<u64>)>) -> (res: u64)
        ensures
            res as int == spec_calc(problems_view(problems@)),
    {
        let ghost pv = problems_view(problems@);
        let mut total: u64 = 0;
        let mut i: usize = 0;
        while i < problems.len()
            invariant
                i <= problems@.len(),
                pv == problems_view(problems@),
                pv.len() == problems@.len(),
                total as int == spec_calc(pv.take(i as int)),
            decreases problems@.len() - i,
        {
            let op = &problems[i].0;
            let xs = &problems[i].1;
            proof {
                assert(pv[i as int] == (problems@[i as int].0@, problems@[i as int].1@));
            }
            let ol = op.as_str().unicode_len();
            let term: u64 = if ol == 1 && op.as_str().get_char(0) == '*' {
                util::prod_sat_u64(xs)
            } else if ol == 1 && op.as_str().get_char(0) == '+' {
                util::sum_sat_u64(xs)
            } else {
                0
            };
            proof {
                assert(term as int == spec_term(pv[i as int].0, pv[i as int].1));
                assert(pv.take(i + 1).drop_last() =~= pv.take(i as int));
                assert(pv.take(i + 1).last() == pv[i as int]);
                lemma_calc_range(pv.take(i as int));
            }
            total = util::sat_add(total, term);
            i += 1;
        }
        proof {
            assert(pv.take(pv.len() as int) =~= pv);
        }
        total
    }

    /// Reads the worksheet column-wise: each column of numbers above an
    /// operator forms one problem.
    pub fn parse_input_one(input_lines: &str) -> Vec<(String, Vec<u64>)> {
        let bytes = input_lines.as_bytes_vec();
        let ls = util::lines(&bytes);
        if ls.len() < 2 {
            return Vec::new();
        }
        let rows = ls.len() - 1;
        // numbers per row, in column order
        let mut tmp: Vec<Vec<u64>> = Vec::new();
        let mut r: usize = 0;
        while r < rows
            invariant
                rows < ls@.len(),
            decreases rows - r,
        {
            let toks = util::tokens(&ls[r]);
            let mut row: Vec<u64> = Vec::new();
            let mut k: usize = 0;
            while k < toks.len()
                decreases toks@.len() - k,
            {
                match util::parse_u64(&toks[k]) {
                    Some(n) => row.push(n),
                    None => row.push(0),
                }
                k += 1;
            }
            tmp.push(row);
            r += 1;
        }
        let ops = util::tokens(&ls[rows]);
        let mut problems: Vec<(String, Vec<u64>)> = Vec::new();
        let mut c: usize = 0;
        while c < ops.len()
            invariant
                rows < ls@.len(),
            decreases ops@.len() - c,
        {
            let mut operands: Vec<u64> = Vec::new();
            let mut r2: usize = 0;
            while r2 < tmp.len()
                decreases tmp@.len() - r2,
            {
                if c < tmp[r2].len() {
                    operands.push(tmp[r2][c]);
                }
                r2 += 1;
            }
            let op = if ops[c].len() == 1 {
                byte_to_string(ops[c][0])
            } else {
                String::new()
            };
            problems.push((op, operands));
            c += 1;
        }
        problems
    }

    /// Reads the worksheet by literal columns: runs of digit columns form a
    /// problem's operands, blank columns separate problems.
    pub fn parse_input_two(input_lines: &str) -> Vec<(String, Vec<u64>)> {
        let bytes = input_lines.as_bytes_vec();
        let ls = util::lines(&bytes);
        if ls.len() < 2 {
            return Vec::new();
        }
        let rows = ls.len() - 1;
        let mut cols: usize = 0;
        let mut r: usize = 0;
        while r < rows
            invariant
                rows < ls@.len(),
            decreases rows - r,
        {
            if ls[r].len() > cols {
                cols = ls[r].len();
            }
            r += 1;
        }
        let mut operand_groups: Vec<Vec<u64>> = Vec::new();
        let mut group: Vec<u64> = Vec::new();
        let mut c: usize = 0;
        while c < cols
            invariant
                rows < ls@.len(),
            decreases cols - c,
        {
            let mut column: Vec<u8> = Vec::new();
            let mut r2: usize = 0;
            while r2 < rows
                invariant
                    rows < ls@.len(),
                decreases rows - r2,
            {
                if c < ls[r2].len() {
                    column.push(ls[r2][c]);
                }
                r2 += 1;
            }
            let trimmed = util::trim_ws(&column);
            match util::parse_u64(&trimmed) {
                Some(v) => group.push(v),
                None => {
                    operand_groups.push(group);
                    group = Vec::new();
                },
            }
            c += 1;
        }
        operand_groups.push(group);
        let ops = util::tokens(&ls[rows]);
        let mut problems: Vec<(String, Vec<u64>)> = Vec::new();
        let mut i: usize = 0;
        while i < ops.len() && i < operand_groups.len()
            invariant
                rows < ls@.len(),
            decreases ops@.len() - i,
        {
            // groups produced before the first operand column are empty
            let op = if ops[i].len() == 1 {
                byte_to_string(ops[i][0])
            } else {
                String::new()
            };
            let mut operands: Vec<u64> = Vec::new();
            let mut k: usize = 0;
            while k < operand_groups[i].len()
                invariant
                    i < operand_groups@.len(),
                decreases operand_groups@[i as int]@.len() - k,
            {
                operands.push(operand_groups[i][k]);
                k += 1;
            }
            problems.push((op, operands));
            i += 1;
        }
        problems
    }
}

/// The one-character string holding the given operator byte.
fn byte_to_string(b: u8) -> (r: String) {
    if b == 42 {
        "*".to_owned()
    } else if b == 43 {
        "+".to_owned()
    } else {
        String::new()
    }
}

impl Solution for Day06 {
    type ParsedInput = (Vec<(String, Vec<u64>)>, Vec<(String, Vec<u64>)>);

    fn parse_input(input_lines: &str) -> (Vec<(String, Vec<u64>)>, Vec<(String, Vec<u64>)>) {
        (Day06::parse_input_one(input_lines), Day06::parse_input_two(input_lines))
    }

    fn part_one(parsed_input: &mut (Vec<(String, Vec<u64>)>, Vec<(String, Vec<u64>)>)) -> (res:
        String)
        ensures
            res@ == util::spec_u64_chars(spec_calc(problems_view(old(parsed_input).0@))),
    {
        util::u64_to_string(Day06::calculate(&parsed_input.0))
    }

    fn part_two(parsed_input: &mut (Vec<(String, Vec<u64>)>, Vec<(String, Vec<u64>)>)) -> (res:
        String)
        ensures
            res@ == util::spec_u64_chars(spec_calc(problems_view(old(parsed_input).1@))),
    {
        util::u64_to_string(Day06::calculate(&parsed_input.1))
    }
}

} // verus!
