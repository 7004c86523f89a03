use crate::util;
use crate::Solution;
use vstd::prelude::*;
use vstd::string::StrSliceExecFns;

verus! {

pub struct Day01;

/// The digit token starting at `i`, if any: an ASCII digit or a spelled
/// digit word (`-1` when none starts here).
pub open spec fn spec_tok(s: Seq<u8>, i: int) -> int {
    if 0 <= i < s.len() && 48 <= s[i] <= 57 {
        s[i] - 48
    } else if spec_word_at(s, i, seq![122u8, 101, 114, 111]) {
        0
    } else if spec_word_at(s, i, seq![111u8, 110, 101]) {
        1
    } else if spec_word_at(s, i, seq![116u8, 119, 111]) {
        2
    } else if spec_word_at(s, i, seq![116u8, 104, 114, 101, 101]) {
        3
    } else if spec_word_at(s, i, seq![102u8, 111, 117, 114]) {
        4
    } else if spec_word_at(s, i, seq![102u8, 105, 118, 101]) {
        5
    } else if spec_word_at(s, i, seq![115u8, 105, 120]) {
        6
    } else if spec_word_at(s, i, seq![115u8, 101, 118, 101, 110]) {
        7
    } else if spec_word_at(s, i, seq![101u8, 105, 103, 104, 116]) {
        8
    } else if spec_word_at(s, i, seq![110u8, 105, 110, 101]) {
        9
    } else {
        -1
    }
}

pub open spec fn spec_word_at(s: Seq<u8>, i: int, w: Seq<u8>) -> bool {
    0 <= i && i + w.len() <= s.len() && s.subrange(i, i + w.len()) == w
}

/// The first digit token at or after `i`, scanning forward.
pub open spec fn spec_first_tok(s: Seq<u8>, i: int) -> Option<u32>
    decreases s.len() - i,
{
    if i < 0 || i >= s.len() {
        None
    } else if spec_tok(s, i) >= 0 {
        Some(spec_tok(s, i) as u32)
    } else {
        spec_first_tok(s, i + 1)
    }
}

/// The first digit token at or before `i`, scanning backward.
pub open spec fn spec_last_tok(s: Seq<u8>, i: int) -> Option<u32>
    decreases i + 1,
{
    if i < 0 || i >= s.len() {
        None
    } else if spec_tok(s, i) >= 0 {
        Some(spec_tok(s, i) as u32)
    } else {
        spec_last_tok(s, i - 1)
    }
}

pub proof fn lemma_first_tok_small(s: Seq<u8>, i: int)
    ensures
        spec_first_tok(s, i).is_some() ==> spec_first_tok(s, i).unwrap() <= 9,
    decreases s.len() - i,
{
    if 0 <= i < s.len() && spec_tok(s, i) < 0 {
        lemma_first_tok_small(s, i + 1);
    }
}

pub proof fn lemma_last_tok_small(s: Seq<u8>, i: int)
    ensures
        spec_last_tok(s, i).is_some() ==> spec_last_tok(s, i).unwrap() <= 9,
    decreases i + 1,
{
    if 0 <= i < s.len() && spec_tok(s, i) < 0 {
        lemma_last_tok_small(s, i - 1);
    }
}

impl Day01 {
    /// The first (or, reversed, the last) digit of the line, spelled
    /// digits included; `None` when the line has none.
    #[verifier::loop_isolation(false)]
    pub fn find_digit(line: &Vec<u8>, reverse: bool) -> (r: Option<u32>)
        ensures
            !reverse ==> r == spec_first_tok(line@, 0),
            reverse ==> r == spec_last_tok(line@, line@.len() - 1),
    {
        if line.len() == 0 {
            return None;
        }
        if !reverse {
            let mut i: usize = 0;
            while i < line.len()
                invariant
                    i <= line@.len(),
                    spec_first_tok(line@, i as int) == spec_first_tok(line@, 0),
                decreases line@.len() - i,
            {
                match tok_at(line, i) {
                    Some(d) => {
                        proof {
                            assert(spec_first_tok(line@, i as int) == Some(d));
                        }
                        return Some(d);
                    },
                    None => {},
                }
                i += 1;
            }
            None
        } else {
            let mut i: usize = line.len();
            while i > 0
                invariant
                    i <= line@.len(),
                    spec_last_tok(line@, i - 1) == spec_last_tok(line@, line@.len() - 1),
                decreases i,
            {
                i -= 1;
                match tok_at(line, i) {
                    Some(d) => {
                        proof {
                            assert(spec_last_tok(line@, i as int) == Some(d));
                        }
                        return Some(d);
                    },
                    None => {},
                }
            }
            None
        }
    }
}

/// The digit token starting exactly at `i`, if any.
fn tok_at(line: &Vec<u8>, i: usize) -> (r: Option<u32>)
    requires
        i < line@.len(),
    ensures
        match r {
            Some(d) => spec_tok(line@, i as int) == d && d <= 9,
            None => spec_tok(line@, i as int) == -1,
        },
{
    let b = line[i];
    if b >= 48 && b <= 57 {
        return Some((b - 48) as u32);
    }
    let mut w0: Vec<u8> = Vec::new();
    w0.push(122);
    w0.push(101);
    w0.push(114);
    w0.push(111);
    proof {
        assert(w0@ =~= seq![122u8, 101, 114, 111]);
    }
    if check_word(line, i, &w0) {
        return Some(0);
    }
    let mut w1: Vec<u8> = Vec::new();
    w1.push(111);
    w1.push(110);
    w1.push(101);
    proof {
        assert(w1@ =~= seq![111u8, 110, 101]);
    }
    if check_word(line, i, &w1) {
        return Some(1);
    }
    let mut w2: Vec<u8> = Vec::new();
    w2.push(116);
    w2.push(119);
    w2.push(111);
    proof {
        assert(w2@ =~= seq![116u8, 119, 111]);
    }
    if check_word(line, i, &w2) {
        return Some(2);
    }
    let mut w3: Vec<u8> = Vec::new();
    w3.push(116);
    w3.push(104);
    w3.push(114);
    w3.push(101);
    w3.push(101);
    proof {
        assert(w3@ =~= seq![116u8, 104, 114, 101, 101]);
    }
    if check_word(line, i, &w3) {
        return Some(3);
    }
    let mut w4: Vec<u8> = Vec::new();
    w4.push(102);
    w4.push(111);
    w4.push(117);
    w4.push(114);
    proof {
        assert(w4@ =~= seq![102u8, 111, 117, 114]);
    }
    if check_word(line, i, &w4) {
        return Some(4);
    }
    let mut w5: Vec<u8> = Vec::new();
    w5.push(102);
    w5.push(105);
    w5.push(118);
    w5.push(101);
    proof {
        assert(w5@ =~= seq![102u8, 105, 118, 101]);
    }
    if check_word(line, i, &w5) {
        return Some(5);
    }
    let mut w6: Vec<u8> = Vec::new();
    w6.push(115);
    w6.push(105);
    w6.push(120);
    proof {
        assert(w6@ =~= seq![115u8, 105, 120]);
    }
    if check_word(line, i, &w6) {
        return Some(6);
    }
    let mut w7: Vec<u8> = Vec::new();
    w7.push(115);
    w7.push(101);
    w7.push(118);
    w7.push(101);
    w7.push(110);
    proof {
        assert(w7@ =~= seq![115u8, 101, 118, 101, 110]);
    }
    if check_word(line, i, &w7) {
        return Some(7);
    }
    let mut w8: Vec<u8> = Vec::new();
    w8.push(101);
    w8.push(105);
    w8.push(103);
    w8.push(104);
    w8.push(116);
    proof {
        assert(w8@ =~= seq![101u8, 105, 103, 104, 116]);
    }
    if check_word(line, i, &w8) {
        return Some(8);
    }
    let mut w9: Vec<u8> = Vec::new();
    w9.push(110);
    w9.push(105);
    w9.push(110);
    w9.push(101);
    proof {
        assert(w9@ =~= seq![110u8, 105, 110, 101]);
    }
    if check_word(line, i, &w9) {
        return Some(9);
    }
    None
}

/// Whether the word sits at position `i` of the line.
#[verifier::loop_isolation(false)]
fn check_word(line: &Vec<u8>, i: usize, w: &Vec<u8>) -> (r: bool)
    requires
        i < line@.len(),
    ensures
        r == spec_word_at(line@, i as int, w@),
{
    if line.len() - i < w.len() {
        return false;
    }
    let mut k: usize = 0;
    while k < w.len()
        invariant
            k <= w@.len(),
            i + w@.len() <= line@.len(),
            forall|t: int| 0 <= t < k ==> line@[i + t] == w@[t],
        decreases w@.len() - k,
    {
        if line[i + k] != w[k] {
            proof {
                assert(line@.subrange(i as int, i + w@.len())[k as int] != w@[k as int]);
            }
            return false;
        }
        k += 1;
    }
    proof {
        assert(line@.subrange(i as int, i + w@.len()) =~= w@);
    }
    true
}

/// The first plain digit at or after position `k`.
pub open spec fn spec_first_digit(s: Seq<u8>, k: int) -> Option<u64>
    decreases s.len() - k,
{
    if k < 0 || k >= s.len() {
        None
    } else if 48 <= s[k] <= 57 {
        Some((s[k] - 48) as u64)
    } else {
        spec_first_digit(s, k + 1)
    }
}

/// The last plain digit at or before position `k`.
pub open spec fn spec_last_digit(s: Seq<u8>, k: int) -> Option<u64>
    decreases k + 1,
{
    if k < 0 || k >= s.len() {
        None
    } else if 48 <= s[k] <= 57 {
        Some((s[k] - 48) as u64)
    } else {
        spec_last_digit(s, k - 1)
    }
}

/// The saturating calibration sum over plain digits of the first `i`
/// lines; lines without a digit count nothing.
pub open spec fn spec_cal_plain(ls: Seq<Vec<u8>>, i: int) -> int
    decreases i,
{
    if i <= 0 {
        0
    } else {
        let prev = spec_cal_plain(ls, i - 1);
        let f = spec_first_digit(ls[i - 1]@, 0);
        let l = spec_last_digit(ls[i - 1]@, ls[i - 1]@.len() - 1);
        if f.is_some() && l.is_some() {
            util::spec_cap_u64(prev + f.unwrap() * 10 + l.unwrap())
        } else {
            prev
        }
    }
}

/// The same sum with spelled digit words counting too.
pub open spec fn spec_cal_words(ls: Seq<Vec<u8>>, i: int) -> int
    decreases i,
{
    if i <= 0 {
        0
    } else {
        let prev = spec_cal_words(ls, i - 1);
        let f = spec_first_tok(ls[i - 1]@, 0);
        let l = spec_last_tok(ls[i - 1]@, ls[i - 1]@.len() - 1);
        if f.is_some() && l.is_some() {
            util::spec_cap_u64(prev + f.unwrap() * 10 + l.unwrap())
        } else {
            prev
        }
    }
}

impl Solution for Day01 {
    type ParsedInput = Vec<Vec<u8>>;

    fn parse_input(input_lines: &str) -> Vec<Vec<u8>> {
        let bytes = input_lines.as_bytes_vec();
        util::lines(&bytes)
    }

    /// Sums each line's first and last plain digit, as a two-digit value.
    fn part_one(parsed_input: &mut Vec<Vec<u8>>) -> (res: String)
        ensures
            res@ == util::spec_u64_chars(
                spec_cal_plain(old(parsed_input)@, old(parsed_input)@.len() as int),
            ),
    {
        let ls = parsed_input;
        let mut total: u64 = 0;
        let mut i: usize = 0;
        while i < ls.len()
            invariant
                i <= ls@.len(),
                total as int == spec_cal_plain(ls@, i as int),
            decreases ls@.len() - i,
        {
            let line = &ls[i];
            let mut first: Option<u64> = None;
            let mut last: Option<u64> = None;
            let mut k: usize = 0;
            while k < line.len()
                invariant
                    k <= line@.len(),
                    line@ == ls@[i as int]@,
                    first.is_some() ==> first.unwrap() <= 9,
                    last.is_some() ==> last.unwrap() <= 9,
                    spec_first_digit(line@, 0) == if first.is_some() {
                        first
                    } else {
                        spec_first_digit(line@, k as int)
                    },
                    last == spec_last_digit(line@, k as int - 1),
                decreases line@.len() - k,
            {
                let b = line[k];
                if b >= 48 && b <= 57 {
                    let d = (b - 48) as u64;
                    if first.is_none() {
                        first = Some(d);
                    }
                    last = Some(d);
                }
                k += 1;
            }
            match (first, last) {
                (Some(f), Some(l)) => {
                    total = util::sat_add(total, f * 10 + l);
                },
                _ => {},
            }
            i += 1;
        }
        util::u64_to_string(total)
    }

    /// The same, with spelled digit words counting too.
    fn part_two(parsed_input: &mut Vec<Vec<u8>>) -> (res: String)
        ensures
            res@ == util::spec_u64_chars(
                spec_cal_words(old(parsed_input)@, old(parsed_input)@.len() as int),
            ),
    {
        let ls = parsed_input;
        let mut total: u64 = 0;
        let mut i: usize = 0;
        while i < ls.len()
            invariant
                i <= ls@.len(),
                total as int == spec_cal_words(ls@, i as int),
            decreases ls@.len() - i,
        {
            let line = &ls[i];
            let f = Day01::find_digit(line, false);
            let l = Day01::find_digit(line, true);
            match (f, l) {
                (Some(fd), Some(ld)) => {
                    proof {
                        lemma_first_tok_small(line@, 0);
                        lemma_last_tok_small(line@, line@.len() - 1);
                    }
                    total = util::sat_add(total, (fd as u64) * 10 + (ld as u64));
                },
                _ => {},
            }
            i += 1;
        }
        util::u64_to_string(total)
    }
}

} // verus!
