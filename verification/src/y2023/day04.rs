use crate::util;
use crate::y2023::day09::pow2_bound;
use crate::Solution;
use vstd::prelude::*;
use vstd::string::StrSliceExecFns;

verus! {

pub struct Day04;

/// One scratchcard, reduced to how many of its numbers won.
pub struct Card {
    pub matches: usize,
}

/// How many entries of `y` occur in `w`.
pub open spec fn spec_matches(w: Seq<u64>, y: Seq<u64>) -> int
    decreases y.len(),
{
    if y.len() == 0 {
        0
    } else {
        spec_matches(w, y.drop_last()) + if w.contains(y.last()) {
            1int
        } else {
            0
        }
    }
}

/// The points of a card: nothing without matches, else doubling from one.
pub open spec fn spec_points(m: int) -> int {
    if m <= 0 {
        0
    } else {
        util::spec_cap_u64(pow2_bound(m - 1))
    }
}

/// The copies won of each card: the one it starts with, plus one from every earlier
/// card whose match count reaches it (saturating).
pub open spec fn spec_contrib(table: Seq<int>, cards: Seq<int>, i: int, j: int) -> int
    decreases j,
{
    if j <= 0 {
        0
    } else {
        util::spec_cap_u64(
            spec_contrib(table, cards, i, j - 1) + if j - 1 < i && i <= j - 1 + cards[j - 1] {
                table[j - 1]
            } else {
                0
            },
        )
    }
}

pub open spec fn spec_insts(cards: Seq<int>, n: int) -> Seq<int>
    decreases n,
{
    if n <= 0 {
        Seq::empty()
    } else {
        let t = spec_insts(cards, n - 1);
        t.push(util::spec_cap_u64(1 + spec_contrib(t, cards, n - 1, n - 1)))
    }
}

pub open spec fn spec_inst_sum(table: Seq<int>) -> int
    decreases table.len(),
{
    if table.len() == 0 {
        0
    } else {
        util::spec_cap_u64(spec_inst_sum(table.drop_last()) + table.last())
    }
}

pub open spec fn cards_view(cards: Seq<Card>) -> Seq<int> {
    cards.map_values(|c: Card| c.matches as int)
}

pub proof fn lemma_insts_wf(cards: Seq<int>, n: int)
    ensures
        spec_insts(cards, n).len() == if n <= 0 {
            0int
        } else {
            n
        },
        forall|j: int|
            0 <= j < spec_insts(cards, n).len() ==> 0 <= #[trigger] spec_insts(cards, n)[j]
                <= u64::MAX,
    decreases n,
{
    if n > 0 {
        lemma_insts_wf(cards, n - 1);
        lemma_contrib_nonneg(spec_insts(cards, n - 1), cards, n - 1, n - 1);
    }
}

pub proof fn lemma_contrib_nonneg(table: Seq<int>, cards: Seq<int>, i: int, j: int)
    requires
        forall|k: int| 0 <= k < table.len() ==> 0 <= #[trigger] table[k],
        i <= table.len(),
    ensures
        spec_contrib(table, cards, i, j) >= 0,
    decreases j,
{
    if j > 0 {
        lemma_contrib_nonneg(table, cards, i, j - 1);
    }
}

impl Day04 {
    /// The number of winning picks on the card of this line.
    pub fn parse_card(line: &Vec<u8>) -> (r: Card) {
        let colon = util::find_from(line, 0, 58);
        let start = if colon < line.len() {
            colon + 1
        } else {
            0
        };
        let bar = util::find_from(line, start, 124);
        let mut w: Vec<u64> = Vec::new();
        let mut y: Vec<u64> = Vec::new();
        let mut part: Vec<u8> = Vec::new();
        let mut k = start;
        while k < bar
            invariant
                start <= k <= bar <= line@.len(),
            decreases bar - k,
        {
            part.push(line[k]);
            k += 1;
        }
        let wt = util::tokens(&part);
        let mut t: usize = 0;
        while t < wt.len()
            decreases wt@.len() - t,
        {
            match util::parse_u64(&wt[t]) {
                Some(n) => w.push(n),
                None => {},
            }
            t += 1;
        }
        let mut part2: Vec<u8> = Vec::new();
        let mut k2 = if bar < line.len() {
            bar + 1
        } else {
            bar
        };
        while k2 < line.len()
            invariant
                k2 <= line@.len(),
            decreases line@.len() - k2,
        {
            part2.push(line[k2]);
            k2 += 1;
        }
        let yt = util::tokens(&part2);
        let mut t2: usize = 0;
        while t2 < yt.len()
            decreases yt@.len() - t2,
        {
            match util::parse_u64(&yt[t2]) {
                Some(n) => y.push(n),
                None => {},
            }
            t2 += 1;
        }
        Card { matches: Day04::count_matches(&w, &y) }
    }

    /// How many of your numbers are winning numbers.
    #[verifier::loop_isolation(false)]
    pub fn count_matches(w: &Vec<u64>, y: &Vec<u64>) -> (r: usize)
        ensures
            r as int == spec_matches(w@, y@),
            r <= y@.len(),
    {
        let mut c: usize = 0;
        let mut i: usize = 0;
        while i < y.len()
            invariant
                i <= y@.len(),
                c <= i,
                c as int == spec_matches(w@, y@.take(i as int)),
            decreases y@.len() - i,
        {
            proof {
                assert(y@.take(i + 1).drop_last() =~= y@.take(i as int));
            }
            let mut hit = false;
            let mut j: usize = 0;
            while j < w.len()
                invariant
                    j <= w@.len(),
                    hit == exists|k: int| 0 <= k < j && w@[k] == y@[i as int],
                decreases w@.len() - j,
            {
                if w[j] == y[i] {
                    hit = true;
                }
                j += 1;
            }
            proof {
                if hit {
                    assert(w@.contains(y@[i as int]));
                } else {
                    assert(!w@.contains(y@[i as int]));
                }
            }
            if hit {
                c += 1;
            }
            i += 1;
        }
        proof {
            assert(y@.take(y@.len() as int) =~= y@);
        }
        c
    }

    /// The card's points: matches double from one point (saturating).
    #[verifier::loop_isolation(false)]
    pub fn points(card: &Card) -> (r: u64)
        ensures
            r as int == spec_points(card.matches as int),
    {
        if card.matches == 0 {
            return 0;
        }
        let mut p: u64 = 1;
        let mut i: usize = 0;
        while i < card.matches - 1
            invariant
                i <= card.matches - 1,
                p as int == util::spec_cap_u64(pow2_bound(i as int)),
            decreases card.matches - i,
        {
            proof {
                crate::y2023::day09::lemma_pow2_pos(i as int);
                util::lemma_cap_add(pow2_bound(i as int), 0);
                assert(util::spec_cap_u64(
                    util::spec_cap_u64(pow2_bound(i as int)) * 2,
                ) == util::spec_cap_u64(pow2_bound(i as int) * 2)) by {
                    if pow2_bound(i as int) > u64::MAX {
                        assert(pow2_bound(i as int) * 2 >= pow2_bound(i as int)) by (
                        nonlinear_arith)
                            requires
                                pow2_bound(i as int) >= 0,
                        ;
                    }
                }
            }
            p = util::sat_mul(p, 2);
            i += 1;
        }
        p
    }

    /// The grand total of cards after every card wins its copies.
    #[verifier::loop_isolation(false)]
    pub fn process_scratchcards(cards: &Vec<Card>) -> (r: u64)
        ensures
            r as int == spec_inst_sum(spec_insts(cards_view(cards@), cards@.len() as int)),
    {
        let ghost cv = cards_view(cards@);
        let ghost full = spec_insts(cv, cards@.len() as int);
        let mut table: Vec<u64> = Vec::new();
        let mut i: usize = 0;
        while i < cards.len()
            invariant
                i <= cards@.len(),
                table@.len() == i,
                forall|j: int|
                    0 <= j < i ==> #[trigger] table@[j] as int == spec_insts(cv, i as int)[j],
            decreases cards@.len() - i,
        {
            let ghost t_i = spec_insts(cv, i as int);
            proof {
                lemma_insts_wf(cv, i as int);
                assert(forall|j: int| 0 <= j < i ==> #[trigger] table@[j] as int == t_i[j]);
            }
            let mut won: u64 = 0;
            let mut j: usize = 0;
            while j < i
                invariant
                    j <= i,
                    won as int == spec_contrib(t_i, cv, i as int, j as int),
                decreases i - j,
            {
                proof {
                    lemma_insts_wf(cv, i as int);
                    lemma_contrib_nonneg(t_i, cv, i as int, j as int);
                    assert(cv[j as int] == cards@[j as int].matches as int);
                }
                if cards[j].matches >= i - j {
                    proof {
                        util::lemma_cap_add(
                            spec_contrib(t_i, cv, i as int, j as int),
                            table@[j as int] as int,
                        );
                    }
                    won = util::sat_add(won, table[j]);
                } else {
                }
                j += 1;
            }
            proof {
                lemma_contrib_nonneg(t_i, cv, i as int, i as int);
                util::lemma_cap_add(spec_contrib(t_i, cv, i as int, i as int), 1);
            }
            let inst = util::sat_add(won, 1);
            proof {
                assert(spec_insts(cv, i + 1) == t_i.push(
                    util::spec_cap_u64(1 + spec_contrib(t_i, cv, i as int, i as int)),
                ));
                assert forall|j2: int|
                    0 <= j2 < i + 1 implies #[trigger] table@.push(inst)[j2] as int == spec_insts(
                    cv,
                    i + 1,
                )[j2] by {
                    if j2 < i {
                        assert(spec_insts(cv, i + 1)[j2] == t_i[j2]);
                    }
                }
            }
            table.push(inst);
            i += 1;
        }
        let mut total: u64 = 0;
        let mut t: usize = 0;
        proof {
            assert(forall|j: int|
                0 <= j < table@.len() ==> #[trigger] table@[j] as int == full[j]);
            lemma_insts_wf(cv, cards@.len() as int);
        }
        while t < table.len()
            invariant
                t <= table@.len(),
                total as int == spec_inst_sum(full.take(t as int)),
            decreases table@.len() - t,
        {
            proof {
                assert(full.take(t + 1).drop_last() =~= full.take(t as int));
                assert(full.take(t + 1).last() == full[t as int]);
                lemma_inst_sum_nonneg(full.take(t as int));
                util::lemma_cap_add(spec_inst_sum(full.take(t as int)), table@[t as int] as int);
            }
            total = util::sat_add(total, table[t]);
            t += 1;
        }
        proof {
            assert(full.take(full.len() as int) =~= full);
        }
        total
    }
}

pub proof fn lemma_inst_sum_nonneg(table: Seq<int>)
    requires
        forall|k: int| 0 <= k < table.len() ==> 0 <= #[trigger] table[k],
    ensures
        spec_inst_sum(table) >= 0,
    decreases table.len(),
{
    if table.len() > 0 {
        assert(forall|k: int|
            0 <= k < table.drop_last().len() ==> 0 <= #[trigger] table.drop_last()[k]);
        lemma_inst_sum_nonneg(table.drop_last());
    }
}

/// The saturating sum of the first `i` cards' points.
pub open spec fn spec_points_sum(cards: Seq<Card>, i: int) -> int
    decreases i,
{
    if i <= 0 {
        0
    } else {
        util::spec_cap_u64(spec_points_sum(cards, i - 1) + spec_points(cards[i - 1].matches as int))
    }
}

impl Solution for Day04 {
    type ParsedInput = Vec<Card>;

    fn parse_input(input_lines: &str) -> Vec<Card> {
        let bytes = input_lines.as_bytes_vec();
        let ls = util::lines(&bytes);
        let mut cards: Vec<Card> = Vec::new();
        let mut i: usize = 0;
        while i < ls.len()
            decreases ls@.len() - i,
        {
            cards.push(Day04::parse_card(&ls[i]));
            i += 1;
        }
        cards
    }

    fn part_one(parsed_input: &mut Vec<Card>) -> (res: String)
        ensures
            res@ == util::spec_u64_chars(
                spec_points_sum(old(parsed_input)@, old(parsed_input)@.len() as int),
            ),
    {
        let cards = parsed_input;
        let mut total: u64 = 0;
        let mut i: usize = 0;
        while i < cards.len()
            invariant
                i <= cards@.len(),
                total as int == spec_points_sum(cards@, i as int),
            decreases cards@.len() - i,
        {
            let p = Day04::points(&cards[i]);
            total = util::sat_add(total, p);
            i += 1;
        }
        util::u64_to_string(total)
    }

    fn part_two(parsed_input: &mut Vec<Card>) -> (res: String)
        ensures
            res@ == util::spec_u64_chars(
                spec_inst_sum(
                    spec_insts(cards_view(old(parsed_input)@), old(parsed_input)@.len() as int),
                ),
            ),
    {
        util::u64_to_string(Day04::process_scratchcards(parsed_input))
    }
}

} // verus!
