use crate::util;
use crate::Solution;
use vstd::prelude::*;
use vstd::string::StrSliceExecFns;

verus! {

pub struct Day07;

#[derive(Copy, Clone, PartialEq, Eq, Structural)]
pub enum Label {
    Joker,
    Two,
    Three,
    Four,
    Five,
    Six,
    Seven,
    Eight,
    Nine,
    Ten,
    Jack,
    Queen,
    King,
    Ace,
}

#[derive(Copy, Clone, PartialEq, Eq, Structural)]
pub enum HandType {
    HighCard,
    OnePair,
    TwoPair,
    ThreeOfAKind,
    FullHouse,
    FourOfAKind,
    FiveOfAKind,
}

/// One hand: its strength class, its five cards, and its bid.
pub struct Hand {
    pub hand_type: HandType,
    pub cards: (Label, Label, Label, Label, Label),
    pub bid: u64,
}

/// The rank of a label, weakest first.
pub open spec fn label_ix(l: Label) -> int {
    match l {
        Label::Joker => 0,
        Label::Two => 1,
        Label::Three => 2,
        Label::Four => 3,
        Label::Five => 4,
        Label::Six => 5,
        Label::Seven => 6,
        Label::Eight => 7,
        Label::Nine => 8,
        Label::Ten => 9,
        Label::Jack => 10,
        Label::Queen => 11,
        Label::King => 12,
        Label::Ace => 13,
    }
}

pub open spec fn type_ix(t: HandType) -> int {
    match t {
        HandType::HighCard => 0,
        HandType::OnePair => 1,
        HandType::TwoPair => 2,
        HandType::ThreeOfAKind => 3,
        HandType::FullHouse => 4,
        HandType::FourOfAKind => 5,
        HandType::FiveOfAKind => 6,
    }
}

/// The strength class read off the sorted group sizes: the largest group,
/// refined by the second.
pub open spec fn spec_counts_type(c0: int, c1: int) -> HandType {
    if c0 == 5 {
        HandType::FiveOfAKind
    } else if c0 == 4 {
        HandType::FourOfAKind
    } else if c0 == 3 && c1 == 2 {
        HandType::FullHouse
    } else if c0 == 3 {
        HandType::ThreeOfAKind
    } else if c0 == 2 && c1 == 2 {
        HandType::TwoPair
    } else if c0 == 2 {
        HandType::OnePair
    } else {
        HandType::HighCard
    }
}

pub open spec fn spec_label_count(cards: Seq<Label>, l: Label) -> int
    decreases cards.len(),
{
    if cards.len() == 0 {
        0
    } else {
        spec_label_count(cards.drop_last(), l) + if cards.last() == l {
            1int
        } else {
            0
        }
    }
}

/// The total winnings of a ranked list: each hand's bid times its
/// one-based rank (saturating).
pub open spec fn spec_winnings(hands: Seq<Hand>, n: int) -> int
    decreases n,
{
    if n <= 0 {
        0
    } else {
        util::spec_cap_u64(
            spec_winnings(hands, n - 1) + util::spec_cap_u64(n * hands[n - 1].bid),
        )
    }
}

pub proof fn lemma_winnings_nonneg(hands: Seq<Hand>, n: int)
    ensures
        spec_winnings(hands, n) >= 0,
    decreases n,
{
    if n > 0 {
        lemma_winnings_nonneg(hands, n - 1);
        assert(n * hands[n - 1].bid >= 0) by (nonlinear_arith)
            requires
                n >= 1,
                hands[n - 1].bid >= 0,
        ;
    }
}

impl Day07 {
    /// The label a card character stands for; `None` for anything else.
    pub fn char_to_label(c: char) -> (r: Option<Label>)
        ensures
            c == 'A' ==> r == Some(Label::Ace),
            c == 'K' ==> r == Some(Label::King),
            c == 'Q' ==> r == Some(Label::Queen),
            c == 'J' ==> r == Some(Label::Jack),
            c == 'T' ==> r == Some(Label::Ten),
            c == '9' ==> r == Some(Label::Nine),
            c == '8' ==> r == Some(Label::Eight),
            c == '7' ==> r == Some(Label::Seven),
            c == '6' ==> r == Some(Label::Six),
            c == '5' ==> r == Some(Label::Five),
            c == '4' ==> r == Some(Label::Four),
            c == '3' ==> r == Some(Label::Three),
            c == '2' ==> r == Some(Label::Two),
    {
        match c {
            'A' => Some(Label::Ace),
            'K' => Some(Label::King),
            'Q' => Some(Label::Queen),
            'J' => Some(Label::Jack),
            'T' => Some(Label::Ten),
            '9' => Some(Label::Nine),
            '8' => Some(Label::Eight),
            '7' => Some(Label::Seven),
            '6' => Some(Label::Six),
            '5' => Some(Label::Five),
            '4' => Some(Label::Four),
            '3' => Some(Label::Three),
            '2' => Some(Label::Two),
            _ => None,
        }
    }

    /// The label group sizes of the hand, largest first.
    pub fn count_cards(cards: &Vec<Label>) -> (r: Vec<u64>)
        ensures
            forall|i: int, j: int| 0 <= i < j < r@.len() ==> r@[i] >= r@[j],
            forall|i: int| 0 <= i < r@.len() ==> 1 <= #[trigger] r@[i] <= cards@.len(),
    {
        let mut counts: Vec<u64> = Vec::new();
        let mut li: usize = 0;
        while li < 14
            invariant
                counts@.len() == li,
                forall|i: int| 0 <= i < li ==> #[trigger] counts@[i] <= cards@.len(),
            decreases 14 - li,
        {
            let l = index_label(li);
            let mut c: u64 = 0;
            let mut k: usize = 0;
            while k < cards.len()
                invariant
                    k <= cards@.len(),
                    c <= k,
                decreases cards@.len() - k,
            {
                if label_eq(cards[k], l) {
                    c += 1;
                }
                k += 1;
            }
            counts.push(c);
            li += 1;
        }
        // keep only the groups that occur, largest first
        let mut nonzero: Vec<(u64, u64)> = Vec::new();
        let mut t: usize = 0;
        while t < counts.len()
            invariant
                t <= counts@.len(),
                forall|i: int| 0 <= i < counts@.len() ==> #[trigger] counts@[i] <= cards@.len(),
                forall|i: int|
                    0 <= i < nonzero@.len() ==> 1 <= (#[trigger] nonzero@[i]).0 <= cards@.len(),
            decreases counts@.len() - t,
        {
            if counts[t] > 0 {
                nonzero.push((counts[t], 0));
            }
            t += 1;
        }
        let sorted = util::sorted_pairs_u64(nonzero);
        proof {
            sorted@.to_multiset_ensures();
            nonzero@.to_multiset_ensures();
            assert forall|i: int| 0 <= i < sorted@.len() implies 1 <= (#[trigger] sorted@[i]).0
                <= cards@.len() by {
                assert(sorted@.contains(sorted@[i]));
                assert(sorted@.to_multiset().count(sorted@[i]) > 0);
                assert(nonzero@.to_multiset().count(sorted@[i]) > 0);
                assert(nonzero@.contains(sorted@[i]));
                let k = choose|k: int| 0 <= k < nonzero@.len() && nonzero@[k] == sorted@[i];
                assert(1 <= nonzero@[k].0 <= cards@.len());
            }
        }
        let mut r: Vec<u64> = Vec::new();
        let mut k2: usize = sorted.len();
        while k2 > 0
            invariant
                k2 <= sorted@.len(),
                r@.len() == sorted@.len() - k2,
                forall|i: int| 0 <= i < r@.len() ==> #[trigger] r@[i] == sorted@[sorted@.len() - 1
                    - i].0,
                forall|i: int|
                    0 <= i < sorted@.len() ==> 1 <= (#[trigger] sorted@[i]).0 <= cards@.len(),
                forall|i: int, j: int|
                    0 <= i < j < sorted@.len() ==> util::spec_pair_le(sorted@[i], sorted@[j]),
            decreases k2,
        {
            k2 -= 1;
            r.push(sorted[k2].0);
        }
        proof {
            assert forall|i: int, j: int| 0 <= i < j < r@.len() implies r@[i] >= r@[j] by {
                assert(util::spec_pair_le(
                    sorted@[sorted@.len() - 1 - j],
                    sorted@[sorted@.len() - 1 - i],
                ));
            }
        }
        r
    }

    /// The group sizes with every joker joined to the largest group.
    pub fn count_cards_with_joker(cards: &Vec<Label>) -> (r: Vec<u64>)
        ensures
            forall|i: int| 0 <= i < r@.len() ==> 1 <= #[trigger] r@[i],
    {
        let mut jokers: u64 = 0;
        let mut rest: Vec<Label> = Vec::new();
        let mut k: usize = 0;
        while k < cards.len()
            invariant
                k <= cards@.len(),
                jokers <= k,
                rest@.len() <= k,
            decreases cards@.len() - k,
        {
            if label_eq(cards[k], Label::Joker) {
                jokers += 1;
            } else {
                rest.push(cards[k]);
            }
            k += 1;
        }
        let counts = Day07::count_cards(&rest);
        let mut counts = counts;
        if counts.len() == 0 {
            if jokers > 0 {
                counts.push(jokers);
            } else {
                counts.push(1);
            }
            return counts;
        }
        let first = counts[0];
        counts.set(0, util::sat_add(first, jokers));
        counts
    }

    /// The strength class of sorted group sizes.
    pub fn counts_to_hand_type(counts: &Vec<u64>) -> (r: HandType)
        requires
            counts@.len() >= 1,
        ensures
            r == spec_counts_type(
                counts@[0] as int,
                if counts@.len() >= 2 {
                    counts@[1] as int
                } else {
                    0
                },
            ),
    {
        let c0 = counts[0];
        let c1 = if counts.len() >= 2 {
            counts[1]
        } else {
            0
        };
        if c0 == 5 {
            HandType::FiveOfAKind
        } else if c0 == 4 {
            HandType::FourOfAKind
        } else if c0 == 3 && c1 == 2 {
            HandType::FullHouse
        } else if c0 == 3 {
            HandType::ThreeOfAKind
        } else if c0 == 2 && c1 == 2 {
            HandType::TwoPair
        } else if c0 == 2 {
            HandType::OnePair
        } else {
            HandType::HighCard
        }
    }

    /// Reads one line into the plain hand and the joker-rule hand.
    pub fn parse_hand(line: &Vec<u8>) -> (r: Option<(Hand, Hand)>) {
        let toks = util::tokens(line);
        if toks.len() != 2 || toks[0].len() != 5 {
            return None;
        }
        let bid = match util::parse_u64(&toks[1]) {
            Some(b) => b,
            None => {
                return None;
            },
        };
        let mut cards: Vec<Label> = Vec::new();
        let mut k: usize = 0;
        while k < 5
            invariant
                toks@.len() == 2,
                toks@[0]@.len() == 5,
                cards@.len() == k,
                k <= 5,
            decreases 5 - k,
        {
            let b = toks[0][k];
            let c = byte_label(b);
            match c {
                Some(l) => cards.push(l),
                None => {
                    return None;
                },
            }
            k += 1;
        }
        let counts = Day07::count_cards(&cards);
        if counts.len() == 0 {
            return None;
        }
        let hand_type = Day07::counts_to_hand_type(&counts);
        let mut joker_cards: Vec<Label> = Vec::new();
        let mut k2: usize = 0;
        while k2 < cards.len()
            invariant
                k2 <= cards@.len(),
                cards@.len() == 5,
                joker_cards@.len() == k2,
            decreases cards@.len() - k2,
        {
            if label_eq(cards[k2], Label::Jack) {
                joker_cards.push(Label::Joker);
            } else {
                joker_cards.push(cards[k2]);
            }
            k2 += 1;
        }
        let jcounts = Day07::count_cards_with_joker(&joker_cards);
        if jcounts.len() == 0 {
            return None;
        }
        let joker_type = Day07::counts_to_hand_type(&jcounts);
        let plain = Hand {
            hand_type,
            cards: (cards[0], cards[1], cards[2], cards[3], cards[4]),
            bid,
        };
        let joker = Hand {
            hand_type: joker_type,
            cards: (
                joker_cards[0],
                joker_cards[1],
                joker_cards[2],
                joker_cards[3],
                joker_cards[4],
            ),
            bid,
        };
        Some((plain, joker))
    }

    /// The winnings of an already ranked list of hands.
    pub fn total_winnings(hands: &Vec<Hand>) -> (r: u64)
        ensures
            r as int == spec_winnings(hands@, hands@.len() as int),
    {
        let mut total: u64 = 0;
        let mut i: usize = 0;
        while i < hands.len()
            invariant
                i <= hands@.len(),
                total as int == spec_winnings(hands@, i as int),
            decreases hands@.len() - i,
        {
            proof {
                lemma_winnings_nonneg(hands@, i as int);
            }
            let w = util::sat_mul((i + 1) as u64, hands[i].bid);
            proof {
                util::lemma_cap_add(spec_winnings(hands@, i as int), w as int);
            }
            total = util::sat_add(total, w);
            i += 1;
        }
        total
    }
}

/// A hand's sort key as a number: its class, then its cards left to
/// right, base fourteen.
pub open spec fn spec_hand_key(h: Hand) -> int {
    ((((type_ix(h.hand_type) * 14 + label_ix(h.cards.0)) * 14 + label_ix(h.cards.1)) * 14
        + label_ix(h.cards.2)) * 14 + label_ix(h.cards.3)) * 14 + label_ix(h.cards.4)
}

/// The ranked (key, bid) pairs of each hand.
pub open spec fn spec_pairs07(hands: Seq<Hand>) -> Seq<(u64, u64)> {
    Seq::new(hands.len(), |i: int| (spec_hand_key(hands[i]) as u64, hands[i].bid))
}

/// Rank times bid over the first `i` sorted pairs (saturating).
pub open spec fn spec_winnings_pairs(s: Seq<(u64, u64)>, i: int) -> int
    decreases i,
{
    if i <= 0 {
        0
    } else {
        util::spec_cap_u64(
            spec_winnings_pairs(s, i - 1) + util::spec_cap_u64(i * s[i - 1].1),
        )
    }
}

/// Whether `res` reads off the winnings of the hands' pairs in some
/// sorted arrangement.
pub open spec fn winnings_report(hands: Seq<Hand>, res: Seq<char>) -> bool {
    exists|sorted: Seq<(u64, u64)>|
        {
            &&& sorted.to_multiset() == spec_pairs07(hands).to_multiset()
            &&& sorted.len() == hands.len()
            &&& forall|i: int, j: int|
                0 <= i < j < sorted.len() ==> util::spec_pair_le(sorted[i], sorted[j])
            &&& res == util::spec_u64_chars(
                #[trigger] spec_winnings_pairs(sorted, sorted.len() as int),
            )
        }
}

/// The sort key of a hand: its class, then its cards left to right.
fn hand_key(h: &Hand) -> (r: u64)
    ensures
        r as int == spec_hand_key(*h),
{
    let t = type_val(h.hand_type);
    let mut key: u64 = t;
    key = key * 14 + label_val(h.cards.0);
    key = key * 14 + label_val(h.cards.1);
    key = key * 14 + label_val(h.cards.2);
    key = key * 14 + label_val(h.cards.3);
    key = key * 14 + label_val(h.cards.4);
    key
}

fn type_val(t: HandType) -> (r: u64)
    ensures
        r as int == type_ix(t),
{
    match t {
        HandType::HighCard => 0,
        HandType::OnePair => 1,
        HandType::TwoPair => 2,
        HandType::ThreeOfAKind => 3,
        HandType::FullHouse => 4,
        HandType::FourOfAKind => 5,
        HandType::FiveOfAKind => 6,
    }
}

fn label_val(l: Label) -> (r: u64)
    ensures
        r as int == label_ix(l),
        r <= 13,
{
    match l {
        Label::Joker => 0,
        Label::Two => 1,
        Label::Three => 2,
        Label::Four => 3,
        Label::Five => 4,
        Label::Six => 5,
        Label::Seven => 6,
        Label::Eight => 7,
        Label::Nine => 8,
        Label::Ten => 9,
        Label::Jack => 10,
        Label::Queen => 11,
        Label::King => 12,
        Label::Ace => 13,
    }
}

fn label_eq(a: Label, b: Label) -> (r: bool)
    ensures
        r == (a == b),
{
    a == b
}

fn index_label(i: usize) -> (r: Label) {
    if i == 0 {
        Label::Joker
    } else if i == 1 {
        Label::Two
    } else if i == 2 {
        Label::Three
    } else if i == 3 {
        Label::Four
    } else if i == 4 {
        Label::Five
    } else if i == 5 {
        Label::Six
    } else if i == 6 {
        Label::Seven
    } else if i == 7 {
        Label::Eight
    } else if i == 8 {
        Label::Nine
    } else if i == 9 {
        Label::Ten
    } else if i == 10 {
        Label::Jack
    } else if i == 11 {
        Label::Queen
    } else if i == 12 {
        Label::King
    } else {
        Label::Ace
    }
}

fn byte_label(b: u8) -> (r: Option<Label>) {
    if b == 65 {
        Some(Label::Ace)
    } else if b == 75 {
        Some(Label::King)
    } else if b == 81 {
        Some(Label::Queen)
    } else if b == 74 {
        Some(Label::Jack)
    } else if b == 84 {
        Some(Label::Ten)
    } else if b == 57 {
        Some(Label::Nine)
    } else if b == 56 {
        Some(Label::Eight)
    } else if b == 55 {
        Some(Label::Seven)
    } else if b == 54 {
        Some(Label::Six)
    } else if b == 53 {
        Some(Label::Five)
    } else if b == 52 {
        Some(Label::Four)
    } else if b == 51 {
        Some(Label::Three)
    } else if b == 50 {
        Some(Label::Two)
    } else {
        None
    }
}

/// Ranks the (key, bid) pairs and sums rank times bid.
fn winnings_of_pairs(pairs: Vec<(u64, u64)>) -> (r: u64)
    ensures
        exists|sorted: Seq<(u64, u64)>|
            {
                &&& sorted.to_multiset() == pairs@.to_multiset()
                &&& sorted.len() == pairs@.len()
                &&& forall|i: int, j: int|
                    0 <= i < j < sorted.len() ==> util::spec_pair_le(sorted[i], sorted[j])
                &&& r as int == #[trigger] spec_winnings_pairs(sorted, sorted.len() as int)
            },
{
    let ghost pv = pairs@;
    let sorted = util::sorted_pairs_u64(pairs);
    let mut total: u64 = 0;
    let mut i: usize = 0;
    while i < sorted.len()
        invariant
            sorted@.to_multiset() == pv.to_multiset(),
            sorted@.len() == pv.len(),
            forall|i2: int, j2: int|
                0 <= i2 < j2 < sorted@.len() ==> util::spec_pair_le(sorted@[i2], sorted@[j2]),
            i <= sorted@.len(),
            total as int == spec_winnings_pairs(sorted@, i as int),
        decreases sorted@.len() - i,
    {
        let w = util::sat_mul((i + 1) as u64, sorted[i].1);
        total = util::sat_add(total, w);
        i += 1;
    }
    total
}

impl Solution for Day07 {
    type ParsedInput = (Vec<Hand>, Vec<Hand>);

    fn parse_input(input_lines: &str) -> (Vec<Hand>, Vec<Hand>) {
        let bytes = input_lines.as_bytes_vec();
        let ls = util::lines(&bytes);
        let mut plain: Vec<Hand> = Vec::new();
        let mut joker: Vec<Hand> = Vec::new();
        let mut i: usize = 0;
        while i < ls.len()
            decreases ls@.len() - i,
        {
            match Day07::parse_hand(&ls[i]) {
                Some((p, j)) => {
                    plain.push(p);
                    joker.push(j);
                },
                None => {},
            }
            i += 1;
        }
        (plain, joker)
    }

    fn part_one(parsed_input: &mut (Vec<Hand>, Vec<Hand>)) -> (res: String)
        ensures
            winnings_report(old(parsed_input).0@, res@),
    {
        let hands = &parsed_input.0;
        let mut pairs: Vec<(u64, u64)> = Vec::new();
        let mut i: usize = 0;
        while i < hands.len()
            invariant
                hands@ == old(parsed_input).0@,
                i <= hands@.len(),
                pairs@ == spec_pairs07(hands@).take(i as int),
            decreases hands@.len() - i,
        {
            pairs.push((hand_key(&hands[i]), hands[i].bid));
            proof {
                assert(pairs@ =~= spec_pairs07(hands@).take(i as int + 1));
            }
            i += 1;
        }
        proof {
            assert(pairs@ =~= spec_pairs07(hands@));
        }
        util::u64_to_string(winnings_of_pairs(pairs))
    }

    fn part_two(parsed_input: &mut (Vec<Hand>, Vec<Hand>)) -> (res: String)
        ensures
            winnings_report(old(parsed_input).1@, res@),
    {
        let hands = &parsed_input.1;
        let mut pairs: Vec<(u64, u64)> = Vec::new();
        let mut i: usize = 0;
        while i < hands.len()
            invariant
                hands@ == old(parsed_input).1@,
                i <= hands@.len(),
                pairs@ == spec_pairs07(hands@).take(i as int),
            decreases hands@.len() - i,
        {
            pairs.push((hand_key(&hands[i]), hands[i].bid));
            proof {
                assert(pairs@ =~= spec_pairs07(hands@).take(i as int + 1));
            }
            i += 1;
        }
        proof {
            assert(pairs@ =~= spec_pairs07(hands@));
        }
        util::u64_to_string(winnings_of_pairs(pairs))
    }
}

} // verus!
