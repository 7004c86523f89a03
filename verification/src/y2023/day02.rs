use crate::util;
use crate::Solution;
use vstd::prelude::*;
use vstd::string::StrSliceExecFns;

verus! {

pub struct Day02;

/// One drawn handful of cubes.
pub struct CubeSet {
    pub red: u32,
    pub green: u32,
    pub blue: u32,
}

pub open spec fn spec_possible(game: Seq<CubeSet>, red: u32, green: u32, blue: u32) -> bool {
    forall|i: int|
        0 <= i < game.len() ==> (#[trigger] game[i]).red <= red && game[i].green <= green
            && game[i].blue <= blue
}

pub open spec fn spec_max_red(game: Seq<CubeSet>) -> int
    decreases game.len(),
{
    if game.len() == 0 {
        0
    } else if game.last().red >= spec_max_red(game.drop_last()) {
        game.last().red as int
    } else {
        spec_max_red(game.drop_last())
    }
}

pub open spec fn spec_max_green(game: Seq<CubeSet>) -> int
    decreases game.len(),
{
    if game.len() == 0 {
        0
    } else if game.last().green >= spec_max_green(game.drop_last()) {
        game.last().green as int
    } else {
        spec_max_green(game.drop_last())
    }
}

pub open spec fn spec_max_blue(game: Seq<CubeSet>) -> int
    decreases game.len(),
{
    if game.len() == 0 {
        0
    } else if game.last().blue >= spec_max_blue(game.drop_last()) {
        game.last().blue as int
    } else {
        spec_max_blue(game.drop_last())
    }
}

pub open spec fn games_view(games: Seq<Vec<CubeSet>>) -> Seq<Seq<CubeSet>> {
    games.map_values(|g: Vec<CubeSet>| g@)
}

/// The ids (1-based indices) of the games a given bag allows, summed.
pub open spec fn spec_sum_ids(games: Seq<Seq<CubeSet>>, n: int, red: u32, green: u32, blue: u32) -> int
    decreases n,
{
    if n <= 0 {
        0
    } else {
        util::spec_cap_u64(
            spec_sum_ids(games, n - 1, red, green, blue) + if spec_possible(
                games[n - 1],
                red,
                green,
                blue,
            ) {
                n
            } else {
                0
            },
        )
    }
}

/// The summed powers of the minimal bags of all games.
pub open spec fn spec_sum_powers(games: Seq<Seq<CubeSet>>) -> int
    decreases games.len(),
{
    if games.len() == 0 {
        0
    } else {
        util::spec_cap_u64(
            spec_sum_powers(games.drop_last()) + util::spec_cap_u64(
                spec_max_red(games.last()) * spec_max_green(games.last()) * spec_max_blue(
                    games.last(),
                ),
            ),
        )
    }
}

impl Day02 {
    /// Whether every handful of the game fits in the given bag.
    pub fn possible(game: &Vec<CubeSet>, contents: &CubeSet) -> (r: bool)
        ensures
            r == spec_possible(game@, contents.red, contents.green, contents.blue),
    {
        let mut i: usize = 0;
        while i < game.len()
            invariant
                i <= game@.len(),
                forall|k: int|
                    0 <= k < i ==> (#[trigger] game@[k]).red <= contents.red && game@[k].green
                        <= contents.green && game@[k].blue <= contents.blue,
            decreases game@.len() - i,
        {
            if game[i].red > contents.red || game[i].green > contents.green || game[i].blue
                > contents.blue {
                return false;
            }
            i += 1;
        }
        true
    }

    /// The smallest bag that allows every handful of the game.
    pub fn minimal_cube_set(game: &Vec<CubeSet>) -> (r: CubeSet)
        ensures
            r.red as int == spec_max_red(game@),
            r.green as int == spec_max_green(game@),
            r.blue as int == spec_max_blue(game@),
    {
        let mut red: u32 = 0;
        let mut green: u32 = 0;
        let mut blue: u32 = 0;
        let mut i: usize = 0;
        while i < game.len()
            invariant
                i <= game@.len(),
                red as int == spec_max_red(game@.take(i as int)),
                green as int == spec_max_green(game@.take(i as int)),
                blue as int == spec_max_blue(game@.take(i as int)),
            decreases game@.len() - i,
        {
            proof {
                assert(game@.take(i + 1).drop_last() =~= game@.take(i as int));
            }
            if game[i].red > red {
                red = game[i].red;
            }
            if game[i].green > green {
                green = game[i].green;
            }
            if game[i].blue > blue {
                blue = game[i].blue;
            }
            i += 1;
        }
        proof {
            assert(game@.take(game@.len() as int) =~= game@);
        }
        CubeSet { red, green, blue }
    }

    /// The power of a bag: the product of its three counts (saturating).
    pub fn power(cs: &CubeSet) -> (r: u64)
        ensures
            r as int == util::spec_cap_u64(
                (cs.red as int) * (cs.green as int) * (cs.blue as int),
            ),
    {
        proof {
            let a: int = cs.red as int;
            let b: int = cs.green as int;
            assert(0 <= a * b <= 0xffff_ffff * 0xffff_ffff) by (nonlinear_arith)
                requires
                    0 <= a <= 0xffff_ffff,
                    0 <= b <= 0xffff_ffff,
            ;
        }
        let rg = (cs.red as u64) * (cs.green as u64);
        util::sat_mul(rg, cs.blue as u64)
    }
}

impl Solution for Day02 {
    type ParsedInput = Vec<Vec<CubeSet>>;

    fn parse_input(input_lines: &str) -> Vec<Vec<CubeSet>> {
        let bytes = input_lines.as_bytes_vec();
        let ls = util::lines(&bytes);
        let mut games: Vec<Vec<CubeSet>> = Vec::new();
        let mut i: usize = 0;
        while i < ls.len()
            decreases ls@.len() - i,
        {
            let line = &ls[i];
            let colon = util::find_from(line, 0, 58);
            let mut rest: Vec<u8> = Vec::new();
            let mut k = if colon < line.len() {
                colon + 1
            } else {
                0
            };
            while k < line.len()
                decreases line@.len() - k,
            {
                rest.push(line[k]);
                k += 1;
            }
            let mut game: Vec<CubeSet> = Vec::new();
            let sets = util::split_bytes(&rest, 59);
            let mut s: usize = 0;
            while s < sets.len()
                decreases sets@.len() - s,
            {
                let mut red: u32 = 0;
                let mut green: u32 = 0;
                let mut blue: u32 = 0;
                let parts = util::split_bytes(&sets[s], 44);
                let mut t: usize = 0;
                while t < parts.len()
                    decreases parts@.len() - t,
                {
                    let toks = util::tokens(&parts[t]);
                    if toks.len() == 2 {
                        let count = match util::parse_u64(&toks[0]) {
                            Some(n) => {
                                if n <= u32::MAX as u64 {
                                    n as u32
                                } else {
                                    0
                                }
                            },
                            None => 0,
                        };
                        let color = &toks[1];
                        if color.len() == 3 && color[0] == 114 {
                            red = count;
                        } else if color.len() == 5 && color[0] == 103 {
                            green = count;
                        } else if color.len() == 4 && color[0] == 98 {
                            blue = count;
                        }
                    }
                    t += 1;
                }
                game.push(CubeSet { red, green, blue });
                s += 1;
            }
            games.push(game);
            i += 1;
        }
        games
    }

    #[verifier::loop_isolation(false)]
    fn part_one(parsed_input: &mut Vec<Vec<CubeSet>>) -> (res: String)
        ensures
            res@ == util::spec_u64_chars(
                spec_sum_ids(
                    games_view(old(parsed_input)@),
                    old(parsed_input)@.len() as int,
                    12,
                    13,
                    14,
                ),
            ),
    {
        let games = parsed_input;
        let ghost gv = games_view(games@);
        let contents = CubeSet { red: 12, green: 13, blue: 14 };
        let mut total: u64 = 0;
        let mut i: usize = 0;
        while i < games.len()
            invariant
                i <= games@.len(),
                gv == games_view(games@),
                gv.len() == games@.len(),
                total as int == spec_sum_ids(gv, i as int, 12, 13, 14),
                i <= u64::MAX,
            decreases games@.len() - i,
        {
            proof {
                assert(gv[i as int] == games@[i as int]@);
            }
            proof {
                lemma_sum_ids_nonneg(gv, i as int, 12, 13, 14);
            }
            if Day02::possible(&games[i], &contents) {
                proof {
                    util::lemma_cap_add(spec_sum_ids(gv, i as int, 12, 13, 14), i as int + 1);
                }
                total = util::sat_add(total, (i as u64) + 1);
            } else {
                proof {
                    assert(spec_sum_ids(gv, i as int + 1, 12, 13, 14) == util::spec_cap_u64(
                        spec_sum_ids(gv, i as int, 12, 13, 14) + 0,
                    ));
                }
            }
            i += 1;
        }
        util::u64_to_string(total)
    }

    #[verifier::loop_isolation(false)]
    fn part_two(parsed_input: &mut Vec<Vec<CubeSet>>) -> (res: String)
        ensures
            res@ == util::spec_u64_chars(spec_sum_powers(games_view(old(parsed_input)@))),
    {
        let games = parsed_input;
        let ghost gv = games_view(games@);
        let mut total: u64 = 0;
        let mut i: usize = 0;
        while i < games.len()
            invariant
                i <= games@.len(),
                gv == games_view(games@),
                gv.len() == games@.len(),
                total as int == spec_sum_powers(gv.take(i as int)),
            decreases games@.len() - i,
        {
            proof {
                assert(gv[i as int] == games@[i as int]@);
                assert(gv.take(i + 1).drop_last() =~= gv.take(i as int));
                assert(gv.take(i + 1).last() == gv[i as int]);
                lemma_sum_powers_nonneg(gv.take(i as int));
            }
            let mcs = Day02::minimal_cube_set(&games[i]);
            let p = Day02::power(&mcs);
            proof {
                util::lemma_cap_add(spec_sum_powers(gv.take(i as int)), p as int);
            }
            total = util::sat_add(total, p);
            i += 1;
        }
        proof {
            assert(gv.take(gv.len() as int) =~= gv);
        }
        util::u64_to_string(total)
    }
}

pub proof fn lemma_sum_ids_nonneg(games: Seq<Seq<CubeSet>>, n: int, red: u32, green: u32, blue: u32)
    ensures
        spec_sum_ids(games, n, red, green, blue) >= 0,
    decreases n,
{
    if n > 0 {
        lemma_sum_ids_nonneg(games, n - 1, red, green, blue);
    }
}

pub proof fn lemma_sum_powers_nonneg(games: Seq<Seq<CubeSet>>)
    ensures
        spec_sum_powers(games) >= 0,
    decreases games.len(),
{
    if games.len() > 0 {
        lemma_sum_powers_nonneg(games.drop_last());
    }
}

} // verus!
