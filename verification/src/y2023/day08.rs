use crate::util;
use crate::Solution;
use vstd::prelude::*;
use vstd::string::StrSliceExecFns;

verus! {

pub struct Day08;

pub enum Direction {
    Left,
    Right,
}

/// Greatest common divisor, by Euclid.
pub open spec fn spec_gcd(a: int, b: int) -> int
    decreases b,
{
    if b <= 0 {
        a
    } else {
        spec_gcd(b, a % b)
    }
}

pub open spec fn spec_lcm(a: int, b: int) -> int {
    if a <= 0 || b <= 0 {
        0
    } else {
        (a / spec_gcd(a, b)) * b
    }
}

pub proof fn lemma_gcd_pos(a: int, b: int)
    requires
        a > 0,
        b >= 0,
    ensures
        spec_gcd(a, b) > 0,
    decreases b,
{
    if b > 0 {
        lemma_gcd_pos(b, a % b);
    }
}

pub fn gcd_u64(a: u64, b: u64) -> (r: u64)
    ensures
        r as int == spec_gcd(a as int, b as int),
    decreases b,
{
    if b == 0 {
        a
    } else {
        gcd_u64(b, a % b)
    }
}

/// The least common multiple, `None` where it would not fit a `u64`.
pub fn lcm_u64(a: u64, b: u64) -> (r: Option<u64>)
    ensures
        match r {
            Some(v) => v as int == spec_lcm(a as int, b as int),
            None => spec_lcm(a as int, b as int) > u64::MAX,
        },
{
    if a == 0 || b == 0 {
        return Some(0);
    }
    let g = gcd_u64(a, b);
    proof {
        lemma_gcd_pos(a as int, b as int);
    }
    let q = a / g;
    if q > u64::MAX / b {
        proof {
            let qi = q as int;
            let bi = b as int;
            vstd::arithmetic::div_mod::lemma_fundamental_div_mod(u64::MAX as int, bi);
            assert(qi * bi > u64::MAX) by (nonlinear_arith)
                requires
                    bi >= 1,
                    qi >= (u64::MAX as int) / bi + 1,
                    u64::MAX as int == bi * ((u64::MAX as int) / bi) + (u64::MAX as int) % bi,
                    (u64::MAX as int) % bi < bi,
            ;
        }
        return None;
    }
    proof {
        assert((q as int) * (b as int) <= u64::MAX) by (nonlinear_arith)
            requires
                b as int > 0,
                q as int <= (u64::MAX as int) / (b as int),
        {
            vstd::arithmetic::div_mod::lemma_fundamental_div_mod(u64::MAX as int, b as int);
        }
        assert((q as int) * (b as int) >= 0) by (nonlinear_arith)
            requires
                q as int >= 0,
                b as int >= 0,
        ;
    }
    Some(q * b)
}

/// What the walk is looking for: one exact node, or any node whose name
/// ends in `Z`.
pub enum Goal {
    Exact(u32),
    EndsInZ,
}

pub open spec fn spec_at_goal(goal: Goal, node: u32) -> bool {
    match goal {
        Goal::Exact(t) => node == t,
        Goal::EndsInZ => node % 36 == 25,
    }
}

/// The network entry for a node: the last matching line among the first
/// `k`.
pub open spec fn spec_lookup(network: Seq<(u32, u32, u32)>, node: u32, k: int) -> Option<
    (u32, u32),
>
    decreases k,
{
    if k <= 0 {
        None
    } else if network[k - 1].0 == node {
        Some((network[k - 1].1, network[k - 1].2))
    } else {
        spec_lookup(network, node, k - 1)
    }
}

/// The walk, one instruction at a time, with `fuel` steps allowed.
pub open spec fn spec_traverse(
    directions: Seq<Direction>,
    network: Seq<(u32, u32, u32)>,
    i: int,
    node: u32,
    goal: Goal,
    steps: int,
    fuel: int,
) -> Option<(u32, int)>
    decreases fuel,
{
    if fuel <= 0 || directions.len() == 0 || i < 0 || i >= directions.len() {
        None
    } else {
        match spec_lookup(network, node, network.len() as int) {
            None => None,
            Some(lr) => {
                let node2 = match directions[i] {
                    Direction::Left => lr.0,
                    Direction::Right => lr.1,
                };
                let i2 = if i + 1 == directions.len() {
                    0int
                } else {
                    i + 1
                };
                if steps >= fuel - 1 {
                    if spec_at_goal(goal, node2) {
                        Some((node2, steps + 1))
                    } else {
                        None
                    }
                } else if spec_at_goal(goal, node2) {
                    Some((node2, steps + 1))
                } else {
                    spec_traverse(directions, network, i2, node2, goal, steps + 1, fuel - 1)
                }
            },
        }
    }
}

pub open spec fn opt_pair_int(o: Option<(u32, u64)>) -> Option<(u32, int)> {
    match o {
        Some(p) => Some((p.0, p.1 as int)),
        None => None,
    }
}

impl Day08 {
    /// Walks the network from `src`, turning as the instruction tape says
    /// (cyclically, starting at `direction_index`), until the goal; gives
    /// the node reached and the steps taken. `None` when a node is missing
    /// from the network or the walk exhausts every (node, phase) pair.
    #[verifier::loop_isolation(false)]
    pub fn traverse(
        directions: &Vec<Direction>,
        network: &Vec<(u32, u32, u32)>,
        direction_index: usize,
        src: u32,
        goal: Goal,
    ) -> (r: Option<(u32, u64)>)
        ensures
            (directions@.len() == 0 || network@.len() == 0 || network@.len() > 0x10000) ==> r
                is None,
            (directions@.len() > 0 && network@.len() > 0 && network@.len() <= 0x10000)
                ==> opt_pair_int(r) == spec_traverse(
                directions@,
                network@,
                (direction_index as int) % (directions@.len() as int),
                src,
                goal,
                0,
                util::spec_cap_u64(
                    (network@.len() as int + 1) * (directions@.len() as int),
                ),
            ),
            match r {
                Some(p) => spec_at_goal(goal, p.0) && p.1 >= 1,
                None => true,
            },
    {
        if directions.len() == 0 || network.len() == 0 || network.len() > 0x10000 {
            return None;
        }
        proof {
            assert((network@.len() as int + 1) * (directions@.len() as int) <= 0x10001 * (
            directions@.len() as int)) by (nonlinear_arith)
                requires
                    network@.len() as int <= 0x10000,
                    directions@.len() as int >= 0,
            ;
        }
        // one step per (node, tape phase) pair, and one spare lap
        let laps = network.len() as u64 + 1;
        let dl = directions.len() as u64;
        let mut fuel: u64 = util::sat_mul(laps, dl);
        let mut node = src;
        let mut i = direction_index % directions.len();
        let mut steps: u64 = 0;
        let ghost target = spec_traverse(
            directions@,
            network@,
            i as int,
            node,
            goal,
            0,
            fuel as int,
        );
        while fuel > 0
            invariant
                directions@.len() > 0,
                i < directions@.len(),
                steps < u64::MAX,
                steps <= fuel,
                spec_traverse(
                    directions@,
                    network@,
                    i as int,
                    node,
                    goal,
                    steps as int,
                    fuel as int,
                ) == target,
            decreases fuel,
        {
            let mut next: Option<(u32, u32)> = None;
            let mut k: usize = 0;
            while k < network.len()
                invariant
                    k <= network@.len(),
                    next == spec_lookup(network@, node, k as int),
                decreases network@.len() - k,
            {
                if network[k].0 == node {
                    next = Some((network[k].1, network[k].2));
                }
                k += 1;
            }
            let ghost ipre = i as int;
            let ghost npre = node;
            let ghost spre = steps as int;
            let ghost fpre = fuel as int;
            let (l, rgt) = match next {
                Some(p) => p,
                None => {
                    return None;
                },
            };
            node = match directions[i] {
                Direction::Left => l,
                Direction::Right => rgt,
            };
            i = if i + 1 == directions.len() {
                0
            } else {
                i + 1
            };
            if steps >= fuel - 1 {
                // walked a full lap of every pair without reaching the goal
                if spec_goal_check(&goal, node) {
                    return Some((node, steps + 1));
                }
                return None;
            }
            steps = steps + 1;
            if spec_goal_check(&goal, node) {
                return Some((node, steps));
            }
            fuel = fuel - 1;
            proof {
                assert(spec_traverse(
                    directions@,
                    network@,
                    ipre,
                    npre,
                    goal,
                    spre,
                    fpre,
                ) == spec_traverse(
                    directions@,
                    network@,
                    i as int,
                    node,
                    goal,
                    steps as int,
                    fuel as int,
                ));
            }
        }
        None
    }
}

/// Exec mirror of `spec_at_goal`.
fn spec_goal_check(goal: &Goal, node: u32) -> (r: bool)
    ensures
        r == spec_at_goal(*goal, node),
{
    match goal {
        Goal::Exact(t) => node == *t,
        Goal::EndsInZ => node % 36 == 25,
    }
}

/// The 36-symbol code of a node name character (`A`..`Z`, then digits).
fn sym_code(b: u8) -> (r: Option<u32>)
    ensures
        match r {
            Some(v) => v < 36,
            None => true,
        },
{
    if b >= 65 && b <= 90 {
        Some((b - 65) as u32)
    } else if b >= 48 && b <= 57 {
        Some((b - 48 + 26) as u32)
    } else {
        None
    }
}

/// What the ghost-walk search yields for one start node.
pub open spec fn spec_walk_z(dirs: Seq<Direction>, network: Seq<(u32, u32, u32)>, node: u32) -> Option<
    (u32, int),
> {
    if dirs.len() == 0 || network.len() == 0 || network.len() > 0x10000 {
        None
    } else {
        spec_traverse(
            dirs,
            network,
            0int % (dirs.len() as int),
            node,
            Goal::EndsInZ,
            0,
            util::spec_cap_u64((network.len() as int + 1) * (dirs.len() as int)),
        )
    }
}

/// The least common multiple of the ghost walks from the first `i` start
/// nodes (names ending in `A`), or nothing once a walk fails or the
/// multiple leaves `u64`.
pub open spec fn spec_lcm_steps(
    dirs: Seq<Direction>,
    network: Seq<(u32, u32, u32)>,
    i: int,
) -> Option<u64>
    decreases i,
{
    if i <= 0 {
        Some(1u64)
    } else {
        match spec_lcm_steps(dirs, network, i - 1) {
            None => None,
            Some(acc) => {
                let node = network[i - 1].0;
                if node % 36 == 0 {
                    match spec_walk_z(dirs, network, node) {
                        None => None,
                        Some(p) => if spec_lcm(acc as int, p.1) > u64::MAX {
                            None
                        } else {
                            Some(spec_lcm(acc as int, p.1) as u64)
                        },
                    }
                } else {
                    Some(acc)
                }
            },
        }
    }
}

pub proof fn lemma_lcm_steps_none(dirs: Seq<Direction>, network: Seq<(u32, u32, u32)>, i: int, j: int)
    requires
        0 <= i <= j,
        spec_lcm_steps(dirs, network, i) is None,
    ensures
        spec_lcm_steps(dirs, network, j) is None,
    decreases j - i,
{
    if i < j {
        lemma_lcm_steps_none(dirs, network, i + 1, j);
    }
}

impl Solution for Day08 {
    type ParsedInput = (Vec<Direction>, Vec<(u32, u32, u32)>);

    fn parse_input(input_lines: &str) -> (Vec<Direction>, Vec<(u32, u32, u32)>) {
        let bytes = input_lines.as_bytes_vec();
        let ls = util::lines(&bytes);
        let mut dirs: Vec<Direction> = Vec::new();
        let mut network: Vec<(u32, u32, u32)> = Vec::new();
        if ls.len() == 0 {
            return (dirs, network);
        }
        let first = &ls[0];
        let mut k: usize = 0;
        while k < first.len()
            decreases first@.len() - k,
        {
            if first[k] == 76 {
                dirs.push(Direction::Left);
            } else if first[k] == 82 {
                dirs.push(Direction::Right);
            }
            k += 1;
        }
        let mut li: usize = 1;
        while li < ls.len()
            decreases ls@.len() - li,
        {
            let line = &ls[li];
            // gather the three-symbol node names on the line
            let mut codes: Vec<u32> = Vec::new();
            let mut p: usize = 0;
            while p < line.len()
                invariant
                    p <= line@.len(),
                decreases line@.len() - p,
            {
                if line.len() >= 3 && p <= line.len() - 3 {
                    let a = sym_code(line[p]);
                    let b = sym_code(line[p + 1]);
                    let c = sym_code(line[p + 2]);
                    match (a, b, c) {
                        (Some(x), Some(y), Some(z)) => {
                            let further = line.len() >= 4 && p <= line.len() - 4 && sym_code(
                                line[p + 3],
                            ).is_some();
                            if !further {
                                codes.push(x * 1296 + y * 36 + z);
                                p += 3;
                            } else {
                                p += 1;
                            }
                        },
                        _ => {
                            p += 1;
                        },
                    }
                } else {
                    p += 1;
                }
            }
            if codes.len() == 3 {
                network.push((codes[0], codes[1], codes[2]));
            }
            li += 1;
        }
        (dirs, network)
    }

    fn part_one(parsed_input: &mut (Vec<Direction>, Vec<(u32, u32, u32)>)) -> (res: String)
        ensures
            ({
                let dirs = old(parsed_input).0@;
                let network = old(parsed_input).1@;
                if dirs.len() == 0 || network.len() == 0 || network.len() > 0x10000 {
                    res@ == "0"@
                } else {
                    match spec_traverse(
                        dirs,
                        network,
                        0int % (dirs.len() as int),
                        0u32,
                        Goal::Exact((25 * 1296 + 25 * 36 + 25) as u32),
                        0,
                        util::spec_cap_u64((network.len() as int + 1) * (dirs.len() as int)),
                    ) {
                        Some(p) => res@ == util::spec_u64_chars(p.1),
                        None => res@ == "0"@,
                    }
                }
            }),
    {
        let (dirs, network) = parsed_input;
        // AAA and ZZZ
        let src: u32 = 0;
        let dst: u32 = 25 * 1296 + 25 * 36 + 25;
        match Day08::traverse(dirs, network, 0, src, Goal::Exact(dst)) {
            Some((_, steps)) => util::u64_to_string(steps),
            None => "0".to_owned(),
        }
    }

    fn part_two(parsed_input: &mut (Vec<Direction>, Vec<(u32, u32, u32)>)) -> (res: String)
        ensures
            ({
                let dirs = old(parsed_input).0@;
                let network = old(parsed_input).1@;
                match spec_lcm_steps(dirs, network, network.len() as int) {
                    Some(v) => res@ == util::spec_u64_chars(v as int),
                    None => res@ == "0"@,
                }
            }),
    {
        let (dirs, network) = parsed_input;
        let mut acc: u64 = 1;
        let mut i: usize = 0;
        while i < network.len()
            invariant
                i <= network@.len(),
                dirs@ == old(parsed_input).0@,
                network@ == old(parsed_input).1@,
                spec_lcm_steps(dirs@, network@, i as int) == Some(acc),
            decreases network@.len() - i,
        {
            let node = network[i].0;
            if node % 36 == 0 {
                // a start: its name ends in A
                match Day08::traverse(dirs, network, 0, node, Goal::EndsInZ) {
                    Some((_, steps)) => {
                        match lcm_u64(acc, steps) {
                            Some(v) => {
                                acc = v;
                            },
                            None => {
                                proof {
                                    assert(spec_lcm_steps(dirs@, network@, i as int + 1) is None);
                                    lemma_lcm_steps_none(
                                        dirs@,
                                        network@,
                                        i as int + 1,
                                        network@.len() as int,
                                    );
                                }
                                return "0".to_owned();
                            },
                        }
                    },
                    None => {
                        proof {
                            assert(spec_lcm_steps(dirs@, network@, i as int + 1) is None);
                            lemma_lcm_steps_none(
                                dirs@,
                                network@,
                                i as int + 1,
                                network@.len() as int,
                            );
                        }
                        return "0".to_owned();
                    },
                }
            }
            i += 1;
        }
        util::u64_to_string(acc)
    }
}

} // verus!
