use crate::util;
use crate::Solution;
use vstd::prelude::*;
use vstd::string::StrSliceExecFns;

verus! {

pub struct Day18;

#[derive(Copy, Clone)]
pub enum Direction {
    Right,
    Down,
    Left,
    Up,
}

#[derive(Debug, PartialEq, Eq)]
pub struct ParseDirectionError;

/// Row offset of `i` steps in the direction.
pub open spec fn spec_row_move(d: Direction, i: int) -> int {
    match d {
        Direction::Right => 0,
        Direction::Down => i,
        Direction::Left => 0,
        Direction::Up => -i,
    }
}

/// Column offset of `i` steps in the direction.
pub open spec fn spec_col_move(d: Direction, i: int) -> int {
    match d {
        Direction::Right => i,
        Direction::Down => 0,
        Direction::Left => -i,
        Direction::Up => 0,
    }
}

impl Direction {
    pub fn offsets(&self) -> (r: (i64, i64))
        ensures
            r.0 == spec_row_move(*self, 1),
            r.1 == spec_col_move(*self, 1),
    {
        match self {
            Direction::Right => (0, 1),
            Direction::Down => (1, 0),
            Direction::Left => (0, -1),
            Direction::Up => (-1, 0),
        }
    }

    pub fn from_byte(b: u8) -> (r: Result<Direction, ParseDirectionError>)
        ensures
            (b == 82 || b == 48) ==> r == Result::<Direction, ParseDirectionError>::Ok(
                Direction::Right,
            ),
            (b == 68 || b == 49) ==> r == Result::<Direction, ParseDirectionError>::Ok(
                Direction::Down,
            ),
            (b == 76 || b == 50) ==> r == Result::<Direction, ParseDirectionError>::Ok(
                Direction::Left,
            ),
            (b == 85 || b == 51) ==> r == Result::<Direction, ParseDirectionError>::Ok(
                Direction::Up,
            ),
            !(b == 82 || b == 48 || b == 68 || b == 49 || b == 76 || b == 50 || b == 85 || b == 51)
                ==> r == Result::<Direction, ParseDirectionError>::Err(ParseDirectionError),
    {
        if b == 82 || b == 48 {
            // 'R' or '0'
            Ok(Direction::Right)
        } else if b == 68 || b == 49 {
            // 'D' or '1'
            Ok(Direction::Down)
        } else if b == 76 || b == 50 {
            // 'L' or '2'
            Ok(Direction::Left)
        } else if b == 85 || b == 51 {
            // 'U' or '3'
            Ok(Direction::Up)
        } else {
            Err(ParseDirectionError)
        }
    }
}

/// A dig plan the arithmetic below cannot overflow on: at most 1000 steps,
/// each of at most 2^24 meters.
pub open spec fn plan_ok(plan: Seq<(Direction, i64)>) -> bool {
    plan.len() <= 1000 && forall|k: int|
        0 <= k < plan.len() ==> 0 <= (#[trigger] plan[k]).1 <= 0x100_0000
}

/// The corner reached after the first `k` steps of the plan, starting at
/// the origin.
pub open spec fn spec_vertex(plan: Seq<(Direction, i64)>, k: int) -> (int, int)
    decreases k,
{
    if k <= 0 {
        (0, 0)
    } else {
        let p = spec_vertex(plan, k - 1);
        (
            p.0 + spec_row_move(plan[k - 1].0, plan[k - 1].1 as int),
            p.1 + spec_col_move(plan[k - 1].0, plan[k - 1].1 as int),
        )
    }
}

pub proof fn lemma_vertex_bounded(plan: Seq<(Direction, i64)>, k: int)
    requires
        plan_ok(plan),
        0 <= k <= plan.len(),
    ensures
        -0x40_0000_0000 <= spec_vertex(plan, k).0 <= 0x40_0000_0000,
        -0x40_0000_0000 <= spec_vertex(plan, k).1 <= 0x40_0000_0000,
        -0x100_0000 * k <= spec_vertex(plan, k).0 <= 0x100_0000 * k,
        -0x100_0000 * k <= spec_vertex(plan, k).1 <= 0x100_0000 * k,
    decreases k,
{
    if k > 0 {
        lemma_vertex_bounded(plan, k - 1);
    }
}

/// Total length of the boundary: the sum of all step lengths.
pub open spec fn spec_boundary(plan: Seq<(Direction, i64)>) -> int
    decreases plan.len(),
{
    if plan.len() == 0 {
        0
    } else {
        spec_boundary(plan.drop_last()) + plan.last().1
    }
}

pub proof fn lemma_boundary_bounded(plan: Seq<(Direction, i64)>)
    requires
        plan.len() <= 1000,
        forall|k: int| 0 <= k < plan.len() ==> 0 <= (#[trigger] plan[k]).1 <= 0x100_0000,
    ensures
        0 <= spec_boundary(plan) <= 0x100_0000 * plan.len(),
    decreases plan.len(),
{
    if plan.len() > 0 {
        assert(forall|k: int|
            0 <= k < plan.drop_last().len() ==> 0 <= (#[trigger] plan.drop_last()[k]).1
                <= 0x100_0000);
        lemma_boundary_bounded(plan.drop_last());
    }
}

pub open spec fn poly_view(poly: Seq<(i64, i64)>) -> Seq<(int, int)> {
    poly.map_values(|p: (i64, i64)| (p.0 as int, p.1 as int))
}

/// One term of the shoelace sum for the edge from `a` to `b`.
pub open spec fn sh_term(a: (int, int), b: (int, int)) -> int {
    a.0 * b.1 - b.0 * a.1
}

/// The shoelace sum over the first `k` edges of the closed polygon.
pub open spec fn sh_sum(poly: Seq<(int, int)>, k: int) -> int
    decreases k,
{
    if k <= 0 {
        0
    } else {
        sh_sum(poly, k - 1) + sh_term(
            poly[k - 1],
            poly[if k == poly.len() {
                0int
            } else {
                k
            }],
        )
    }
}

pub open spec fn coords_small(poly: Seq<(int, int)>) -> bool {
    forall|k: int|
        0 <= k < poly.len() ==> -0x40_0000_0000 <= (#[trigger] poly[k]).0 <= 0x40_0000_0000
            && -0x40_0000_0000 <= poly[k].1 <= 0x40_0000_0000
}

pub proof fn lemma_sh_sum_bounded(poly: Seq<(int, int)>, k: int)
    requires
        coords_small(poly),
        0 <= k <= poly.len() <= 1000,
    ensures
        -k * 0x2000_0000_0000_0000_0000 <= sh_sum(poly, k) <= k * 0x2000_0000_0000_0000_0000,
    decreases k,
{
    if k > 0 {
        lemma_sh_sum_bounded(poly, k - 1);
        let a = poly[k - 1];
        let b = poly[if k == poly.len() {
            0int
        } else {
            k
        }];
        assert(-0x1000_0000_0000_0000_0000 <= a.0 * b.1 <= 0x1000_0000_0000_0000_0000)
            by (nonlinear_arith)
            requires
                -0x40_0000_0000 <= a.0 <= 0x40_0000_0000,
                -0x40_0000_0000 <= b.1 <= 0x40_0000_0000,
        ;
        assert(-0x1000_0000_0000_0000_0000 <= b.0 * a.1 <= 0x1000_0000_0000_0000_0000)
            by (nonlinear_arith)
            requires
                -0x40_0000_0000 <= b.0 <= 0x40_0000_0000,
                -0x40_0000_0000 <= a.1 <= 0x40_0000_0000,
        ;
    }
}

/// The enclosed area of the polygon: half the magnitude of the shoelace
/// sum over all its edges.
pub open spec fn spec_area(poly: Seq<(int, int)>) -> int {
    let s = sh_sum(poly, poly.len() as int);
    (if s >= 0 {
        s
    } else {
        -s
    }) / 2
}

/// Interior lattice points, by Pick's theorem rearranged.
pub open spec fn spec_interior(area: int, boundary: int) -> int {
    area - boundary / 2 + 1
}

/// The whole dug-out volume: interior plus boundary lattice points.
pub open spec fn spec_volume(plan: Seq<(Direction, i64)>) -> int {
    let poly = Seq::new(plan.len(), |k: int| spec_vertex(plan, k + 1));
    let b = spec_boundary(plan);
    spec_interior(spec_area(poly), b) + b
}

impl Day18 {
    /// The point `i` steps away from `point` in direction `d`.
    pub fn move_i(i: i64, d: Direction, point: (i64, i64)) -> (r: (i64, i64))
        requires
            0 <= i <= 0x100_0000,
            -0x40_0000_0000 <= point.0 <= 0x40_0000_0000,
            -0x40_0000_0000 <= point.1 <= 0x40_0000_0000,
        ensures
            r.0 == point.0 + spec_row_move(d, i as int),
            r.1 == point.1 + spec_col_move(d, i as int),
    {
        let (dr, dc) = d.offsets();
        match d {
            Direction::Right => (point.0, point.1 + i),
            Direction::Down => (point.0 + i, point.1),
            Direction::Left => (point.0, point.1 - i),
            Direction::Up => (point.0 - i, point.1),
        }
    }

    /// The corners the plan traces, in order, starting after its first step.
    #[verifier::loop_isolation(false)]
    pub fn polygon(plan: &Vec<(Direction, i64)>) -> (r: Vec<(i64, i64)>)
        requires
            plan_ok(plan@),
        ensures
            r@.len() == plan@.len(),
            forall|k: int|
                0 <= k < r@.len() ==> (#[trigger] r@[k]).0 as int == spec_vertex(plan@, k + 1).0
                    && r@[k].1 as int == spec_vertex(plan@, k + 1).1,
            coords_small(poly_view(r@)),
    {
        let mut r: Vec<(i64, i64)> = Vec::new();
        let mut point: (i64, i64) = (0, 0);
        let mut i: usize = 0;
        while i < plan.len()
            invariant
                i <= plan@.len(),
                r@.len() == i,
                (point.0 as int, point.1 as int) == spec_vertex(plan@, i as int),
                -0x40_0000_0000 <= point.0 <= 0x40_0000_0000,
                -0x40_0000_0000 <= point.1 <= 0x40_0000_0000,
                forall|k: int|
                    0 <= k < i ==> (#[trigger] r@[k]).0 as int == spec_vertex(plan@, k + 1).0
                        && r@[k].1 as int == spec_vertex(plan@, k + 1).1,
                coords_small(poly_view(r@)),
            decreases plan@.len() - i,
        {
            let (d, steps) = plan[i];
            point = Day18::move_i(steps, d, point);
            proof {
                lemma_vertex_bounded(plan@, i + 1);
            }
            let ghost r_prev = r@;
            r.push(point);
            proof {
                assert forall|k: int|
                    0 <= k < poly_view(r@).len() implies -0x40_0000_0000 <= (#[trigger] poly_view(
                    r@,
                )[k]).0 <= 0x40_0000_0000 && -0x40_0000_0000 <= poly_view(r@)[k].1
                    <= 0x40_0000_0000 by {
                    assert(poly_view(r@)[k] == (r@[k].0 as int, r@[k].1 as int));
                    if k < r_prev.len() {
                        assert(r@[k] == r_prev[k]);
                        assert(poly_view(r_prev)[k] == (r_prev[k].0 as int, r_prev[k].1 as int));
                    }
                }
            }
            i += 1;
        }
        r
    }

    /// The boundary length of the plan.
    #[verifier::loop_isolation(false)]
    pub fn boundary(plan: &Vec<(Direction, i64)>) -> (r: i64)
        requires
            plan_ok(plan@),
        ensures
            r as int == spec_boundary(plan@),
    {
        let mut acc: i64 = 0;
        let mut i: usize = 0;
        while i < plan.len()
            invariant
                i <= plan@.len(),
                acc as int == spec_boundary(plan@.take(i as int)),
                0 <= acc,
            decreases plan@.len() - i,
        {
            proof {
                assert(plan@.take(i + 1).drop_last() =~= plan@.take(i as int));
                assert(forall|k: int|
                    0 <= k < plan@.take(i as int).len() ==> 0 <= (#[trigger] plan@.take(
                        i as int,
                    )[k]).1 <= 0x100_0000);
                lemma_boundary_bounded(plan@.take(i as int));
            }
            acc = acc + plan[i].1;
            i += 1;
        }
        proof {
            assert(plan@.take(plan@.len() as int) =~= plan@);
        }
        acc
    }

    /// The polygon's enclosed area by the shoelace formula.
    #[verifier::loop_isolation(false)]
    pub fn area(polygon: &Vec<(i64, i64)>) -> (r: i128)
        requires
            coords_small(poly_view(polygon@)),
            polygon@.len() <= 1000,
        ensures
            r as int == spec_area(poly_view(polygon@)),
    {
        let ghost pv = poly_view(polygon@);
        let n = polygon.len();
        let mut s: i128 = 0;
        let mut i: usize = 0;
        while i < n
            invariant
                i <= n,
                n == polygon@.len(),
                pv == poly_view(polygon@),
                s as int == sh_sum(pv, i as int),
            decreases n - i,
        {
            let a = polygon[i];
            let b = if i + 1 == n {
                polygon[0]
            } else {
                polygon[i + 1]
            };
            proof {
                assert(pv[i as int] == (a.0 as int, a.1 as int));
                assert(pv[if i + 1 == n { 0int } else { i + 1 }] == (b.0 as int, b.1 as int));
                lemma_sh_sum_bounded(pv, i as int);
                lemma_sh_sum_bounded(pv, i + 1);
                assert(-0x2000_0000_0000_0000_0000 <= (a.0 as int) * (b.1 as int)
                    <= 0x2000_0000_0000_0000_0000) by (nonlinear_arith)
                    requires
                        -0x40_0000_0000 <= a.0 as int <= 0x40_0000_0000,
                        -0x40_0000_0000 <= b.1 as int <= 0x40_0000_0000,
                ;
                assert(-0x2000_0000_0000_0000_0000 <= (b.0 as int) * (a.1 as int)
                    <= 0x2000_0000_0000_0000_0000) by (nonlinear_arith)
                    requires
                        -0x40_0000_0000 <= b.0 as int <= 0x40_0000_0000,
                        -0x40_0000_0000 <= a.1 as int <= 0x40_0000_0000,
                ;
            }
            let term = (a.0 as i128) * (b.1 as i128) - (b.0 as i128) * (a.1 as i128);
            s = s + term;
            i += 1;
        }
        proof {
            lemma_sh_sum_bounded(pv, n as int);
        }
        let m = if s < 0 {
            -s
        } else {
            s
        };
        m / 2
    }

    /// Interior lattice points from area and boundary, by Pick's theorem.
    pub fn interior(area: i128, boundary: i128) -> (r: i128)
        requires
            0 <= area <= 0x4000_0000_0000_0000_0000_0000,
            0 <= boundary <= 0x4000_0000_0000_0000_0000_0000,
        ensures
            r as int == spec_interior(area as int, boundary as int),
    {
        area - boundary / 2 + 1
    }

    /// Lattice points dug out by the whole plan: interior plus boundary.
    pub fn volume(plan: &Vec<(Direction, i64)>) -> (r: i128)
        requires
            plan_ok(plan@),
        ensures
            r as int == spec_volume(plan@),
    {
        let poly = Day18::polygon(plan);
        let b = Day18::boundary(plan);
        proof {
            assert(poly_view(poly@) =~= Seq::new(plan@.len(), |k: int| spec_vertex(plan@, k + 1)));
        }
        let a = Day18::area(&poly);
        proof {
            lemma_sh_sum_bounded(poly_view(poly@), poly@.len() as int);
            lemma_boundary_bounded(plan@);
            let sv = sh_sum(poly_view(poly@), poly_view(poly@).len() as int);
            assert(poly_view(poly@).len() == poly@.len());
            assert(-1000 * 0x2000_0000_0000_0000_0000 <= sv <= 1000 * 0x2000_0000_0000_0000_0000);
            let m = if sv >= 0 { sv } else { -sv };
            assert(0 <= m <= 0x7D_0000_0000_0000_0000_0000);
            assert(a as int == m / 2);
            if m == 0 {
                assert(m / 2 == 0) by (nonlinear_arith)
                    requires
                        m == 0,
                ;
            } else {
                vstd::arithmetic::div_mod::lemma_div_decreases(m, 2);
            }
            assert(a as int <= 0x4000_0000_0000_0000_0000_0000);
        }
        let inner = Day18::interior(a, b as i128);
        inner + (b as i128)
    }
}

impl Solution for Day18 {
    type ParsedInput = (Vec<(Direction, i64)>, Vec<(Direction, i64)>);

    fn parse_input(input_lines: &str) -> (Vec<(Direction, i64)>, Vec<(Direction, i64)>) {
        let bytes = input_lines.as_bytes_vec();
        let ls = util::lines(&bytes);
        let mut plain: Vec<(Direction, i64)> = Vec::new();
        let mut hex: Vec<(Direction, i64)> = Vec::new();
        let mut i: usize = 0;
        while i < ls.len()
            decreases ls@.len() - i,
        {
            let toks = util::tokens(&ls[i]);
            if toks.len() == 3 && toks[0].len() == 1 {
                match Direction::from_byte(toks[0][0]) {
                    Ok(d) => {
                        match util::parse_u64(&toks[1]) {
                            Some(n) => {
                                if n <= 0x100_0000 {
                                    plain.push((d, n as i64));
                                }
                            },
                            None => {},
                        }
                    },
                    Err(_) => {},
                }
                // the third token holds (#rrrrrd): five hex digits of
                // distance, then a direction digit
                let h = &toks[2];
                if h.len() == 9 {
                    let mut val: u64 = 0;
                    let mut ok = true;
                    let mut k: usize = 2;
                    while k < 7
                        invariant
                            2 <= k <= 7,
                            h@.len() == 9,
                            k == 2 ==> val == 0,
                            k == 3 ==> val < 0x10,
                            k == 4 ==> val < 0x100,
                            k == 5 ==> val < 0x1000,
                            k == 6 ==> val < 0x10000,
                            k == 7 ==> val < 0x100000,
                        decreases 7 - k,
                    {
                        let b = h[k];
                        let d = if b >= 48 && b <= 57 {
                            (b - 48) as u64
                        } else if b >= 97 && b <= 102 {
                            (b - 87) as u64
                        } else if b >= 65 && b <= 70 {
                            (b - 55) as u64
                        } else {
                            ok = false;
                            0
                        };
                        val = val * 16 + d;
                        k += 1;
                    }
                    if ok {
                        match Direction::from_byte(h[7]) {
                            Ok(d) => hex.push((d, val as i64)),
                            Err(_) => {},
                        }
                    }
                }
            }
            i += 1;
        }
        (plain, hex)
    }

    fn part_one(parsed_input: &mut (Vec<(Direction, i64)>, Vec<(Direction, i64)>)) -> (res:
        String)
        ensures
            plan_ok(old(parsed_input).0@) ==> res@ == util::spec_i64_chars(
                spec_clamp_i64(spec_volume(old(parsed_input).0@)),
            ),
            !plan_ok(old(parsed_input).0@) ==> res@ == "0"@,
    {
        let plan = &parsed_input.0;
        if check_plan(plan) {
            i128_digits(Day18::volume(plan))
        } else {
            "0".to_owned()
        }
    }

    fn part_two(parsed_input: &mut (Vec<(Direction, i64)>, Vec<(Direction, i64)>)) -> (res:
        String)
        ensures
            plan_ok(old(parsed_input).1@) ==> res@ == util::spec_i64_chars(
                spec_clamp_i64(spec_volume(old(parsed_input).1@)),
            ),
            !plan_ok(old(parsed_input).1@) ==> res@ == "0"@,
    {
        let plan = &parsed_input.1;
        if check_plan(plan) {
            i128_digits(Day18::volume(plan))
        } else {
            "0".to_owned()
        }
    }
}

/// Exec mirror of `plan_ok`.
pub fn check_plan(plan: &Vec<(Direction, i64)>) -> (r: bool)
    ensures
        r == plan_ok(plan@),
{
    if plan.len() > 1000 {
        return false;
    }
    let mut i: usize = 0;
    while i < plan.len()
        invariant
            i <= plan@.len(),
            plan@.len() <= 1000,
            forall|k: int| 0 <= k < i ==> 0 <= (#[trigger] plan@[k]).1 <= 0x100_0000,
        decreases plan@.len() - i,
    {
        if plan[i].1 < 0 || plan[i].1 > 0x100_0000 {
            return false;
        }
        i += 1;
    }
    true
}

/// The value cut to the `i64` range.
pub open spec fn spec_clamp_i64(v: int) -> int {
    if v > i64::MAX {
        i64::MAX as int
    } else if v < i64::MIN {
        i64::MIN as int
    } else {
        v
    }
}

/// Renders volumes that fit an `i64` (larger ones are cut to the bound).
fn i128_digits(v: i128) -> (r: String)
    ensures
        r@ == util::spec_i64_chars(spec_clamp_i64(v as int)),
{
    let w: i64 = if v > i64::MAX as i128 {
        i64::MAX
    } else if v < i64::MIN as i128 {
        i64::MIN
    } else {
        v as i64
    };
    util::i64_to_string(w)
}

} // verus!
