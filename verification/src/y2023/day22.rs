use crate::util;
use crate::Solution;
use vstd::prelude::*;
use vstd::string::StrSliceExecFns;

verus! {

pub struct Day22;

#[derive(Copy, Clone, PartialEq, Eq, Structural)]
pub struct Coordinate {
    pub x: u64,
    pub y: u64,
    pub z: u64,
}

/// A brick: its two end cells, inclusive.
#[derive(Copy, Clone, PartialEq, Eq, Structural)]
pub struct Brick(pub Coordinate, pub Coordinate);

#[derive(Debug, PartialEq, Eq)]
pub struct ParseError;

/// Bricks the settling arithmetic is sized for.
pub open spec fn bricks_ok(bricks: Seq<Brick>) -> bool {
    bricks.len() <= 0x1000 && forall|i: int|
        0 <= i < bricks.len() ==> (#[trigger] bricks[i]).0.x < 0x200 && bricks[i].0.y < 0x200
            && bricks[i].0.z < 0x10000 && bricks[i].1.x < 0x200 && bricks[i].1.y < 0x200
            && bricks[i].1.z < 0x10000
}

pub open spec fn spec_min64(a: u64, b: u64) -> u64 {
    if a <= b {
        a
    } else {
        b
    }
}

pub open spec fn spec_max64(a: u64, b: u64) -> u64 {
    if a >= b {
        a
    } else {
        b
    }
}

/// The sort key of each brick: its lower `z` end, then its index.
pub open spec fn spec_keyed22(bricks: Seq<Brick>) -> Seq<(u64, u64)> {
    Seq::new(bricks.len(), |i: int| (spec_min64(bricks[i].0.z, bricks[i].1.z), i as u64))
}

pub open spec fn supports_view(supports: Seq<Vec<usize>>) -> Seq<Seq<usize>> {
    supports.map_values(|v: Vec<usize>| v@)
}

/// The tallest stack under the first `j` cells of footprint row `x`.
pub open spec fn spec_maxh_row(h: Seq<(u64, usize)>, x: int, miny: int, j: int, acc: u64) -> u64
    decreases j,
{
    if j <= 0 {
        acc
    } else {
        let prev = spec_maxh_row(h, x, miny, j - 1, acc);
        let v = h[x * 0x200 + miny + (j - 1)].0;
        if v > prev {
            v
        } else {
            prev
        }
    }
}

/// The tallest stack under the first `i` rows of the footprint.
pub open spec fn spec_maxh(
    h: Seq<(u64, usize)>,
    minx: int,
    miny: int,
    maxy: int,
    i: int,
    acc: u64,
) -> u64
    decreases i,
{
    if i <= 0 {
        acc
    } else {
        spec_maxh_row(
            h,
            minx + (i - 1),
            miny,
            maxy - miny + 1,
            spec_maxh(h, minx, miny, maxy, i - 1, acc),
        )
    }
}

/// The owners at height `maxh` in the first `j` cells of footprint row
/// `x`, once each.
pub open spec fn spec_sup_row(
    h: Seq<(u64, usize)>,
    x: int,
    miny: int,
    j: int,
    maxh: u64,
    acc: Seq<usize>,
) -> Seq<usize>
    decreases j,
{
    if j <= 0 {
        acc
    } else {
        let prev = spec_sup_row(h, x, miny, j - 1, maxh, acc);
        let cell = h[x * 0x200 + miny + (j - 1)];
        if cell.0 == maxh && cell.1 != usize::MAX && !prev.contains(cell.1) {
            prev.push(cell.1)
        } else {
            prev
        }
    }
}

/// The owners at height `maxh` under the first `i` rows of the footprint.
pub open spec fn spec_sup(
    h: Seq<(u64, usize)>,
    minx: int,
    miny: int,
    maxy: int,
    i: int,
    maxh: u64,
    acc: Seq<usize>,
) -> Seq<usize>
    decreases i,
{
    if i <= 0 {
        acc
    } else {
        spec_sup_row(
            h,
            minx + (i - 1),
            miny,
            maxy - miny + 1,
            maxh,
            spec_sup(h, minx, miny, maxy, i - 1, maxh, acc),
        )
    }
}

/// The first `j` cells of footprint row `x` overwritten with `val`.
pub open spec fn spec_upd_row(
    h: Seq<(u64, usize)>,
    x: int,
    miny: int,
    j: int,
    val: (u64, usize),
) -> Seq<(u64, usize)>
    decreases j,
{
    if j <= 0 {
        h
    } else {
        spec_upd_row(h, x, miny, j - 1, val).update(x * 0x200 + miny + (j - 1), val)
    }
}

/// The first `i` footprint rows overwritten with `val`.
pub open spec fn spec_upd(
    h: Seq<(u64, usize)>,
    minx: int,
    miny: int,
    maxy: int,
    i: int,
    val: (u64, usize),
) -> Seq<(u64, usize)>
    decreases i,
{
    if i <= 0 {
        h
    } else {
        spec_upd_row(
            spec_upd(h, minx, miny, maxy, i - 1, val),
            minx + (i - 1),
            miny,
            maxy - miny + 1,
            val,
        )
    }
}

/// One brick of the settling scan: it rests on the tallest stack under
/// its footprint, its supporters are that stack's owners, and its
/// footprint then carries its top.
pub open spec fn spec_settle_step(
    h: Seq<(u64, usize)>,
    settled: Seq<Brick>,
    supports: Seq<Seq<usize>>,
    b: Brick,
) -> (Seq<(u64, usize)>, Seq<Brick>, Seq<Seq<usize>>) {
    let minx = spec_min64(b.0.x, b.1.x) as int;
    let maxx = spec_max64(b.0.x, b.1.x) as int;
    let miny = spec_min64(b.0.y, b.1.y) as int;
    let maxy = spec_max64(b.0.y, b.1.y) as int;
    let maxh = spec_maxh(h, minx, miny, maxy, maxx - minx + 1, 0);
    let sup = spec_sup(h, minx, miny, maxy, maxx - minx + 1, maxh, Seq::empty());
    let rest_z = util::spec_cap_u64(maxh as int + 1) as u64;
    let new_top = util::spec_cap_u64(
        rest_z as int + (spec_max64(b.0.z, b.1.z) - spec_min64(b.0.z, b.1.z)),
    ) as u64;
    let nb = Brick(
        Coordinate { x: spec_min64(b.0.x, b.1.x), y: spec_min64(b.0.y, b.1.y), z: rest_z },
        Coordinate { x: spec_max64(b.0.x, b.1.x), y: spec_max64(b.0.y, b.1.y), z: new_top },
    );
    let si = settled.len() as usize;
    (
        spec_upd(h, minx, miny, maxy, maxx - minx + 1, (new_top, si)),
        settled.push(nb),
        supports.push(sup),
    )
}

/// The first `oi` entries of the sorted scan applied in turn.
pub open spec fn spec_settle_loop(
    bricks: Seq<Brick>,
    order: Seq<(u64, u64)>,
    h: Seq<(u64, usize)>,
    settled: Seq<Brick>,
    supports: Seq<Seq<usize>>,
    oi: int,
) -> (Seq<(u64, usize)>, Seq<Brick>, Seq<Seq<usize>>)
    decreases oi,
{
    if oi <= 0 {
        (h, settled, supports)
    } else {
        let prev = spec_settle_loop(bricks, order, h, settled, supports, oi - 1);
        let biv = order[oi - 1].1;
        if biv >= bricks.len() as u64 {
            prev
        } else {
            spec_settle_step(prev.0, prev.1, prev.2, bricks[biv as int])
        }
    }
}

/// Ground-resting padding up to `n` entries.
pub open spec fn spec_pad22(settled: Seq<Brick>, supports: Seq<Seq<usize>>, n: int) -> (
    Seq<Brick>,
    Seq<Seq<usize>>,
)
    decreases n - settled.len(),
{
    if settled.len() >= n {
        (settled, supports)
    } else {
        spec_pad22(
            settled.push(Brick(Coordinate { x: 0, y: 0, z: 0 }, Coordinate { x: 0, y: 0, z: 0 })),
            supports.push(Seq::empty()),
            n,
        )
    }
}

/// The whole settling scan over a given sorted order.
pub open spec fn spec_settled(bricks: Seq<Brick>, order: Seq<(u64, u64)>) -> (
    Seq<Brick>,
    Seq<Seq<usize>>,
) {
    let init_h = Seq::new(0x40000, |c: int| (0u64, usize::MAX));
    let out = spec_settle_loop(bricks, order, init_h, Seq::empty(), Seq::empty(), order.len() as int);
    let padded = spec_pad22(out.1, out.2, bricks.len() as int);
    padded
}

/// Whether `order` is a lexicographically sorted arrangement of the
/// bricks' sort keys and the scan over it yields exactly this result.
pub open spec fn settle_result_ok(
    bricks: Seq<Brick>,
    order: Seq<(u64, u64)>,
    settled: Seq<Brick>,
    supports: Seq<Seq<usize>>,
) -> bool {
    &&& order.len() == spec_keyed22(bricks).len()
    &&& order.to_multiset() == spec_keyed22(bricks).to_multiset()
    &&& forall|i: int, j: int| 0 <= i < j < order.len() ==> util::spec_pair_le(order[i], order[j])
    &&& settled == spec_settled(bricks, order).0
    &&& supports == spec_settled(bricks, order).1
}

impl Coordinate {
    /// Reads `x,y,z`.
    pub fn parse(v: &Vec<u8>) -> (r: Result<Coordinate, ParseError>) {
        let parts = util::split_bytes(v, 44);
        if parts.len() != 3 {
            return Err(ParseError);
        }
        match (
            util::parse_u64(&parts[0]),
            util::parse_u64(&parts[1]),
            util::parse_u64(&parts[2]),
        ) {
            (Some(x), Some(y), Some(z)) => Ok(Coordinate { x, y, z }),
            _ => Err(ParseError),
        }
    }
}

impl Brick {
    /// Reads `a~b`.
    pub fn parse(v: &Vec<u8>) -> (r: Result<Brick, ParseError>) {
        let halves = util::split_bytes(v, 126);
        if halves.len() != 2 {
            return Err(ParseError);
        }
        let a = match Coordinate::parse(&halves[0]) {
            Ok(a) => a,
            Err(e) => {
                return Err(e);
            },
        };
        let b = match Coordinate::parse(&halves[1]) {
            Ok(b) => b,
            Err(e) => {
                return Err(e);
            },
        };
        Ok(Brick(a, b))
    }
}

fn min_u64(a: u64, b: u64) -> (r: u64)
    ensures
        r == if a <= b {
            a
        } else {
            b
        },
{
    if a <= b {
        a
    } else {
        b
    }
}

fn max_u64(a: u64, b: u64) -> (r: u64)
    ensures
        r == if a >= b {
            a
        } else {
            b
        },
{
    if a >= b {
        a
    } else {
        b
    }
}

impl Day22 {
    /// Settles the bricks, lowest first, and reports for each settled
    /// brick which earlier bricks it came to rest on (by settled index;
    /// an empty list means the ground).
    #[verifier::loop_isolation(false)]
    #[verifier::rlimit(100)]
    #[verifier::spinoff_prover]
    pub fn supported_by(bricks: &Vec<Brick>) -> (res: (Vec<Brick>, Vec<Vec<usize>>))
        requires
            bricks_ok(bricks@),
        ensures
            res.0@.len() == bricks@.len(),
            res.1@.len() == bricks@.len(),
            forall|i: int, j: int|
                0 <= i < res.1@.len() && 0 <= j < res.1@[i]@.len() ==> (#[trigger] res.1@[i]@[j])
                    < i,
            exists|order: Seq<(u64, u64)>|
                settle_result_ok(bricks@, order, res.0@, supports_view(res.1@)),
    {
        let n = bricks.len();
        // bricks in order of their lower z end
        let mut keyed: Vec<(u64, u64)> = Vec::new();
        let mut i: usize = 0;
        while i < n
            invariant
                n == bricks@.len(),
                bricks_ok(bricks@),
                i <= n,
                keyed@ == spec_keyed22(bricks@).take(i as int),
            decreases n - i,
        {
            let b = bricks[i];
            let minz = min_u64(b.0.z, b.1.z);
            keyed.push((minz, i as u64));
            proof {
                assert(keyed@ =~= spec_keyed22(bricks@).take(i as int + 1));
            }
            i += 1;
        }
        proof {
            assert(keyed@ =~= spec_keyed22(bricks@));
        }
        let order = util::sorted_pairs_u64(keyed);
        // the tallest settled stack on each column, and who owns its top
        let ghost init_h = Seq::new(0x40000, |c: int| (0u64, usize::MAX));
        let mut heights: Vec<(u64, usize)> = Vec::new();
        let mut hcell: usize = 0;
        while hcell < 0x200 * 0x200
            invariant
                heights@.len() == hcell,
                hcell <= 0x200 * 0x200,
                forall|t: int| 0 <= t < hcell ==> (#[trigger] heights@[t]) == (0u64, usize::MAX),
            decreases 0x200 * 0x200 - hcell,
        {
            heights.push((0, usize::MAX));
            hcell += 1;
        }
        proof {
            assert(heights@ =~= init_h);
        }
        let mut settled: Vec<Brick> = Vec::new();
        let mut supports: Vec<Vec<usize>> = Vec::new();
        proof {
            assert(supports_view(supports@) =~= Seq::<Seq<usize>>::empty());
        }
        let mut oi: usize = 0;
        while oi < order.len()
            invariant
                n == bricks@.len(),
                bricks_ok(bricks@),
                order@.len() <= n,
                oi <= order@.len(),
                heights@.len() == 0x200 * 0x200,
                settled@.len() == supports@.len(),
                settled@.len() <= oi,
                heights@ == spec_settle_loop(
                    bricks@,
                    order@,
                    init_h,
                    Seq::empty(),
                    Seq::empty(),
                    oi as int,
                ).0,
                settled@ == spec_settle_loop(
                    bricks@,
                    order@,
                    init_h,
                    Seq::empty(),
                    Seq::empty(),
                    oi as int,
                ).1,
                supports_view(supports@) == spec_settle_loop(
                    bricks@,
                    order@,
                    init_h,
                    Seq::empty(),
                    Seq::empty(),
                    oi as int,
                ).2,
                forall|i2: int, j2: int|
                    0 <= i2 < supports@.len() && 0 <= j2 < supports@[i2]@.len() ==> (
                    #[trigger] supports@[i2]@[j2]) < i2,
                forall|c2: int|
                    0 <= c2 < heights@.len() ==> (#[trigger] heights@[c2]).1 == usize::MAX || (
                    heights@[c2]).1 < settled@.len(),
            decreases order@.len() - oi,
        {
            let ghost oi0 = oi as int;
            let ghost entry_h = heights@;
            let ghost entry_settled = settled@;
            let ghost entry_sup = supports_view(supports@);
            let biv = order[oi].1;
            oi += 1;
            if biv >= n as u64 {
                proof {
                    assert(spec_settle_loop(
                        bricks@,
                        order@,
                        init_h,
                        Seq::empty(),
                        Seq::empty(),
                        oi0 + 1,
                    ) == spec_settle_loop(bricks@, order@, init_h, Seq::empty(), Seq::empty(), oi0));
                }
                continue ;
            }
            let bi = biv as usize;
            let b = bricks[bi];
            let min_x = min_u64(b.0.x, b.1.x) as usize;
            let max_x = max_u64(b.0.x, b.1.x) as usize;
            let min_y = min_u64(b.0.y, b.1.y) as usize;
            let max_y = max_u64(b.0.y, b.1.y) as usize;
            let min_z = min_u64(b.0.z, b.1.z);
            let max_z = max_u64(b.0.z, b.1.z);
            let ghost iminx = min_x as int;
            let ghost iminy = min_y as int;
            let ghost imaxy = max_y as int;
            // the highest stack under the brick's footprint
            let mut max_h: u64 = 0;
            let mut x = min_x;
            while x <= max_x
                invariant
                    heights@.len() == 0x200 * 0x200,
                    heights@ == entry_h,
                    max_x < 0x200,
                    max_y < 0x200,
                    min_x <= x <= max_x + 1,
                    max_h == spec_maxh(entry_h, iminx, iminy, imaxy, x - min_x, 0),
                decreases max_x + 1 - x,
            {
                let ghost row_acc = max_h;
                let mut y = min_y;
                while y <= max_y
                    invariant
                        heights@.len() == 0x200 * 0x200,
                        heights@ == entry_h,
                        x < 0x200,
                        max_y < 0x200,
                        min_y <= y <= max_y + 1,
                        max_h == spec_maxh_row(entry_h, x as int, iminy, y - min_y, row_acc),
                    decreases max_y + 1 - y,
                {
                    let h = heights[x * 0x200 + y].0;
                    proof {
                        assert(x as int * 0x200 + iminy + (y - min_y) == x as int * 0x200
                            + y as int);
                    }
                    if h > max_h {
                        max_h = h;
                    }
                    y += 1;
                }
                x += 1;
            }
            // its supporters: owners of stacks that reach that height
            let mut sup: Vec<usize> = Vec::new();
            let mut x2 = min_x;
            while x2 <= max_x
                invariant
                    heights@.len() == 0x200 * 0x200,
                    heights@ == entry_h,
                    max_x < 0x200,
                    max_y < 0x200,
                    min_x <= x2 <= max_x + 1,
                    sup@ == spec_sup(entry_h, iminx, iminy, imaxy, x2 - min_x, max_h, Seq::empty()),
                    forall|j2: int| 0 <= j2 < sup@.len() ==> (#[trigger] sup@[j2])
                        < settled@.len(),
                    forall|c2: int|
                        0 <= c2 < heights@.len() ==> (#[trigger] heights@[c2]).1 == usize::MAX
                            || (heights@[c2]).1 < settled@.len(),
                decreases max_x + 1 - x2,
            {
                let ghost row_acc2 = sup@;
                let mut y2 = min_y;
                while y2 <= max_y
                    invariant
                        heights@.len() == 0x200 * 0x200,
                        heights@ == entry_h,
                        x2 < 0x200,
                        max_y < 0x200,
                        min_y <= y2 <= max_y + 1,
                        sup@ == spec_sup_row(entry_h, x2 as int, iminy, y2 - min_y, max_h, row_acc2),
                        forall|j2: int| 0 <= j2 < sup@.len() ==> (#[trigger] sup@[j2])
                            < settled@.len(),
                        forall|c2: int|
                            0 <= c2 < heights@.len() ==> (#[trigger] heights@[c2]).1
                                == usize::MAX || (heights@[c2]).1 < settled@.len(),
                    decreases max_y + 1 - y2,
                {
                    let (h, owner) = heights[x2 * 0x200 + y2];
                    proof {
                        assert(x2 as int * 0x200 + iminy + (y2 - min_y) == x2 as int * 0x200
                            + y2 as int);
                    }
                    if h == max_h && owner != usize::MAX && !contains_usize(&sup, owner) {
                        sup.push(owner);
                    }
                    y2 += 1;
                }
                x2 += 1;
            }
            // the brick comes to rest on top of that stack
            let height = max_z - min_z;
            let rest_z = util::sat_add(max_h, 1);
            let new_top = util::sat_add(rest_z, height);
            let si = settled.len();
            let settled_brick = Brick {
                0: Coordinate { x: min_x as u64, y: min_y as u64, z: rest_z },
                1: Coordinate { x: max_x as u64, y: max_y as u64, z: new_top },
            };
            settled.push(settled_brick);
            supports.push(sup);
            proof {
                assert(supports_view(supports@) =~= entry_sup.push(
                    spec_sup(entry_h, iminx, iminy, imaxy, max_x + 1 - min_x, max_h, Seq::empty()),
                ));
            }
            let mut x3 = min_x;
            while x3 <= max_x
                invariant
                    heights@.len() == 0x200 * 0x200,
                    max_x < 0x200,
                    max_y < 0x200,
                    min_x <= x3 <= max_x + 1,
                    si < settled@.len(),
                    heights@ == spec_upd(entry_h, iminx, iminy, imaxy, x3 - min_x, (new_top, si)),
                    forall|c2: int|
                        0 <= c2 < heights@.len() ==> (#[trigger] heights@[c2]).1 == usize::MAX
                            || (heights@[c2]).1 < settled@.len(),
                decreases max_x + 1 - x3,
            {
                let ghost row_h = heights@;
                let mut y3 = min_y;
                while y3 <= max_y
                    invariant
                        heights@.len() == 0x200 * 0x200,
                        x3 < 0x200,
                        max_y < 0x200,
                        min_y <= y3 <= max_y + 1,
                        si < settled@.len(),
                        heights@ == spec_upd_row(row_h, x3 as int, iminy, y3 - min_y, (new_top, si)),
                        forall|c2: int|
                            0 <= c2 < heights@.len() ==> (#[trigger] heights@[c2]).1
                                == usize::MAX || (heights@[c2]).1 < settled@.len(),
                    decreases max_y + 1 - y3,
                {
                    heights.set(x3 * 0x200 + y3, (new_top, si));
                    proof {
                        assert(x3 as int * 0x200 + iminy + (y3 - min_y) == x3 as int * 0x200
                            + y3 as int);
                    }
                    y3 += 1;
                }
                x3 += 1;
            }
            proof {
                let step = spec_settle_step(entry_h, entry_settled, entry_sup, b);
                assert(heights@ == step.0);
                assert(settled@ == step.1);
                assert(supports_view(supports@) == step.2);
                assert(spec_settle_loop(
                    bricks@,
                    order@,
                    init_h,
                    Seq::empty(),
                    Seq::empty(),
                    oi0 + 1,
                ) == step);
            }
        }
        proof {
            assert(settled@.len() == supports@.len());
        }
        let ghost out_settled = settled@;
        let ghost out_sup = supports_view(supports@);
        // bricks the sort key skipped (none for well-formed input) rest
        // on the ground with no supporters
        while settled.len() < n
            invariant
                n == bricks@.len(),
                settled@.len() <= n,
                settled@.len() == supports@.len(),
                spec_pad22(settled@, supports_view(supports@), n as int) == spec_pad22(
                    out_settled,
                    out_sup,
                    n as int,
                ),
                forall|i2: int, j2: int|
                    0 <= i2 < supports@.len() && 0 <= j2 < supports@[i2]@.len() ==> (
                    #[trigger] supports@[i2]@[j2]) < i2,
            decreases n - settled@.len(),
        {
            let ghost pre_settled = settled@;
            let ghost pre_sup = supports_view(supports@);
            settled.push(
                Brick {
                    0: Coordinate { x: 0, y: 0, z: 0 },
                    1: Coordinate { x: 0, y: 0, z: 0 },
                },
            );
            supports.push(Vec::new());
            proof {
                assert(supports_view(supports@) =~= pre_sup.push(Seq::empty()));
                assert(settled@ == pre_settled.push(
                    Brick(Coordinate { x: 0, y: 0, z: 0 }, Coordinate { x: 0, y: 0, z: 0 }),
                ));
            }
        }
        proof {
            assert(spec_pad22(settled@, supports_view(supports@), n as int) == (
                settled@,
                supports_view(supports@),
            ));
            assert(settle_result_ok(bricks@, order@, settled@, supports_view(supports@)));
        }
        (settled, supports)
    }
}

fn contains_usize(v: &Vec<usize>, x: usize) -> (r: bool)
    ensures
        r == v@.contains(x),
{
    let mut i: usize = 0;
    while i < v.len()
        invariant
            i <= v@.len(),
            forall|k: int| 0 <= k < i ==> v@[k] != x,
        decreases v@.len() - i,
    {
        if v[i] == x {
            proof {
                assert(v@.contains(x));
            }
            return true;
        }
        i += 1;
    }
    proof {
        assert(!v@.contains(x));
    }
    false
}

/// The sole supporters among the first `i` bricks, once each.
pub open spec fn spec_sole(supports: Seq<Seq<usize>>, i: int) -> Seq<usize>
    decreases i,
{
    if i <= 0 {
        Seq::empty()
    } else {
        let prev = spec_sole(supports, i - 1);
        if supports[i - 1].len() == 1 && !prev.contains(supports[i - 1][0]) {
            prev.push(supports[i - 1][0])
        } else {
            prev
        }
    }
}

/// Whether the first `j` supporters of one brick have all fallen.
pub open spec fn spec_all_f(sup: Seq<usize>, fallen: Seq<bool>, n: int, j: int) -> bool
    decreases j,
{
    if j <= 0 {
        true
    } else {
        spec_all_f(sup, fallen, n, j - 1) && !(sup[j - 1] >= n || !fallen[sup[j - 1] as int])
    }
}

/// One cascade pass over the first `b` bricks.
pub open spec fn spec_pass_b(supports: Seq<Seq<usize>>, fallen: Seq<bool>, n: int, b: int) -> Seq<
    bool,
>
    decreases b,
{
    if b <= 0 {
        fallen
    } else {
        let prev = spec_pass_b(supports, fallen, n, b - 1);
        if !prev[b - 1] && supports[b - 1].len() > 0 && spec_all_f(
            supports[b - 1],
            prev,
            n,
            supports[b - 1].len() as int,
        ) {
            prev.update(b - 1, true)
        } else {
            prev
        }
    }
}

/// `pass` cascade passes applied in turn.
pub open spec fn spec_passes(supports: Seq<Seq<usize>>, fallen: Seq<bool>, n: int, pass: int) -> Seq<
    bool,
>
    decreases pass,
{
    if pass <= 0 {
        fallen
    } else {
        spec_pass_b(supports, spec_passes(supports, fallen, n, pass - 1), n, n)
    }
}

/// How many of the first `k` bricks fell, the disintegrated one aside
/// (saturating).
pub open spec fn spec_fallen_count(fallen: Seq<bool>, s: int, k: int) -> int
    decreases k,
{
    if k <= 0 {
        0
    } else {
        let prev = spec_fallen_count(fallen, s, k - 1);
        if fallen[k - 1] && k - 1 != s {
            util::spec_cap_u64(prev + 1)
        } else {
            prev
        }
    }
}

/// The summed cascade counts over the first `s` disintegration choices
/// (saturating).
pub open spec fn spec_cascade_total(supports: Seq<Seq<usize>>, n: int, s: int) -> int
    decreases s,
{
    if s <= 0 {
        0
    } else {
        let prev = spec_cascade_total(supports, n, s - 1);
        let fallen = spec_passes(supports, Seq::new(n as nat, |k: int| k == s - 1), n, n);
        util::spec_cap_u64(prev + spec_fallen_count(fallen, s - 1, n))
    }
}

/// Whether `res` counts the bricks that are not sole supporters, for some
/// sorted settling order.
pub open spec fn day22_part1_report(bricks: Seq<Brick>, res: Seq<char>) -> bool {
    exists|order: Seq<(u64, u64)>|
        {
            &&& #[trigger] order.to_multiset() == spec_keyed22(bricks).to_multiset()
            &&& order.len() == spec_keyed22(bricks).len()
            &&& (forall|i: int, j: int|
                0 <= i < j < order.len() ==> util::spec_pair_le(order[i], order[j]))
            &&& ({
                let supports = spec_settled(bricks, order).1;
                let sole = spec_sole(supports, supports.len() as int);
                if bricks.len() >= sole.len() {
                    res == util::spec_u64_chars(bricks.len() - sole.len())
                } else {
                    res == "0"@
                }
            })
        }
}

/// Whether `res` sums, over every brick, how many others its removal
/// brings down, for some sorted settling order.
pub open spec fn day22_part2_report(bricks: Seq<Brick>, res: Seq<char>) -> bool {
    exists|order: Seq<(u64, u64)>|
        {
            &&& #[trigger] order.to_multiset() == spec_keyed22(bricks).to_multiset()
            &&& order.len() == spec_keyed22(bricks).len()
            &&& (forall|i: int, j: int|
                0 <= i < j < order.len() ==> util::spec_pair_le(order[i], order[j]))
            &&& ({
                let supports = spec_settled(bricks, order).1;
                res == util::spec_u64_chars(
                    spec_cascade_total(supports, supports.len() as int, supports.len() as int),
                )
            })
        }
}

impl Solution for Day22 {
    type ParsedInput = Vec<Brick>;

    fn parse_input(input_lines: &str) -> Vec<Brick> {
        let bytes = input_lines.as_bytes_vec();
        let ls = util::lines(&bytes);
        let mut bricks: Vec<Brick> = Vec::new();
        let mut i: usize = 0;
        while i < ls.len()
            decreases ls@.len() - i,
        {
            match Brick::parse(&ls[i]) {
                Ok(b) => bricks.push(b),
                Err(_) => {},
            }
            i += 1;
        }
        bricks
    }

    /// Counts the bricks that could be disintegrated alone: everything
    /// except the sole supporters.
    fn part_one(parsed_input: &mut Vec<Brick>) -> (res: String)
        ensures
            bricks_ok(old(parsed_input)@) ==> day22_part1_report(old(parsed_input)@, res@),
            !bricks_ok(old(parsed_input)@) ==> res@ == "0"@,
    {
        let bricks = parsed_input;
        if !check_bricks(bricks) {
            return "0".to_owned();
        }
        let ghost bv = bricks@;
        let (settled, supports) = Day22::supported_by(bricks);
        let ghost order0 = choose|order: Seq<(u64, u64)>|
            settle_result_ok(bv, order, settled@, supports_view(supports@));
        let ghost sv = supports_view(supports@);
        let mut sole: Vec<usize> = Vec::new();
        let mut i: usize = 0;
        while i < supports.len()
            invariant
                i <= supports@.len(),
                sv == supports_view(supports@),
                sole@ == spec_sole(sv, i as int),
            decreases supports@.len() - i,
        {
            proof {
                assert(sv[i as int] == supports@[i as int]@);
            }
            if supports[i].len() == 1 {
                let s = supports[i][0];
                if !contains_usize(&sole, s) {
                    sole.push(s);
                }
            }
            i += 1;
        }
        if bricks.len() >= sole.len() {
            let out = util::usize_to_string(bricks.len() - sole.len());
            proof {
                assert(day22_part1_report(bv, out@));
            }
            out
        } else {
            proof {
                assert(day22_part1_report(bv, "0"@));
            }
            "0".to_owned()
        }
    }

    /// Sums, over every brick, how many others would fall with it.
    fn part_two(parsed_input: &mut Vec<Brick>) -> (res: String)
        ensures
            bricks_ok(old(parsed_input)@) ==> day22_part2_report(old(parsed_input)@, res@),
            !bricks_ok(old(parsed_input)@) ==> res@ == "0"@,
    {
        let bricks = parsed_input;
        if !check_bricks(bricks) {
            return "0".to_owned();
        }
        let ghost bv = bricks@;
        let (settled, supports) = Day22::supported_by(bricks);
        let ghost order0 = choose|order: Seq<(u64, u64)>|
            settle_result_ok(bv, order, settled@, supports_view(supports@));
        let ghost sv = supports_view(supports@);
        let n = supports.len();
        let mut total: u64 = 0;
        let mut s: usize = 0;
        while s < n
            invariant
                n == supports@.len(),
                sv == supports_view(supports@),
                s <= n,
                total as int == spec_cascade_total(sv, n as int, s as int),
            decreases n - s,
        {
            // cascade: a brick falls when all its supporters have fallen
            let ghost init = Seq::new(n as nat, |k: int| k == s as int);
            let mut fallen: Vec<bool> = Vec::new();
            let mut k: usize = 0;
            while k < n
                invariant
                    k <= n,
                    fallen@.len() == k,
                    forall|t: int| 0 <= t < k ==> #[trigger] fallen@[t] == (t == s as int),
                decreases n - k,
            {
                fallen.push(k == s);
                k += 1;
            }
            proof {
                assert(fallen@ =~= init);
            }
            let mut pass: usize = 0;
            while pass < n
                invariant
                    n == supports@.len(),
                    sv == supports_view(supports@),
                    fallen@.len() == n,
                    pass <= n,
                    fallen@ == spec_passes(sv, init, n as int, pass as int),
                decreases n - pass,
            {
                let ghost pentry = fallen@;
                let mut b: usize = 0;
                while b < n
                    invariant
                        n == supports@.len(),
                        sv == supports_view(supports@),
                        fallen@.len() == n,
                        b <= n,
                        fallen@ == spec_pass_b(sv, pentry, n as int, b as int),
                    decreases n - b,
                {
                    proof {
                        assert(sv[b as int] == supports@[b as int]@);
                    }
                    if !fallen[b] && supports[b].len() > 0 {
                        let mut all = true;
                        let mut j: usize = 0;
                        while j < supports[b].len()
                            invariant
                                n == supports@.len(),
                                sv == supports_view(supports@),
                                sv[b as int] == supports@[b as int]@,
                                fallen@.len() == n,
                                b < n,
                                j <= supports@[b as int]@.len(),
                                fallen@ == spec_pass_b(sv, pentry, n as int, b as int),
                                all == spec_all_f(sv[b as int], fallen@, n as int, j as int),
                            decreases supports@[b as int]@.len() - j,
                        {
                            let sup = supports[b][j];
                            if sup >= n || !fallen[sup] {
                                all = false;
                            }
                            j += 1;
                        }
                        if all {
                            let mut f2 = fallen;
                            f2.set(b, true);
                            fallen = f2;
                        }
                    }
                    proof {
                        assert(fallen@ =~= spec_pass_b(sv, pentry, n as int, b as int + 1));
                    }
                    b += 1;
                }
                pass += 1;
            }
            let mut count: u64 = 0;
            let mut k2: usize = 0;
            while k2 < n
                invariant
                    fallen@.len() == n,
                    k2 <= n,
                    fallen@ == spec_passes(sv, init, n as int, n as int),
                    count as int == spec_fallen_count(fallen@, s as int, k2 as int),
                decreases n - k2,
            {
                if fallen[k2] && k2 != s {
                    count = util::sat_add(count, 1);
                }
                k2 += 1;
            }
            total = util::sat_add(total, count);
            s += 1;
        }
        let out = util::u64_to_string(total);
        proof {
            assert(day22_part2_report(bv, out@));
        }
        out
    }
}

/// Exec mirror of `bricks_ok`.
fn check_bricks(bricks: &Vec<Brick>) -> (r: bool)
    ensures
        r == bricks_ok(bricks@),
{
    if bricks.len() > 0x1000 {
        return false;
    }
    let mut i: usize = 0;
    while i < bricks.len()
        invariant
            i <= bricks@.len(),
            bricks@.len() <= 0x1000,
            forall|t: int|
                0 <= t < i ==> (#[trigger] bricks@[t]).0.x < 0x200 && bricks@[t].0.y < 0x200
                    && bricks@[t].0.z < 0x10000 && bricks@[t].1.x < 0x200 && bricks@[t].1.y
                    < 0x200 && bricks@[t].1.z < 0x10000,
        decreases bricks@.len() - i,
    {
        let b = bricks[i];
        if b.0.x >= 0x200 || b.0.y >= 0x200 || b.0.z >= 0x10000 || b.1.x >= 0x200 || b.1.y
            >= 0x200 || b.1.z >= 0x10000 {
            return false;
        }
        i += 1;
    }
    true
}

} // verus!
