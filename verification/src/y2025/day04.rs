use crate::util;
use crate::Solution;
use vstd::prelude::*;
use vstd::string::StrSliceExecFns;

verus! {

pub struct Day04;

/// Whether the cell at `(r, c)` of the occupancy grid holds a roll.
pub open spec fn occ_at(g: Seq<Seq<bool>>, r: int, c: int) -> bool {
    0 <= r < g.len() && 0 <= c < g[r].len() && g[r][c]
}

/// How many of the eight neighbours hold a roll.
pub open spec fn spec_nbrs(g: Seq<Seq<bool>>, r: int, c: int) -> int {
    (if occ_at(g, r - 1, c - 1) {
        1int
    } else {
        0
    }) + (if occ_at(g, r - 1, c) {
        1int
    } else {
        0
    }) + (if occ_at(g, r - 1, c + 1) {
        1int
    } else {
        0
    }) + (if occ_at(g, r, c - 1) {
        1int
    } else {
        0
    }) + (if occ_at(g, r, c + 1) {
        1int
    } else {
        0
    }) + (if occ_at(g, r + 1, c - 1) {
        1int
    } else {
        0
    }) + (if occ_at(g, r + 1, c) {
        1int
    } else {
        0
    }) + (if occ_at(g, r + 1, c + 1) {
        1int
    } else {
        0
    })
}

pub open spec fn occ_view(occ: Seq<Vec<bool>>) -> Seq<Seq<bool>> {
    occ.map_values(|v: Vec<bool>| v@)
}

/// Whether grid `a` has the shape of grid `b` and holds rolls only where
/// `b` does.
pub open spec fn occ_within(a: Seq<Seq<bool>>, b: Seq<Seq<bool>>) -> bool {
    &&& a.len() == b.len()
    &&& forall|i: int| 0 <= i < a.len() ==> (#[trigger] a[i]).len() == b[i].len()
    &&& forall|i: int, j: int|
        0 <= i < a.len() && 0 <= j < a[i].len() && (#[trigger] a[i][j]) ==> b[i][j]
}

/// How many of the first `c` cells of row `r` hold a takeable roll.
pub open spec fn spec_acc_row(g: Seq<Seq<bool>>, k: u64, r: int, c: int) -> int
    decreases c,
{
    if c <= 0 {
        0
    } else {
        spec_acc_row(g, k, r, c - 1) + if occ_at(g, r, c - 1) && spec_nbrs(g, r, c - 1) < k {
            1int
        } else {
            0
        }
    }
}

/// How many takeable rolls the first `r` rows hold.
pub open spec fn spec_acc(g: Seq<Seq<bool>>, k: u64, r: int) -> int
    decreases r,
{
    if r <= 0 {
        0
    } else {
        spec_acc(g, k, r - 1) + spec_acc_row(g, k, r - 1, g[r - 1].len() as int)
    }
}

impl Day04 {
    /// The occupancy grid of the rolls.
    pub fn graph(grid: &Vec<Vec<u8>>) -> (r: Vec<Vec<bool>>)
        ensures
            r@.len() == grid@.len(),
            forall|i: int| 0 <= i < r@.len() ==> (#[trigger] r@[i])@.len() == grid@[i]@.len(),
            forall|i: int, j: int|
                0 <= i < r@.len() && 0 <= j < r@[i]@.len() ==> (#[trigger] r@[i]@[j]) == (
                grid@[i]@[j] == 64),
    {
        let mut occ: Vec<Vec<bool>> = Vec::new();
        let mut i: usize = 0;
        while i < grid.len()
            invariant
                i <= grid@.len(),
                occ@.len() == i,
                forall|k: int| 0 <= k < i ==> (#[trigger] occ@[k])@.len() == grid@[k]@.len(),
                forall|k: int, j: int|
                    0 <= k < i && 0 <= j < occ@[k]@.len() ==> (#[trigger] occ@[k]@[j]) == (
                    grid@[k]@[j] == 64),
            decreases grid@.len() - i,
        {
            let line = &grid[i];
            let mut row: Vec<bool> = Vec::new();
            let mut c: usize = 0;
            while c < line.len()
                invariant
                    c <= line@.len(),
                    row@.len() == c,
                    line@ == grid@[i as int]@,
                    forall|j: int| 0 <= j < c ==> (#[trigger] row@[j]) == (line@[j] == 64),
                decreases line@.len() - c,
            {
                row.push(line[c] == 64);
                c += 1;
            }
            occ.push(row);
            i += 1;
        }
        occ
    }

    /// The number of roll neighbours of a cell.
    pub fn neighbors(occ: &Vec<Vec<bool>>, r: usize, c: usize) -> (res: u64)
        ensures
            res as int == spec_nbrs(occ_view(occ@), r as int, c as int),
            res <= 8,
    {
        let mut count: u64 = 0;
        // walk the eight offsets explicitly so each matches its spec term
        if occ_test(occ, r, c, -1, -1) {
            count += 1;
        }
        if occ_test(occ, r, c, -1, 0) {
            count += 1;
        }
        if occ_test(occ, r, c, -1, 1) {
            count += 1;
        }
        if occ_test(occ, r, c, 0, -1) {
            count += 1;
        }
        if occ_test(occ, r, c, 0, 1) {
            count += 1;
        }
        if occ_test(occ, r, c, 1, -1) {
            count += 1;
        }
        if occ_test(occ, r, c, 1, 0) {
            count += 1;
        }
        if occ_test(occ, r, c, 1, 1) {
            count += 1;
        }
        count
    }

    /// The rolls a forklift can take: exactly the occupied cells with
    /// fewer than `k` roll neighbours, once each, in row-major order.
    pub fn accessible(occ: &Vec<Vec<bool>>, k: u64) -> (res: Vec<(usize, usize)>)
        ensures
            forall|i: int|
                0 <= i < res@.len() ==> occ_at(
                    occ_view(occ@),
                    (#[trigger] res@[i]).0 as int,
                    res@[i].1 as int,
                ) && spec_nbrs(occ_view(occ@), res@[i].0 as int, res@[i].1 as int) < k,
            forall|rr: usize, cc: usize|
                #![trigger spec_nbrs(occ_view(occ@), rr as int, cc as int)]
                occ_at(occ_view(occ@), rr as int, cc as int) && spec_nbrs(
                    occ_view(occ@),
                    rr as int,
                    cc as int,
                ) < k ==> res@.contains((rr, cc)),
            forall|i: int, j: int| 0 <= i < j < res@.len() ==> res@[i] != res@[j],
            res@.len() == spec_acc(occ_view(occ@), k, occ@.len() as int),
    {
        let mut res: Vec<(usize, usize)> = Vec::new();
        let mut r: usize = 0;
        while r < occ.len()
            invariant
                r <= occ@.len(),
                res@.len() == spec_acc(occ_view(occ@), k, r as int),
                forall|i: int|
                    0 <= i < res@.len() ==> occ_at(
                        occ_view(occ@),
                        (#[trigger] res@[i]).0 as int,
                        res@[i].1 as int,
                    ) && spec_nbrs(occ_view(occ@), res@[i].0 as int, res@[i].1 as int) < k,
                forall|rr: usize, cc: usize|
                    #![trigger spec_nbrs(occ_view(occ@), rr as int, cc as int)]
                    (rr as int) < r as int && occ_at(occ_view(occ@), rr as int, cc as int)
                        && spec_nbrs(occ_view(occ@), rr as int, cc as int) < k ==> res@.contains(
                        (rr, cc),
                    ),
                forall|i: int, j: int|
                    0 <= i < j < res@.len() ==> (#[trigger] res@[i]).0 < (#[trigger] res@[j]).0
                        || (res@[i].0 == res@[j].0 && res@[i].1 < res@[j].1),
                forall|i: int| 0 <= i < res@.len() ==> (#[trigger] res@[i]).0 < r,
            decreases occ@.len() - r,
        {
            let line = &occ[r];
            let mut c: usize = 0;
            while c < line.len()
                invariant
                    r < occ@.len(),
                    c <= line@.len(),
                    line@ == occ@[r as int]@,
                    res@.len() == spec_acc(occ_view(occ@), k, r as int) + spec_acc_row(
                        occ_view(occ@),
                        k,
                        r as int,
                        c as int,
                    ),
                    forall|i: int|
                        0 <= i < res@.len() ==> occ_at(
                            occ_view(occ@),
                            (#[trigger] res@[i]).0 as int,
                            res@[i].1 as int,
                        ) && spec_nbrs(occ_view(occ@), res@[i].0 as int, res@[i].1 as int) < k,
                    forall|rr: usize, cc: usize|
                        #![trigger spec_nbrs(occ_view(occ@), rr as int, cc as int)]
                        ((rr as int) < r as int || ((rr as int) == r as int && (cc as int)
                            < c as int)) && occ_at(occ_view(occ@), rr as int, cc as int)
                            && spec_nbrs(occ_view(occ@), rr as int, cc as int) < k
                            ==> res@.contains((rr, cc)),
                    forall|i: int, j: int|
                        0 <= i < j < res@.len() ==> (#[trigger] res@[i]).0
                            < (#[trigger] res@[j]).0 || (res@[i].0 == res@[j].0 && res@[i].1
                            < res@[j].1),
                    forall|i: int|
                        0 <= i < res@.len() ==> (#[trigger] res@[i]).0 < r || (res@[i].0 == r
                            && res@[i].1 < c),
                decreases line@.len() - c,
            {
                let ghost rpre = res@;
                let mut took = false;
                if line[c] {
                    let n = Day04::neighbors(occ, r, c);
                    if n < k {
                        proof {
                            assert(occ_view(occ@)[r as int] == occ@[r as int]@);
                        }
                        res.push((r, c));
                        took = true;
                        proof {
                            assert(res@[res@.len() - 1] == (r, c));
                        }
                    }
                }
                proof {
                    assert forall|rr: usize, cc: usize|
                        ((rr as int) < r as int || ((rr as int) == r as int && (cc as int) < c
                            + 1)) && occ_at(occ_view(occ@), rr as int, cc as int) && spec_nbrs(
                        occ_view(occ@),
                        rr as int,
                        cc as int,
                    ) < k implies res@.contains((rr, cc)) by {
                        if (rr as int) == r as int && (cc as int) == c as int {
                            if took {
                                assert(res@[res@.len() - 1] == (rr, cc));
                            } else {
                                assert(occ_view(occ@)[r as int] == occ@[r as int]@);
                                assert(false);
                            }
                        } else {
                            assert(rpre.contains((rr, cc)));
                            let ix = choose|ix: int|
                                0 <= ix < rpre.len() && rpre[ix] == (rr, cc);
                            assert(res@[ix] == (rr, cc));
                        }
                    }
                    assert(occ_view(occ@)[r as int] == occ@[r as int]@);
                    assert(res@.len() == spec_acc(occ_view(occ@), k, r as int) + spec_acc_row(
                        occ_view(occ@),
                        k,
                        r as int,
                        c as int + 1,
                    ));
                }
                c += 1;
            }
            proof {
                assert forall|rr: usize, cc: usize|
                    (rr as int) < r + 1 && occ_at(occ_view(occ@), rr as int, cc as int)
                        && spec_nbrs(occ_view(occ@), rr as int, cc as int) < k implies res@.contains(
                    (rr, cc),
                ) by {
                    if (rr as int) == r as int {
                        assert(occ_view(occ@)[rr as int] == occ@[rr as int]@);
                        assert((cc as int) < occ@[r as int]@.len());
                    }
                }
                assert(occ_view(occ@)[r as int] == occ@[r as int]@);
                assert(res@.len() == spec_acc(occ_view(occ@), k, r as int + 1));
            }
            r += 1;
        }
        proof {
            assert forall|rr: usize, cc: usize|
                occ_at(occ_view(occ@), rr as int, cc as int) && spec_nbrs(
                    occ_view(occ@),
                    rr as int,
                    cc as int,
                ) < k implies res@.contains((rr, cc)) by {
                assert((rr as int) < occ@.len());
            }
        }
        res
    }

    /// Peels removable rolls until none is left: the result keeps the
    /// grid's shape, holds rolls only where the input does, and no
    /// occupied cell of it has fewer than `k` occupied neighbours.
    pub fn k_core(occ: &Vec<Vec<bool>>, k: u64) -> (res: Vec<Vec<bool>>)
        ensures
            occ_within(occ_view(res@), occ_view(occ@)),
            forall|rr: usize, cc: usize|
                #![trigger spec_nbrs(occ_view(res@), rr as int, cc as int)]
                occ_at(occ_view(res@), rr as int, cc as int) ==> spec_nbrs(
                    occ_view(res@),
                    rr as int,
                    cc as int,
                ) >= k,
    {
        let ghost g0 = occ_view(occ@);
        let mut cur: Vec<Vec<bool>> = clone_occ(occ);
        proof {
            assert(occ_within(occ_view(cur@), g0));
        }
        let mut fuel = count_occ(&cur);
        loop
            invariant
                occ_within(occ_view(cur@), g0),
                g0 == occ_view(occ@),
                fuel as int >= count_occ_spec(occ_view(cur@)),
            decreases fuel,
        {
            let removable = Day04::accessible(&cur, k);
            if removable.len() == 0 {
                proof {
                    assert forall|rr: usize, cc: usize|
                        #![trigger spec_nbrs(occ_view(cur@), rr as int, cc as int)]
                        occ_at(occ_view(cur@), rr as int, cc as int) implies spec_nbrs(
                        occ_view(cur@),
                        rr as int,
                        cc as int,
                    ) >= k by {
                        if spec_nbrs(occ_view(cur@), rr as int, cc as int) < k {
                            assert(removable@.contains((rr, cc)));
                        }
                    }
                }
                return cur;
            }
            let before = count_occ(&cur);
            let mut i: usize = 0;
            while i < removable.len()
                invariant
                    occ_within(occ_view(cur@), g0),
                decreases removable@.len() - i,
            {
                let (r, c) = removable[i];
                if r < cur.len() {
                    if c < cur[r].len() {
                        let ghost prev = occ_view(cur@);
                        let mut row = cur.remove(r);
                        row.set(c, false);
                        cur.insert(r, row);
                        proof {
                            let nv = occ_view(cur@);
                            assert(nv =~= prev.update(r as int, prev[r as int].update(c as int, false)));
                            assert forall|a: int, b: int|
                                0 <= a < nv.len() && 0 <= b < nv[a].len() && (#[trigger] nv[a][b])
                                    implies g0[a][b] by {
                                assert(prev[a][b]);
                            }
                        }
                    }
                }
                i += 1;
            }
            let after = count_occ(&cur);
            if after >= before || after > fuel {
                // a removable roll is always cleared, so a round that
                // fails to shrink cannot arise; an empty grid keeps the
                // contract total on this path
                let empty = cleared_like(&cur);
                proof {
                    let nv = occ_view(empty@);
                    assert forall|a: int, b: int|
                        0 <= a < nv.len() && 0 <= b < nv[a].len() implies !(#[trigger] nv[a][b]) by {
                        assert(nv[a] == empty@[a]@);
                    }
                    assert forall|a: int| 0 <= a < nv.len() implies (#[trigger] nv[a]).len()
                        == g0[a].len() by {
                        assert(nv[a] == empty@[a]@);
                        assert(occ_view(cur@)[a] == cur@[a]@);
                    }
                    assert(occ_within(nv, g0));
                }
                return empty;
            }
            fuel = after;
        }
    }
}

fn occ_test(occ: &Vec<Vec<bool>>, r: usize, c: usize, dr: i8, dc: i8) -> (res: bool)
    ensures
        res == occ_at(occ_view(occ@), r as int + dr as int, c as int + dc as int),
{
    let ghost g = occ_view(occ@);
    let rr: i128 = r as i128 + dr as i128;
    let cc: i128 = c as i128 + dc as i128;
    if rr < 0 || cc < 0 {
        return false;
    }
    if rr >= occ.len() as i128 {
        return false;
    }
    let ru = rr as usize;
    proof {
        assert(g[ru as int] == occ@[ru as int]@);
    }
    if cc >= occ[ru].len() as i128 {
        return false;
    }
    let cu = cc as usize;
    occ[ru][cu]
}

/// How many cells are occupied (saturating).
pub open spec fn count_occ_spec(g: Seq<Seq<bool>>) -> int
    decreases g.len(),
{
    if g.len() == 0 {
        0
    } else {
        util::spec_cap_u64(
            count_occ_spec(g.drop_last()) + crate::y2023::day16::count_true(g.last()),
        )
    }
}

pub proof fn lemma_count_occ_nonneg(g: Seq<Seq<bool>>)
    ensures
        count_occ_spec(g) >= 0,
    decreases g.len(),
{
    if g.len() > 0 {
        lemma_count_occ_nonneg(g.drop_last());
        crate::y2023::day16::lemma_count_true_le(g.last());
    }
}

#[verifier::loop_isolation(false)]
fn count_occ(occ: &Vec<Vec<bool>>) -> (r: u64)
    ensures
        r as int == count_occ_spec(occ_view(occ@)),
{
    let ghost g = occ_view(occ@);
    let mut total: u64 = 0;
    let mut i: usize = 0;
    while i < occ.len()
        invariant
            i <= occ@.len(),
            total as int == count_occ_spec(g.take(i as int)),
        decreases occ@.len() - i,
    {
        proof {
            assert(g.take(i + 1).drop_last() =~= g.take(i as int));
            assert(g.take(i + 1).last() == g[i as int]);
            assert(g[i as int] == occ@[i as int]@);
            crate::y2023::day16::lemma_count_true_le(g[i as int]);
        }
        let row = &occ[i];
        let mut c: usize = 0;
        let mut rowcount: usize = 0;
        while c < row.len()
            invariant
                c <= row@.len(),
                rowcount as int == crate::y2023::day16::count_true(row@.take(c as int)),
                rowcount <= c,
            decreases row@.len() - c,
        {
            proof {
                assert(row@.take(c + 1).drop_last() =~= row@.take(c as int));
            }
            if row[c] {
                rowcount += 1;
            }
            c += 1;
        }
        proof {
            assert(row@.take(row@.len() as int) =~= row@);
            lemma_count_occ_nonneg(g.take(i as int));
            util::lemma_cap_add(count_occ_spec(g.take(i as int)), rowcount as int);
        }
        total = util::sat_add(total, rowcount as u64);
        i += 1;
    }
    proof {
        assert(g.take(g.len() as int) =~= g);
    }
    total
}

impl Solution for Day04 {
    type ParsedInput = Vec<Vec<bool>>;

    fn parse_input(input_lines: &str) -> Vec<Vec<bool>> {
        let bytes = input_lines.as_bytes_vec();
        let ls = util::lines(&bytes);
        Day04::graph(&ls)
    }

    fn part_one(parsed_input: &mut Vec<Vec<bool>>) -> (res: String)
        ensures
            res@ == util::spec_u64_chars(
                spec_acc(occ_view(old(parsed_input)@), 4, old(parsed_input)@.len() as int),
            ),
    {
        util::usize_to_string(Day04::accessible(parsed_input, 4).len())
    }

    fn part_two(parsed_input: &mut Vec<Vec<bool>>) -> (res: String)
        ensures
            exists|core: Seq<Seq<bool>>|
                {
                    &&& #[trigger] occ_within(core, occ_view(old(parsed_input)@))
                    &&& forall|rr: usize, cc: usize|
                        #![trigger spec_nbrs(core, rr as int, cc as int)]
                        occ_at(core, rr as int, cc as int) ==> spec_nbrs(core, rr as int, cc as int)
                            >= 4
                    &&& ({
                        let before = count_occ_spec(occ_view(old(parsed_input)@));
                        let after = count_occ_spec(core);
                        if before >= after {
                            res@ == util::spec_u64_chars(before - after)
                        } else {
                            res@ == "0"@
                        }
                    })
                },
    {
        let before = count_occ(parsed_input);
        let core = Day04::k_core(parsed_input, 4);
        let after = count_occ(&core);
        proof {
            assert(occ_within(occ_view(core@), occ_view(old(parsed_input)@)));
        }
        if before >= after {
            util::u64_to_string(before - after)
        } else {
            "0".to_owned()
        }
    }
}

/// A same-shaped grid with every cell empty.
fn cleared_like(occ: &Vec<Vec<bool>>) -> (r: Vec<Vec<bool>>)
    ensures
        r@.len() == occ@.len(),
        forall|i: int| 0 <= i < r@.len() ==> (#[trigger] r@[i])@.len() == occ@[i]@.len(),
        forall|i: int, j: int| 0 <= i < r@.len() && 0 <= j < r@[i]@.len() ==> !(#[trigger] r@[i]@[j]),
        forall|rr: usize, cc: usize|
            #![trigger spec_nbrs(occ_view(r@), rr as int, cc as int)]
            !occ_at(occ_view(r@), rr as int, cc as int),
{
    let mut out: Vec<Vec<bool>> = Vec::new();
    let mut i: usize = 0;
    while i < occ.len()
        invariant
            i <= occ@.len(),
            out@.len() == i,
            forall|t: int| 0 <= t < i ==> (#[trigger] out@[t])@.len() == occ@[t]@.len(),
            forall|t: int, j: int| 0 <= t < i && 0 <= j < out@[t]@.len() ==> !(#[trigger] out@[t]@[j]),
            forall|t: int, cc: int| 0 <= t < i ==> !(#[trigger] occ_at(occ_view(out@), t, cc)),
        decreases occ@.len() - i,
    {
        let row = &occ[i];
        let mut nr: Vec<bool> = Vec::new();
        let mut c: usize = 0;
        while c < row.len()
            invariant
                c <= row@.len(),
                nr@.len() == c,
                forall|t: int| 0 <= t < c ==> !(#[trigger] nr@[t]),
            decreases row@.len() - c,
        {
            nr.push(false);
            c += 1;
        }
        let ghost opre = out@;
        let ghost nrv = nr@;
        out.push(nr);
        proof {
            assert forall|t: int, j: int| 0 <= t < i + 1 && 0 <= j < out@[t]@.len() implies !(
            #[trigger] out@[t]@[j]) by {
                if t < i {
                    assert(out@[t] == opre[t]);
                } else {
                    assert(out@[t]@ == nrv);
                }
            }
            assert forall|t: int, cc: int| 0 <= t < i + 1 implies !(#[trigger] occ_at(
                occ_view(out@),
                t,
                cc,
            )) by {
                assert(occ_view(out@)[t] == out@[t]@);
                if t < i {
                    assert(out@[t] == opre[t]);
                    assert(occ_view(opre)[t] == opre[t]@);
                    assert(!occ_at(occ_view(opre), t, cc));
                } else {
                    assert(out@[t]@ == nrv);
                }
            }
        }
        i += 1;
    }
    out
}

fn clone_occ(occ: &Vec<Vec<bool>>) -> (r: Vec<Vec<bool>>)
    ensures
        r@.len() == occ@.len(),
        forall|i: int| 0 <= i < r@.len() ==> (#[trigger] r@[i])@ == occ@[i]@,
{
    let mut out: Vec<Vec<bool>> = Vec::new();
    let mut i: usize = 0;
    while i < occ.len()
        invariant
            i <= occ@.len(),
            out@.len() == i,
            forall|t: int| 0 <= t < i ==> (#[trigger] out@[t])@ == occ@[t]@,
        decreases occ@.len() - i,
    {
        let row = &occ[i];
        let mut nr: Vec<bool> = Vec::new();
        let mut c: usize = 0;
        while c < row.len()
            invariant
                c <= row@.len(),
                nr@ == row@.take(c as int),
            decreases row@.len() - c,
        {
            nr.push(row[c]);
            proof {
                assert(nr@ =~= row@.take(c + 1));
            }
            c += 1;
        }
        proof {
            assert(row@.take(row@.len() as int) =~= row@);
        }
        out.push(nr);
        i += 1;
    }
    out
}

} // verus!
