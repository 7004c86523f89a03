use crate::util;
use crate::Solution;
use vstd::prelude::*;
use vstd::string::StrSliceExecFns;

verus! {

pub struct Day08;

type Junction = (u64, u64, u64);

/// Junction coordinates small enough that squared distances and packed
/// sort keys fit their words.
pub open spec fn juncs_ok(js: Seq<(u64, u64, u64)>) -> bool {
    js.len() <= 0x10000 && forall|i: int|
        0 <= i < js.len() ==> (#[trigger] js[i]).0 < 0x100000 && js[i].1 < 0x100000 && js[i].2
            < 0x100000
}

/// The sort key of one junction pair: squared distance, then the packed
/// indices.
pub open spec fn spec_pair_key(junctions: Seq<(u64, u64, u64)>, i: int, j: int) -> (u64, u64) {
    let a = junctions[i];
    let b = junctions[j];
    let dx = if a.0 >= b.0 {
        a.0 - b.0
    } else {
        b.0 - a.0
    };
    let dy = if a.1 >= b.1 {
        a.1 - b.1
    } else {
        b.1 - a.1
    };
    let dz = if a.2 >= b.2 {
        a.2 - b.2
    } else {
        b.2 - a.2
    };
    ((dx * dx + dy * dy + dz * dz) as u64, (i * 0x10000 + j) as u64)
}

/// The keyed pairs of one first index, with second index below `j`.
pub open spec fn spec_keyed_row(junctions: Seq<(u64, u64, u64)>, i: int, j: int) -> Seq<
    (u64, u64),
>
    decreases j,
{
    if j <= i + 1 || j <= 0 {
        Seq::empty()
    } else {
        spec_keyed_row(junctions, i, j - 1).push(spec_pair_key(junctions, i, j - 1))
    }
}

/// Every unordered junction pair, keyed, in scan order.
pub open spec fn spec_keyed_upto(junctions: Seq<(u64, u64, u64)>, i: int) -> Seq<(u64, u64)>
    decreases i,
{
    if i <= 0 {
        Seq::empty()
    } else {
        spec_keyed_upto(junctions, i - 1) + spec_keyed_row(
            junctions,
            i - 1,
            junctions.len() as int,
        )
    }
}

pub open spec fn spec_keyed(junctions: Seq<(u64, u64, u64)>) -> Seq<(u64, u64)> {
    spec_keyed_upto(junctions, junctions.len() as int)
}

/// The membership list with one circuit poured into another.
pub open spec fn spec_pour(comp: Seq<usize>, src: int, dst: usize) -> Seq<usize> {
    Seq::new(comp.len(), |t: int| if comp[t] == src {
        dst
    } else {
        comp[t]
    })
}

/// The wiring scan from pair `p` on: joins closest pairs first, logging
/// every pair taken, until the wire budget or a single circuit remains.
pub open spec fn spec_merge(
    junctions: Seq<(u64, u64, u64)>,
    sorted: Seq<(u64, u64)>,
    limit: Option<u64>,
    comp: Seq<usize>,
    log: Seq<((u64, u64, u64), (u64, u64, u64))>,
    total: int,
    p: int,
) -> (Seq<usize>, Seq<((u64, u64, u64), (u64, u64, u64))>)
    decreases sorted.len() - p,
{
    let n = junctions.len() as int;
    if p < 0 || p >= sorted.len() {
        (comp, log)
    } else if (match limit {
        Some(l) => log.len() >= l,
        None => total <= 1,
    }) {
        (comp, log)
    } else {
        let packed = sorted[p].1 as int;
        let uiv = packed / 0x10000;
        let viv = packed % 0x10000;
        if uiv >= n || viv >= n {
            spec_merge(junctions, sorted, limit, comp, log, total, p + 1)
        } else {
            let log2 = log.push((junctions[uiv], junctions[viv]));
            let cu = comp[uiv];
            let cv = comp[viv];
            if cu == cv {
                spec_merge(junctions, sorted, limit, comp, log2, total, p + 1)
            } else {
                let dst = if cu <= cv {
                    cu
                } else {
                    cv
                };
                let src = if cu <= cv {
                    cv
                } else {
                    cu
                };
                let comp2 = spec_pour(comp, src as int, dst);
                let total2 = if total > 0 {
                    total - 1
                } else {
                    total
                };
                spec_merge(junctions, sorted, limit, comp2, log2, total2, p + 1)
            }
        }
    }
}

/// The members of circuit `cidx` among the first `t` junctions.
pub open spec fn spec_members(
    junctions: Seq<(u64, u64, u64)>,
    comp: Seq<usize>,
    cidx: int,
    t: int,
) -> Seq<(u64, u64, u64)>
    decreases t,
{
    if t <= 0 {
        Seq::empty()
    } else if comp[t - 1] == cidx {
        spec_members(junctions, comp, cidx, t - 1).push(junctions[t - 1])
    } else {
        spec_members(junctions, comp, cidx, t - 1)
    }
}

/// The nonempty circuits, in membership-index order.
pub open spec fn spec_groups(junctions: Seq<(u64, u64, u64)>, comp: Seq<usize>, c: int) -> Seq<
    Seq<(u64, u64, u64)>,
>
    decreases c,
{
    if c <= 0 {
        Seq::empty()
    } else {
        let g = spec_groups(junctions, comp, c - 1);
        let members = spec_members(junctions, comp, c - 1, junctions.len() as int);
        if members.len() > 0 {
            g.push(members)
        } else {
            g
        }
    }
}

pub open spec fn groups_view(groups: Seq<Vec<(u64, u64, u64)>>) -> Seq<Seq<(u64, u64, u64)>> {
    groups.map_values(|v: Vec<(u64, u64, u64)>| v@)
}

impl Day08 {
    /// Joins the closest junction pairs in order until `limit` wires are
    /// laid (or every junction is in one circuit): the circuits formed,
    /// and the wiring log.
    #[verifier::loop_isolation(false)]
    pub fn circuits(junctions: &Vec<Junction>, limit: Option<u64>) -> (res: (
        Vec<Vec<Junction>>,
        Vec<(Junction, Junction)>,
    ))
        requires
            juncs_ok(junctions@),
        ensures
            exists|sorted: Seq<(u64, u64)>|
                {
                    &&& #[trigger] sorted.to_multiset() == spec_keyed(junctions@).to_multiset()
                    &&& sorted.len() == spec_keyed(junctions@).len()
                    &&& (forall|i: int, j: int|
                        0 <= i < j < sorted.len() ==> util::spec_pair_le(sorted[i], sorted[j]))
                    &&& res.1@ == spec_merge(
                        junctions@,
                        sorted,
                        limit,
                        Seq::new(junctions@.len(), |t: int| t as usize),
                        Seq::empty(),
                        junctions@.len() as int,
                        0,
                    ).1
                    &&& groups_view(res.0@) == spec_groups(
                        junctions@,
                        spec_merge(
                            junctions@,
                            sorted,
                            limit,
                            Seq::new(junctions@.len(), |t: int| t as usize),
                            Seq::empty(),
                            junctions@.len() as int,
                            0,
                        ).0,
                        junctions@.len() as int,
                    )
                },
    {
        let n = junctions.len();
        // every unordered pair, keyed by squared distance then identity
        let mut pairs: Vec<(u64, u64)> = Vec::new();
        let mut i: usize = 0;
        while i < n
            invariant
                n == junctions@.len(),
                juncs_ok(junctions@),
                i <= n,
                pairs@ == spec_keyed_upto(junctions@, i as int),
            decreases n - i,
        {
            let mut j = i + 1;
            while j < n
                invariant
                    n == junctions@.len(),
                    juncs_ok(junctions@),
                    i < n,
                    i < j,
                    j <= n,
                    pairs@ == spec_keyed_upto(junctions@, i as int) + spec_keyed_row(
                        junctions@,
                        i as int,
                        j as int,
                    ),
                decreases n - j,
            {
                let a = junctions[i];
                let b = junctions[j];
                let dx = if a.0 >= b.0 {
                    a.0 - b.0
                } else {
                    b.0 - a.0
                };
                let dy = if a.1 >= b.1 {
                    a.1 - b.1
                } else {
                    b.1 - a.1
                };
                let dz = if a.2 >= b.2 {
                    a.2 - b.2
                } else {
                    b.2 - a.2
                };
                proof {
                    assert(dx as int * (dx as int) < 0x10000000000 && dy as int * (dy as int)
                        < 0x10000000000 && dz as int * (dz as int) < 0x10000000000) by (
                    nonlinear_arith)
                        requires
                            dx < 0x100000,
                            dy < 0x100000,
                            dz < 0x100000,
                    ;
                }
                let d2 = dx * dx + dy * dy + dz * dz;
                let packed = (i as u64) * 0x10000 + (j as u64);
                pairs.push((d2, packed));
                proof {
                    assert(pairs@ =~= spec_keyed_upto(junctions@, i as int) + spec_keyed_row(
                        junctions@,
                        i as int,
                        j as int + 1,
                    ));
                }
                j += 1;
            }
            proof {
                assert(pairs@ =~= spec_keyed_upto(junctions@, i as int + 1));
            }
            i += 1;
        }
        proof {
            assert(pairs@ == spec_keyed(junctions@));
        }
        let sorted = util::sorted_pairs_u64(pairs);
        // circuit membership, merged smallest-distance first
        let mut comp: Vec<usize> = Vec::new();
        let mut k: usize = 0;
        while k < n
            invariant
                k <= n,
                comp@.len() == k,
                forall|t: int| 0 <= t < k ==> (#[trigger] comp@[t]) < n,
                forall|t: int| 0 <= t < k ==> (#[trigger] comp@[t]) == t,
            decreases n - k,
        {
            comp.push(k);
            k += 1;
        }
        let ghost start_comp = Seq::new(junctions@.len(), |t: int| t as usize);
        let ghost target = spec_merge(
            junctions@,
            sorted@,
            limit,
            start_comp,
            Seq::empty(),
            junctions@.len() as int,
            0,
        );
        proof {
            assert(comp@ =~= start_comp);
        }
        let mut log: Vec<(Junction, Junction)> = Vec::new();
        let mut total: usize = n;
        let mut p: usize = 0;
        while p < sorted.len()
            invariant
                n == junctions@.len(),
                juncs_ok(junctions@),
                comp@.len() == n,
                forall|t: int| 0 <= t < n ==> (#[trigger] comp@[t]) < n,
                spec_merge(
                    junctions@,
                    sorted@,
                    limit,
                    comp@,
                    log@,
                    total as int,
                    p as int,
                ) == target,
            decreases sorted@.len() - p,
        {
            match limit {
                Some(l) => {
                    if log.len() as u64 >= l {
                        proof {
                            assert((comp@, log@) == target);
                        }
                        break ;
                    }
                },
                None => {
                    if total <= 1 {
                        proof {
                            assert((comp@, log@) == target);
                        }
                        break ;
                    }
                },
            }
            let packed = sorted[p].1;
            let uiv = packed / 0x10000;
            let viv = packed % 0x10000;
            p += 1;
            if uiv >= n as u64 || viv >= n as u64 {
                continue ;
            }
            let ui = uiv as usize;
            let vi = viv as usize;
            log.push((junctions[ui], junctions[vi]));
            let cu = comp[ui];
            let cv = comp[vi];
            if cu == cv {
                continue ;
            }
            let (dst, src) = if cu <= cv {
                (cu, cv)
            } else {
                (cv, cu)
            };
            let ghost cpre = comp@;
            let mut t: usize = 0;
            while t < n
                invariant
                    t <= n,
                    comp@.len() == n,
                    dst < n,
                    forall|t2: int| 0 <= t2 < n ==> (#[trigger] comp@[t2]) < n,
                    forall|t2: int| 0 <= t2 < t ==> (#[trigger] comp@[t2]) == spec_pour(
                        cpre,
                        src as int,
                        dst,
                    )[t2],
                    forall|t2: int| t <= t2 < n ==> (#[trigger] comp@[t2]) == cpre[t2],
                decreases n - t,
            {
                if comp[t] == src {
                    comp.set(t, dst);
                }
                t += 1;
            }
            proof {
                assert(comp@ =~= spec_pour(cpre, src as int, dst));
            }
            if total > 0 {
                total = total - 1;
            }
        }
        proof {
            assert((comp@, log@) == target);
        }
        // gather the circuits in component order
        let mut groups: Vec<Vec<Junction>> = Vec::new();
        let mut c: usize = 0;
        while c < n
            invariant
                n == junctions@.len(),
                comp@.len() == n,
                c <= n,
                groups_view(groups@) == spec_groups(junctions@, comp@, c as int),
            decreases n - c,
        {
            let mut members: Vec<Junction> = Vec::new();
            let mut t: usize = 0;
            while t < n
                invariant
                    n == junctions@.len(),
                    comp@.len() == n,
                    c < n,
                    t <= n,
                    members@ == spec_members(junctions@, comp@, c as int, t as int),
                decreases n - t,
            {
                if comp[t] == c {
                    members.push(junctions[t]);
                }
                t += 1;
            }
            if members.len() > 0 {
                groups.push(members);
                proof {
                    assert(groups_view(groups@) =~~= spec_groups(junctions@, comp@, c as int + 1));
                }
            } else {
                proof {
                    assert(groups_view(groups@) =~~= spec_groups(junctions@, comp@, c as int + 1));
                }
            }
            c += 1;
        }
        proof {
            assert(groups_view(groups@) == spec_groups(junctions@, comp@, junctions@.len() as int));
        }
        (groups, log)
    }
}

/// Exec mirror of `juncs_ok`.
pub fn check_juncs(junctions: &Vec<(u64, u64, u64)>) -> (r: bool)
    ensures
        r == juncs_ok(junctions@),
{
    if junctions.len() > 0x10000 {
        return false;
    }
    let mut i: usize = 0;
    while i < junctions.len()
        invariant
            i <= junctions@.len(),
            junctions@.len() <= 0x10000,
            forall|t: int|
                0 <= t < i ==> (#[trigger] junctions@[t]).0 < 0x100000 && junctions@[t].1
                    < 0x100000 && junctions@[t].2 < 0x100000,
        decreases junctions@.len() - i,
    {
        if junctions[i].0 >= 0x100000 || junctions[i].1 >= 0x100000 || junctions[i].2
            >= 0x100000 {
            return false;
        }
        i += 1;
    }
    true
}

/// The circuit sizes as sortable pairs.
pub open spec fn spec_sizes(groups: Seq<Seq<(u64, u64, u64)>>) -> Seq<(u64, u64)> {
    Seq::new(groups.len(), |i: int| (groups[i].len() as u64, 0u64))
}

/// The saturating product of up to three sizes taken from the top of the
/// sorted list.
pub open spec fn spec_top3(s: Seq<(u64, u64)>, k: int, taken: int, acc: int) -> int
    decreases k,
{
    if k <= 0 || taken >= 3 {
        acc
    } else {
        spec_top3(s, k - 1, taken + 1, util::spec_cap_u64(acc * s[k - 1].0))
    }
}

/// Whether `res` is the product of the three largest circuit sizes after
/// the thousand closest wires are laid, for some sorted pair order.
pub open spec fn day08_part1_report(junctions: Seq<(u64, u64, u64)>, res: Seq<char>) -> bool {
    exists|sorted: Seq<(u64, u64)>, sorted2: Seq<(u64, u64)>|
        {
            &&& #[trigger] sorted.to_multiset() == spec_keyed(junctions).to_multiset()
            &&& sorted.len() == spec_keyed(junctions).len()
            &&& (forall|i: int, j: int|
                0 <= i < j < sorted.len() ==> util::spec_pair_le(sorted[i], sorted[j]))
            &&& ({
                let groups = spec_groups(
                    junctions,
                    spec_merge(
                        junctions,
                        sorted,
                        Some(1000u64),
                        Seq::new(junctions.len(), |t: int| t as usize),
                        Seq::empty(),
                        junctions.len() as int,
                        0,
                    ).0,
                    junctions.len() as int,
                );
                &&& #[trigger] sorted2.to_multiset() == spec_sizes(groups).to_multiset()
                &&& sorted2.len() == spec_sizes(groups).len()
                &&& (forall|i: int, j: int|
                    0 <= i < j < sorted2.len() ==> util::spec_pair_le(sorted2[i], sorted2[j]))
                &&& res == util::spec_u64_chars(spec_top3(sorted2, sorted2.len() as int, 0, 1))
            })
        }
}

/// Whether `res` multiplies the first coordinates of the last pair the
/// unlimited merge joins, for some sorted pair order.
pub open spec fn day08_part2_report(junctions: Seq<(u64, u64, u64)>, res: Seq<char>) -> bool {
    exists|sorted: Seq<(u64, u64)>|
        {
            &&& #[trigger] sorted.to_multiset() == spec_keyed(junctions).to_multiset()
            &&& sorted.len() == spec_keyed(junctions).len()
            &&& (forall|i: int, j: int|
                0 <= i < j < sorted.len() ==> util::spec_pair_le(sorted[i], sorted[j]))
            &&& ({
                let log = spec_merge(
                    junctions,
                    sorted,
                    None,
                    Seq::new(junctions.len(), |t: int| t as usize),
                    Seq::empty(),
                    junctions.len() as int,
                    0,
                ).1;
                if log.len() == 0 {
                    res == "0"@
                } else {
                    res == util::spec_u64_chars(
                        util::spec_cap_u64(log.last().0.0 * log.last().1.0),
                    )
                }
            })
        }
}

impl Solution for Day08 {
    type ParsedInput = Vec<(u64, u64, u64)>;

    fn parse_input(input_lines: &str) -> Vec<(u64, u64, u64)> {
        let bytes = input_lines.as_bytes_vec();
        let ls = util::lines(&bytes);
        let mut js: Vec<(u64, u64, u64)> = Vec::new();
        let mut i: usize = 0;
        while i < ls.len()
            decreases ls@.len() - i,
        {
            let parts = util::split_bytes(&ls[i], 44);
            if parts.len() == 3 {
                match (
                    util::parse_u64(&parts[0]),
                    util::parse_u64(&parts[1]),
                    util::parse_u64(&parts[2]),
                ) {
                    (Some(x), Some(y), Some(z)) => js.push((x, y, z)),
                    _ => {},
                }
            }
            i += 1;
        }
        js
    }

    fn part_one(parsed_input: &mut Vec<(u64, u64, u64)>) -> (res: String)
        ensures
            juncs_ok(old(parsed_input)@) ==> day08_part1_report(old(parsed_input)@, res@),
            !juncs_ok(old(parsed_input)@) ==> res@ == "0"@,
    {
        let junctions = parsed_input;
        if !check_juncs(junctions) {
            return "0".to_owned();
        }
        let ghost jv = junctions@;
        let (groups, _) = Day08::circuits(junctions, Some(1000));
        let ghost sorted0 = choose|sorted: Seq<(u64, u64)>|
            {
                &&& #[trigger] sorted.to_multiset() == spec_keyed(jv).to_multiset()
                &&& sorted.len() == spec_keyed(jv).len()
                &&& (forall|i: int, j: int|
                    0 <= i < j < sorted.len() ==> util::spec_pair_le(sorted[i], sorted[j]))
                &&& groups_view(groups@) == spec_groups(
                    jv,
                    spec_merge(
                        jv,
                        sorted,
                        Some(1000u64),
                        Seq::new(jv.len(), |t: int| t as usize),
                        Seq::empty(),
                        jv.len() as int,
                        0,
                    ).0,
                    jv.len() as int,
                )
            };
        // the product of the three largest circuit sizes
        let mut sizes: Vec<(u64, u64)> = Vec::new();
        let mut i: usize = 0;
        while i < groups.len()
            invariant
                i <= groups@.len(),
                sizes@ == spec_sizes(groups_view(groups@)).take(i as int),
            decreases groups@.len() - i,
        {
            sizes.push((groups[i].len() as u64, 0));
            proof {
                assert(groups_view(groups@)[i as int] == groups@[i as int]@);
                assert(sizes@ =~= spec_sizes(groups_view(groups@)).take(i as int + 1));
            }
            i += 1;
        }
        proof {
            assert(sizes@ =~= spec_sizes(groups_view(groups@)));
        }
        let ghost sv = sizes@;
        let sorted = util::sorted_pairs_u64(sizes);
        let mut product: u64 = 1;
        let mut taken: usize = 0;
        let mut k: usize = sorted.len();
        while k > 0 && taken < 3
            invariant
                k <= sorted@.len(),
                sorted@.to_multiset() == sv.to_multiset(),
                sorted@.len() == sv.len(),
                forall|i2: int, j2: int|
                    0 <= i2 < j2 < sorted@.len() ==> util::spec_pair_le(sorted@[i2], sorted@[j2]),
                spec_top3(sorted@, k as int, taken as int, product as int) == spec_top3(
                    sorted@,
                    sorted@.len() as int,
                    0,
                    1,
                ),
            decreases k,
        {
            k -= 1;
            product = util::sat_mul(product, sorted[k].0);
            taken += 1;
        }
        proof {
            assert(spec_top3(sorted@, k as int, taken as int, product as int) == product as int);
        }
        let out = util::u64_to_string(product);
        proof {
            let groups0 = spec_groups(
                jv,
                spec_merge(
                    jv,
                    sorted0,
                    Some(1000u64),
                    Seq::new(jv.len(), |t: int| t as usize),
                    Seq::empty(),
                    jv.len() as int,
                    0,
                ).0,
                jv.len() as int,
            );
            assert(spec_sizes(groups0) == sv);
            assert(sorted@.to_multiset() == spec_sizes(groups0).to_multiset());
            assert(day08_part1_report(jv, out@));
        }
        out
    }

    fn part_two(parsed_input: &mut Vec<(u64, u64, u64)>) -> (res: String)
        ensures
            juncs_ok(old(parsed_input)@) ==> day08_part2_report(old(parsed_input)@, res@),
            !juncs_ok(old(parsed_input)@) ==> res@ == "0"@,
    {
        let junctions = parsed_input;
        if !check_juncs(junctions) {
            return "0".to_owned();
        }
        let ghost jv = junctions@;
        let (_, log) = Day08::circuits(junctions, None);
        let ghost sorted0 = choose|sorted: Seq<(u64, u64)>|
            {
                &&& #[trigger] sorted.to_multiset() == spec_keyed(jv).to_multiset()
                &&& sorted.len() == spec_keyed(jv).len()
                &&& (forall|i: int, j: int|
                    0 <= i < j < sorted.len() ==> util::spec_pair_le(sorted[i], sorted[j]))
                &&& log@ == spec_merge(
                    jv,
                    sorted,
                    None,
                    Seq::new(jv.len(), |t: int| t as usize),
                    Seq::empty(),
                    jv.len() as int,
                    0,
                ).1
            };
        if log.len() == 0 {
            proof {
                assert(day08_part2_report(jv, "0"@));
            }
            return "0".to_owned();
        }
        let (u, v) = log[log.len() - 1];
        let out = util::u64_to_string(util::sat_mul(u.0, v.0));
        proof {
            assert(log@.last() == (u, v));
            assert(day08_part2_report(jv, out@));
        }
        out
    }
}

} // verus!
