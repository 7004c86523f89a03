use crate::util;
use crate::Solution;
use vstd::prelude::*;
use vstd::string::StrSliceExecFns;

verus! {

pub struct Day02;

/// Ten to the `k`-th power.
pub open spec fn ten_pow(k: int) -> int
    decreases k,
{
    if k <= 0 {
        1
    } else {
        10 * ten_pow(k - 1)
    }
}

pub proof fn lemma_ten_pow_pos(k: int)
    ensures
        ten_pow(k) >= 1,
    decreases k,
{
    if k > 0 {
        lemma_ten_pow_pos(k - 1);
    }
}

pub proof fn lemma_ten_pow_vals()
    ensures
        ten_pow(0) == 0x1,
        ten_pow(1) == 0xa,
        ten_pow(2) == 0x64,
        ten_pow(3) == 0x3e8,
        ten_pow(4) == 0x2710,
        ten_pow(5) == 0x186a0,
        ten_pow(6) == 0xf4240,
        ten_pow(7) == 0x989680,
        ten_pow(8) == 0x5f5e100,
        ten_pow(9) == 0x3b9aca00,
        ten_pow(10) == 0x2540be400,
        ten_pow(11) == 0x174876e800,
        ten_pow(12) == 0xe8d4a51000,
        ten_pow(13) == 0x9184e72a000,
        ten_pow(14) == 0x5af3107a4000,
        ten_pow(15) == 0x38d7ea4c68000,
        ten_pow(16) == 0x2386f26fc10000,
        ten_pow(17) == 0x16345785d8a0000,
        ten_pow(18) == 0xde0b6b3a7640000,
        ten_pow(19) == 0x8ac7230489e80000,
        ten_pow(20) == 0x56bc75e2d63100000,
{
    assert(ten_pow(0) == 0x1);
    assert(ten_pow(1) == 0xa);
    assert(ten_pow(2) == 0x64);
    assert(ten_pow(3) == 0x3e8);
    assert(ten_pow(4) == 0x2710);
    assert(ten_pow(5) == 0x186a0);
    assert(ten_pow(6) == 0xf4240);
    assert(ten_pow(7) == 0x989680);
    assert(ten_pow(8) == 0x5f5e100);
    assert(ten_pow(9) == 0x3b9aca00);
    assert(ten_pow(10) == 0x2540be400);
    assert(ten_pow(11) == 0x174876e800);
    assert(ten_pow(12) == 0xe8d4a51000);
    assert(ten_pow(13) == 0x9184e72a000);
    assert(ten_pow(14) == 0x5af3107a4000);
    assert(ten_pow(15) == 0x38d7ea4c68000);
    assert(ten_pow(16) == 0x2386f26fc10000);
    assert(ten_pow(17) == 0x16345785d8a0000);
    assert(ten_pow(18) == 0xde0b6b3a7640000);
    assert(ten_pow(19) == 0x8ac7230489e80000);
    assert(ten_pow(20) == 0x56bc75e2d63100000);
}

pub proof fn lemma_ten_pow_add(a: int, b: int)
    requires
        a >= 0,
        b >= 0,
    ensures
        ten_pow(a + b) == ten_pow(a) * ten_pow(b),
    decreases a,
{
    if a <= 0 {
        assert(ten_pow(b) * 1 == ten_pow(b)) by (nonlinear_arith);
    } else {
        lemma_ten_pow_add(a - 1, b);
        assert(10 * (ten_pow(a - 1) * ten_pow(b)) == (10 * ten_pow(a - 1)) * ten_pow(b))
            by (nonlinear_arith);
    }
}

/// The number of decimal digits of a nonnegative value.
pub open spec fn spec_num_digits(v: int) -> int
    decreases v,
{
    if v < 10 {
        1
    } else {
        1 + spec_num_digits(v / 10)
    }
}

pub proof fn lemma_num_digits_le(v: int, k: int)
    requires
        0 <= v,
        1 <= k,
        v < ten_pow(k),
    ensures
        spec_num_digits(v) <= k,
    decreases k,
{
    if v >= 10 {
        assert(v / 10 < ten_pow(k - 1)) by (nonlinear_arith)
            requires
                v < 10 * ten_pow(k - 1),
                v >= 10,
        ;
        lemma_num_digits_le(v / 10, k - 1);
    }
}

pub proof fn lemma_num_digits_pos(v: int)
    ensures
        spec_num_digits(v) >= 1,
    decreases v,
{
    if v >= 10 {
        lemma_num_digits_pos(v / 10);
    }
}

/// The value made of `repeats` copies of the block `n`, where `mult` is ten
/// to the block width.
pub open spec fn rep_val(n: int, mult: int, repeats: int) -> int
    decreases repeats,
{
    if repeats <= 0 {
        0
    } else {
        rep_val(n, mult, repeats - 1) * mult + n
    }
}

pub proof fn lemma_rep_val_nonneg(n: int, mult: int, repeats: int)
    requires
        n >= 0,
        mult >= 1,
    ensures
        rep_val(n, mult, repeats) >= 0,
    decreases repeats,
{
    if repeats > 0 {
        lemma_rep_val_nonneg(n, mult, repeats - 1);
        assert(rep_val(n, mult, repeats - 1) * mult >= 0) by (nonlinear_arith)
            requires
                rep_val(n, mult, repeats - 1) >= 0,
                mult >= 1,
        ;
    }
}

/// The round trip of the generator: peeling the lowest block off a
/// generated value returns exactly the unit it was built from, and the
/// value built from one repeat fewer. Decomposing a generated value block
/// by block therefore reproduces the same unit and the same repeat count.
pub proof fn lemma_rep_round_trip(n: int, d: int, repeats: int)
    requires
        1 <= d,
        ten_pow(d - 1) <= n < ten_pow(d),
        1 <= repeats,
    ensures
        rep_val(n, ten_pow(d), repeats) % ten_pow(d) == n,
        rep_val(n, ten_pow(d), repeats) / ten_pow(d) == rep_val(n, ten_pow(d), repeats - 1),
        repeats == 1 ==> rep_val(n, ten_pow(d), repeats) == n,
{
    let m = ten_pow(d);
    lemma_ten_pow_pos(d);
    lemma_ten_pow_pos(d - 1);
    lemma_rep_val_nonneg(n, m, repeats - 1);
    let q = rep_val(n, m, repeats - 1);
    assert(rep_val(n, m, repeats) == q * m + n);
    vstd::arithmetic::div_mod::lemma_fundamental_div_mod_converse(q * m + n, m, q, n);
}

/// The size of a generated value: `repeats` blocks of `d` digits give
/// exactly `d * repeats` digits, so the repeat count is recovered from the
/// value's length.
pub proof fn lemma_rep_digits(n: int, d: int, repeats: int)
    requires
        1 <= d,
        ten_pow(d - 1) <= n < ten_pow(d),
        1 <= repeats,
    ensures
        ten_pow(d * repeats - 1) <= rep_val(n, ten_pow(d), repeats) < ten_pow(d * repeats),
    decreases repeats,
{
    let m = ten_pow(d);
    lemma_ten_pow_pos(d);
    lemma_ten_pow_pos(d - 1);
    if repeats == 1 {
        assert(rep_val(n, m, 1) == rep_val(n, m, 0) * m + n);
        assert(rep_val(n, m, 0) * m == 0) by (nonlinear_arith)
            requires
                rep_val(n, m, 0) == 0,
        ;
    } else {
        lemma_rep_digits(n, d, repeats - 1);
        let q = rep_val(n, m, repeats - 1);
        assert(d * repeats - 1 == d + (d * (repeats - 1) - 1)) by (nonlinear_arith);
        assert(d * repeats == d + d * (repeats - 1)) by (nonlinear_arith);
        lemma_ten_pow_add(d, d * (repeats - 1) - 1);
        lemma_ten_pow_add(d, d * (repeats - 1));
        assert(q * m >= ten_pow(d * (repeats - 1) - 1) * m) by (nonlinear_arith)
            requires
                q >= ten_pow(d * (repeats - 1) - 1),
                m >= 1,
        ;
        assert(ten_pow(d * (repeats - 1) - 1) * m == ten_pow(d) * ten_pow(d * (repeats - 1) - 1))
            by (nonlinear_arith)
            requires
                m == ten_pow(d),
        ;
        assert(q * m + n < ten_pow(d * (repeats - 1)) * m) by (nonlinear_arith)
            requires
                q <= ten_pow(d * (repeats - 1)) - 1,
                m >= 1,
                0 <= n < m,
        ;
        assert(ten_pow(d * (repeats - 1)) * m == ten_pow(d) * ten_pow(d * (repeats - 1)))
            by (nonlinear_arith)
            requires
                m == ten_pow(d),
        ;
    }
}

/// Membership in one of the given inclusive ranges.
pub open spec fn spec_in_some_range(ranges: Seq<(u64, u64)>, v: u64) -> bool {
    exists|j: int| 0 <= j < ranges.len() && (#[trigger] ranges[j]).0 <= v <= ranges[j].1
}

/// An invalid id: a value inside some range that is a block repeated two or
/// more times (exactly twice unless the relaxed rules are in force).
pub open spec fn spec_is_invalid(ranges: Seq<(u64, u64)>, part_two: bool, v: u64) -> bool {
    spec_in_some_range(ranges, v) && exists|n: int, d: int, repeats: int|
        {
            &&& 1 <= d
            &&& 2 <= repeats
            &&& (!part_two ==> repeats == 2)
            &&& ten_pow(d - 1) <= n < ten_pow(d)
            &&& v as int == #[trigger] rep_val(n, ten_pow(d), repeats)
        }
}

pub proof fn lemma_rep_val_mono(n: int, mult: int, j: int)
    requires
        n >= 0,
        mult >= 1,
        j >= 0,
    ensures
        rep_val(n, mult, j + 1) >= rep_val(n, mult, j),
{
    lemma_rep_val_nonneg(n, mult, j);
    assert(rep_val(n, mult, j) * mult >= rep_val(n, mult, j)) by (nonlinear_arith)
        requires
            rep_val(n, mult, j) >= 0,
            mult >= 1,
    ;
}

/// The ids the unit scan gathers for one block width and repeat count:
/// each representable repeated value inside the range, first found first.
pub open spec fn gen_units(
    lo: u64,
    hi: u64,
    mult: int,
    repeats: int,
    n: int,
    acc: Seq<u64>,
) -> Seq<u64>
    decreases mult - n,
{
    if n >= mult {
        acc
    } else {
        let v = rep_val(n, mult, repeats);
        let acc2 = if v <= u64::MAX && lo <= v && v <= hi && !acc.contains(v as u64) {
            acc.push(v as u64)
        } else {
            acc
        };
        gen_units(lo, hi, mult, repeats, n + 1, acc2)
    }
}

/// The scan over repeat counts for one digit length.
pub open spec fn gen_reps(
    lo: u64,
    hi: u64,
    digits: int,
    max_repeats: int,
    repeats: int,
    acc: Seq<u64>,
) -> Seq<u64>
    decreases max_repeats + 1 - repeats,
{
    if repeats > max_repeats {
        acc
    } else {
        let acc2 = if digits % repeats == 0 && 1 <= digits / repeats && digits / repeats <= 10 {
            gen_units(
                lo,
                hi,
                ten_pow(digits / repeats),
                repeats,
                ten_pow(digits / repeats - 1),
                acc,
            )
        } else {
            acc
        };
        gen_reps(lo, hi, digits, max_repeats, repeats + 1, acc2)
    }
}

/// The scan over digit lengths for one range.
pub open spec fn gen_digits(
    lo: u64,
    hi: u64,
    digits_hi: int,
    part_two: bool,
    digits: int,
    acc: Seq<u64>,
) -> Seq<u64>
    decreases digits_hi + 1 - digits,
{
    if digits > digits_hi {
        acc
    } else {
        let mr = if part_two {
            digits
        } else {
            2
        };
        gen_digits(lo, hi, digits_hi, part_two, digits + 1, gen_reps(lo, hi, digits, mr, 2, acc))
    }
}

pub open spec fn gen_ranges(ranges: Seq<(u64, u64)>, part_two: bool, ri: int, acc: Seq<u64>) -> Seq<
    u64,
>
    decreases ranges.len() - ri,
{
    if ri < 0 || ri >= ranges.len() {
        acc
    } else {
        gen_ranges(
            ranges,
            part_two,
            ri + 1,
            gen_digits(
                ranges[ri].0,
                ranges[ri].1,
                spec_num_digits(ranges[ri].1 as int),
                part_two,
                spec_num_digits(ranges[ri].0 as int),
                acc,
            ),
        )
    }
}

/// The full list of invalid ids the scan produces, in discovery order.
pub open spec fn spec_invalid_list(ranges: Seq<(u64, u64)>, part_two: bool) -> Seq<u64> {
    gen_ranges(ranges, part_two, 0, Seq::empty())
}

impl Day02 {
    /// The distinct invalid ids found in the ranges (every listed id is
    /// genuinely an invalid id of some range; each is listed once).
    #[verifier::loop_isolation(false)]
    pub fn invalid_ids(ranges: &Vec<(u64, u64)>, part_two: bool) -> (r: Vec<u64>)
        ensures
            r@ == spec_invalid_list(ranges@, part_two),
            forall|i: int, j: int| 0 <= i < j < r@.len() ==> r@[i] != r@[j],
            forall|i: int|
                0 <= i < r@.len() ==> spec_is_invalid(ranges@, part_two, #[trigger] r@[i]),
    {
        let mut found: Vec<u64> = Vec::new();
        let mut ri: usize = 0;
        while ri < ranges.len()
            invariant
                forall|i: int, j: int| 0 <= i < j < found@.len() ==> found@[i] != found@[j],
                forall|i: int|
                    0 <= i < found@.len() ==> spec_is_invalid(
                        ranges@,
                        part_two,
                        #[trigger] found@[i],
                    ),
                gen_ranges(ranges@, part_two, ri as int, found@) == spec_invalid_list(
                    ranges@,
                    part_two,
                ),
            decreases ranges@.len() - ri,
        {
            let (lo, hi) = ranges[ri];
            let digits_hi = num_digits_u64(hi);
            let mut digits = num_digits_u64(lo);
            let ghost d_anchor = found@;
            let ghost d0 = digits as int;
            while digits <= digits_hi
                invariant
                    forall|i: int, j: int| 0 <= i < j < found@.len() ==> found@[i] != found@[j],
                    forall|i: int|
                        0 <= i < found@.len() ==> spec_is_invalid(
                            ranges@,
                            part_two,
                            #[trigger] found@[i],
                        ),
                    d0 <= digits as int,
                    gen_digits(lo, hi, digits_hi as int, part_two, digits as int, found@)
                        == gen_digits(lo, hi, digits_hi as int, part_two, d0, d_anchor),
                decreases digits_hi + 1 - digits,
            {
                let max_repeats: u64 = if part_two {
                    digits
                } else {
                    2
                };
                let mut repeats: u64 = 2;
                let ghost r_anchor = found@;
                while repeats <= max_repeats
                    invariant
                        forall|i: int, j: int| 0 <= i < j < found@.len() ==> found@[i] != found@[j],
                        forall|i: int|
                            0 <= i < found@.len() ==> spec_is_invalid(
                                ranges@,
                                part_two,
                                #[trigger] found@[i],
                            ),
                        2 <= repeats,
                        repeats as int <= max_repeats as int + 1,
                        gen_reps(
                            lo,
                            hi,
                            digits as int,
                            max_repeats as int,
                            repeats as int,
                            found@,
                        ) == gen_reps(lo, hi, digits as int, max_repeats as int, 2, r_anchor),
                    decreases max_repeats + 1 - repeats,
                {
                    if digits % repeats == 0 && digits / repeats <= 10 && digits / repeats >= 1 {
                        let width = digits / repeats;
                        let mult = ten_pow_u64(width);
                        let mut n: u64 = mult / 10;
                        proof {
                            lemma_ten_pow_vals();
                            lemma_ten_pow_pos(width as int - 1);
                            lemma_ten_pow_add(width as int - 1, 1);
                            lemma_ten_pow_mono(width as int, 10);
                            assert(ten_pow(1) == 10);
                            assert(ten_pow(width as int) == ten_pow(width as int - 1) * 10);
                            assert(mult as int / 10 == ten_pow(width as int - 1)) by (
                            nonlinear_arith)
                                requires
                                    mult as int == ten_pow(width as int - 1) * 10,
                                    ten_pow(width as int - 1) >= 1,
                            ;
                        }
                        let ghost u_anchor = found@;
                        while n < mult
                            invariant
                                forall|i: int, j: int|
                                    0 <= i < j < found@.len() ==> found@[i] != found@[j],
                                forall|i: int|
                                    0 <= i < found@.len() ==> spec_is_invalid(
                                        ranges@,
                                        part_two,
                                        #[trigger] found@[i],
                                    ),
                                n >= ten_pow(width as int - 1),
                                n <= mult,
                                gen_units(
                                    lo,
                                    hi,
                                    mult as int,
                                    repeats as int,
                                    n as int,
                                    found@,
                                ) == gen_units(
                                    lo,
                                    hi,
                                    mult as int,
                                    repeats as int,
                                    ten_pow(width as int - 1),
                                    u_anchor,
                                ),
                            decreases mult - n,
                        {
                            // the candidate: `repeats` copies of the block `n`
                            let mut acc: u128 = 0;
                            let mut j: u64 = 0;
                            let mut fits = true;
                            while j < repeats
                                invariant
                                    j <= repeats,
                                    fits ==> acc as int == rep_val(
                                        n as int,
                                        mult as int,
                                        j as int,
                                    ),
                                    fits ==> acc <= u64::MAX as u128,
                                    !fits ==> rep_val(n as int, mult as int, j as int)
                                        > u64::MAX,
                                decreases repeats - j,
                            {
                                if fits {
                                    proof {
                                        lemma_ten_pow_vals();
                                        lemma_ten_pow_mono(width as int, 10);
                                        assert(acc as int * (mult as int) <= 0xffff_ffff_ffff_ffff
                                            * 0x2540be400) by (nonlinear_arith)
                                            requires
                                                0 <= acc as int <= 0xffff_ffff_ffff_ffff,
                                                0 <= mult as int <= 0x2540be400,
                                        ;
                                    }
                                    let next = (acc * (mult as u128)) + (n as u128);
                                    if next > u64::MAX as u128 {
                                        fits = false;
                                    } else {
                                        acc = next;
                                    }
                                } else {
                                    proof {
                                        lemma_rep_val_mono(n as int, mult as int, j as int);
                                    }
                                }
                                j += 1;
                            }
                            let ghost fpre = found@;
                            let ghost v = rep_val(n as int, mult as int, repeats as int);
                            if fits {
                                let nn = acc as u64;
                                if lo <= nn && nn <= hi && !contains_u64(&found, nn) {
                                    proof {
                                        assert((ranges@[ri as int]).0 <= nn <= ranges@[ri as int].1);
                                        assert(spec_in_some_range(ranges@, nn));
                                        assert(nn as int == rep_val(
                                            n as int,
                                            ten_pow(width as int),
                                            repeats as int,
                                        ));
                                        assert(spec_is_invalid(ranges@, part_two, nn));
                                    }
                                    found.push(nn);
                                    proof {
                                        assert(v <= u64::MAX && lo <= v && v <= hi && !fpre.contains(
                                            v as u64,
                                        ));
                                        assert(found@ == fpre.push(v as u64));
                                    }
                                } else {
                                    proof {
                                        assert(!(v <= u64::MAX && lo <= v && v <= hi
                                            && !fpre.contains(v as u64)));
                                    }
                                }
                            } else {
                                proof {
                                    assert(v > u64::MAX);
                                }
                            }
                            proof {
                                assert(gen_units(
                                    lo,
                                    hi,
                                    mult as int,
                                    repeats as int,
                                    n as int,
                                    fpre,
                                ) == gen_units(
                                    lo,
                                    hi,
                                    mult as int,
                                    repeats as int,
                                    n as int + 1,
                                    found@,
                                ));
                            }
                            n += 1;
                        }
                        proof {
                            assert(found@ == gen_units(
                                lo,
                                hi,
                                mult as int,
                                repeats as int,
                                ten_pow(width as int - 1),
                                u_anchor,
                            ));
                            assert(mult as int == ten_pow(digits as int / (repeats as int)));
                            assert(width as int == digits as int / (repeats as int));
                        }
                    }
                    proof {
                        assert(gen_reps(
                            lo,
                            hi,
                            digits as int,
                            max_repeats as int,
                            repeats as int + 1,
                            found@,
                        ) == gen_reps(lo, hi, digits as int, max_repeats as int, 2, r_anchor));
                    }
                    repeats += 1;
                }
                proof {
                    assert(found@ == gen_reps(
                        lo,
                        hi,
                        digits as int,
                        max_repeats as int,
                        2,
                        r_anchor,
                    ));
                    assert(gen_digits(
                        lo,
                        hi,
                        digits_hi as int,
                        part_two,
                        digits as int + 1,
                        found@,
                    ) == gen_digits(lo, hi, digits_hi as int, part_two, d0, d_anchor));
                }
                digits += 1;
            }
            proof {
                assert(found@ == gen_digits(lo, hi, digits_hi as int, part_two, d0, d_anchor));
                assert((lo, hi) == ranges@[ri as int]);
                assert(gen_ranges(ranges@, part_two, ri as int + 1, found@) == spec_invalid_list(
                    ranges@,
                    part_two,
                ));
            }
            ri += 1;
        }
        proof {
            assert(found@ == spec_invalid_list(ranges@, part_two));
        }
        found
    }

    /// The sum of the ids the scan finds: the distinct invalid ids of the
    /// ranges, in discovery order (saturating).
    pub fn sum_invalid_ids(ranges: &Vec<(u64, u64)>, part_two: bool) -> (r: u64)
        ensures
            r as int == util::spec_cap_u64(
                util::spec_sum_u64(spec_invalid_list(ranges@, part_two)),
            ),
    {
        let ids = Day02::invalid_ids(ranges, part_two);
        util::sum_sat_u64(&ids)
    }
}

fn contains_u64(v: &Vec<u64>, x: u64) -> (r: bool)
    ensures
        r == v@.contains(x),
{
    let mut i: usize = 0;
    while i < v.len()
        invariant
            i <= v@.len(),
            forall|k: int| 0 <= k < i ==> v@[k] != x,
        decreases v@.len() - i,
    {
        if v[i] == x {
            proof {
                assert(v@.contains(x));
            }
            return true;
        }
        i += 1;
    }
    proof {
        assert(!v@.contains(x));
    }
    false
}

/// Digit count of a value (1 for zero).
#[verifier::loop_isolation(false)]
fn num_digits_u64(v: u64) -> (r: u64)
    ensures
        r as int == spec_num_digits(v as int),
        1 <= r <= 20,
{
    proof {
        lemma_ten_pow_vals();
        lemma_num_digits_le(v as int, 20);
        lemma_num_digits_pos(v as int);
    }
    let mut x = v;
    let mut d: u64 = 1;
    while x >= 10
        invariant
            d - 1 + spec_num_digits(x as int) == spec_num_digits(v as int),
            d >= 1,
        decreases x,
    {
        proof {
            lemma_num_digits_pos(x as int / 10);
        }
        x = x / 10;
        d += 1;
    }
    proof {
        lemma_num_digits_pos(x as int);
    }
    d
}

/// Ten to the `k`-th, for exponents a `u64` can hold.
#[verifier::loop_isolation(false)]
fn ten_pow_u64(k: u64) -> (r: u64)
    requires
        k <= 19,
    ensures
        r as int == ten_pow(k as int),
        r >= 1,
{
    proof {
        lemma_ten_pow_vals();
    }
    let mut acc: u64 = 1;
    let mut j: u64 = 0;
    while j < k
        invariant
            j <= k,
            acc as int == ten_pow(j as int),
        decreases k - j,
    {
        proof {
            lemma_ten_pow_mono(j as int + 1, 19);
        }
        acc = acc * 10;
        j += 1;
    }
    acc
}

pub proof fn lemma_ten_pow_mono(a: int, b: int)
    requires
        a <= b,
    ensures
        ten_pow(a) <= ten_pow(b),
    decreases b - a,
{
    if a < b {
        lemma_ten_pow_mono(a, b - 1);
        lemma_ten_pow_pos(b - 1);
    }
}

impl Solution for Day02 {
    type ParsedInput = Vec<(u64, u64)>;

    fn parse_input(input_lines: &str) -> Vec<(u64, u64)> {
        let bytes = input_lines.as_bytes_vec();
        let ls = util::lines(&bytes);
        let mut ranges: Vec<(u64, u64)> = Vec::new();
        if ls.len() == 0 {
            return ranges;
        }
        let parts = util::split_bytes(&ls[0], 44);
        let mut i: usize = 0;
        while i < parts.len()
            decreases parts@.len() - i,
        {
            let ends = util::split_bytes(&parts[i], 45);
            if ends.len() == 2 {
                match (util::parse_u64(&ends[0]), util::parse_u64(&ends[1])) {
                    (Some(a), Some(b)) => ranges.push((a, b)),
                    _ => {},
                }
            }
            i += 1;
        }
        ranges
    }

    fn part_one(parsed_input: &mut Vec<(u64, u64)>) -> (res: String)
        ensures
            res@ == util::spec_u64_chars(
                util::spec_cap_u64(
                    util::spec_sum_u64(spec_invalid_list(old(parsed_input)@, false)),
                ),
            ),
    {
        util::u64_to_string(Day02::sum_invalid_ids(parsed_input, false))
    }

    fn part_two(parsed_input: &mut Vec<(u64, u64)>) -> (res: String)
        ensures
            res@ == util::spec_u64_chars(
                util::spec_cap_u64(
                    util::spec_sum_u64(spec_invalid_list(old(parsed_input)@, true)),
                ),
            ),
    {
        util::u64_to_string(Day02::sum_invalid_ids(parsed_input, true))
    }
}

} // verus!
