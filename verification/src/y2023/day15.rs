use crate::util;
use crate::Solution;
use vstd::prelude::*;
use vstd::string::StrSliceExecFns;

verus! {

pub struct Day15;

/// One labelled lens in a box.
pub struct Lens {
    pub label: Vec<u8>,
    pub focal_length: u64,
}

/// The holiday hash of a byte string: add each byte, times 17, mod 256.
pub open spec fn spec_hash(s: Seq<u8>) -> int
    decreases s.len(),
{
    if s.len() == 0 {
        0
    } else {
        ((spec_hash(s.drop_last()) + s.last()) * 17) % 256
    }
}

pub proof fn lemma_hash_range(s: Seq<u8>)
    ensures
        0 <= spec_hash(s) < 256,
    decreases s.len(),
{
    if s.len() > 0 {
        lemma_hash_range(s.drop_last());
    }
}

/// The number a run of bytes denotes, if it is all digits and fits.
pub open spec fn spec_num(s: Seq<u8>) -> Option<u64> {
    if s.len() > 0 && util::spec_all_digits(s) && util::spec_dec(s) <= u64::MAX {
        Some(util::spec_dec(s) as u64)
    } else {
        None
    }
}

/// A step's label and operation: the focal length after `=`, or a removal
/// when the label ends in `-`.
pub open spec fn spec_step(s: Seq<u8>) -> (Seq<u8>, Option<u64>) {
    let e = util::spec_find(s, 61);
    if e < s.len() {
        (s.take(e), spec_num(s.skip(e + 1)))
    } else {
        (s.take(util::spec_find(s, 45)), None)
    }
}

/// A lens as its plain parts: label and focal length.
pub open spec fn lens_model(l: Lens) -> (Seq<u8>, u64) {
    (l.label@, l.focal_length)
}

pub open spec fn box_model(v: Seq<Lens>) -> Seq<(Seq<u8>, u64)> {
    v.map_values(|l: Lens| lens_model(l))
}

pub open spec fn boxes_model(b: Seq<Vec<Lens>>) -> Seq<Seq<(Seq<u8>, u64)>> {
    b.map_values(|v: Vec<Lens>| box_model(v@))
}

/// The slot of the first lens with this label, or the box's length.
pub open spec fn spec_pos(lenses: Seq<(Seq<u8>, u64)>, label: Seq<u8>, k: int) -> int
    decreases lenses.len() - k,
{
    if k < 0 || k >= lenses.len() {
        lenses.len() as int
    } else if lenses[k].0 == label {
        k
    } else {
        spec_pos(lenses, label, k + 1)
    }
}

/// One step applied to the boxes: `=` replaces the lens with this label or
/// appends one, `-` removes it.
pub open spec fn spec_apply(
    boxes: Seq<Seq<(Seq<u8>, u64)>>,
    label: Seq<u8>,
    op: Option<u64>,
) -> Seq<Seq<(Seq<u8>, u64)>> {
    let bn = spec_hash(label);
    let lenses = boxes[bn];
    let p = spec_pos(lenses, label, 0);
    match op {
        Some(f) => if p < lenses.len() {
            boxes.update(bn, lenses.update(p, (label, f)))
        } else {
            boxes.update(bn, lenses.push((label, f)))
        },
        None => if p < lenses.len() {
            boxes.update(bn, lenses.remove(p))
        } else {
            boxes
        },
    }
}

/// The boxes after the first `i` steps of the initialization sequence.
pub open spec fn spec_boxes(steps: Seq<Seq<u8>>, i: int) -> Seq<Seq<(Seq<u8>, u64)>>
    decreases i,
{
    if i <= 0 {
        Seq::new(256, |b: int| Seq::empty())
    } else {
        let st = spec_step(steps[i - 1]);
        spec_apply(spec_boxes(steps, i - 1), st.0, st.1)
    }
}

pub open spec fn steps_view(steps: Seq<Vec<u8>>) -> Seq<Seq<u8>> {
    steps.map_values(|v: Vec<u8>| v@)
}

/// Every lens sits in the box its label hashes to.
pub open spec fn boxes_wf(boxes: Seq<Vec<Lens>>) -> bool {
    boxes.len() == 256 && forall|b: int, t: int|
        0 <= b < boxes.len() && 0 <= t < boxes[b]@.len() ==> spec_hash(
            (#[trigger] boxes[b]@[t]).label@,
        ) == b
}

/// The focusing power of filled boxes: box number times slot number times
/// focal length, summed (saturating).
pub open spec fn spec_box_power(lenses: Seq<Lens>, b: int, n: int) -> int
    decreases n,
{
    if n <= 0 {
        0
    } else {
        util::spec_cap_u64(
            spec_box_power(lenses, b, n - 1) + util::spec_cap_u64(
                util::spec_cap_u64((b + 1) * n) * lenses[n - 1].focal_length,
            ),
        )
    }
}

pub open spec fn spec_total_power(boxes: Seq<Vec<Lens>>, n: int) -> int
    decreases n,
{
    if n <= 0 {
        0
    } else {
        util::spec_cap_u64(
            spec_total_power(boxes, n - 1) + spec_box_power(
                boxes[n - 1]@,
                n - 1,
                boxes[n - 1]@.len() as int,
            ),
        )
    }
}

impl Day15 {
    /// The hash of one step.
    pub fn run_hash_algorithm(step: &Vec<u8>) -> (r: u64)
        ensures
            r as int == spec_hash(step@),
            r < 256,
    {
        let mut h: u64 = 0;
        let mut i: usize = 0;
        while i < step.len()
            invariant
                i <= step@.len(),
                h < 256,
                h as int == spec_hash(step@.take(i as int)),
            decreases step@.len() - i,
        {
            proof {
                assert(step@.take(i + 1).drop_last() =~= step@.take(i as int));
            }
            h = ((h + step[i] as u64) * 17) % 256;
            i += 1;
        }
        proof {
            assert(step@.take(step@.len() as int) =~= step@);
        }
        h
    }

    /// A step's label and operation: a focal length after `=`, none after
    /// `-`.
    pub fn parse_step(step: &Vec<u8>) -> (r: (Vec<u8>, Option<u64>))
        ensures
            r.0@ == spec_step(step@).0,
            r.1 == spec_step(step@).1,
    {
        proof {
            assert(step@.skip(0) =~= step@);
        }
        let eq = util::find_from(step, 0, 61);
        if eq < step.len() {
            let mut label: Vec<u8> = Vec::new();
            let mut k: usize = 0;
            while k < eq
                invariant
                    eq <= step@.len(),
                    k <= eq,
                    label@ == step@.take(k as int),
                decreases eq - k,
            {
                label.push(step[k]);
                proof {
                    assert(label@ =~= step@.take(k as int + 1));
                }
                k += 1;
            }
            let mut num: Vec<u8> = Vec::new();
            let mut k2 = eq + 1;
            while k2 < step.len()
                invariant
                    eq < step@.len(),
                    eq + 1 <= k2 <= step@.len(),
                    num@ == step@.subrange(eq as int + 1, k2 as int),
                decreases step@.len() - k2,
            {
                num.push(step[k2]);
                proof {
                    assert(num@ =~= step@.subrange(eq as int + 1, k2 as int + 1));
                }
                k2 += 1;
            }
            proof {
                assert(num@ =~= step@.skip(eq as int + 1));
            }
            match util::parse_u64(&num) {
                Some(n) => (label, Some(n)),
                None => (label, None),
            }
        } else {
            let dash = util::find_from(step, 0, 45);
            let mut label: Vec<u8> = Vec::new();
            let mut k: usize = 0;
            while k < dash
                invariant
                    dash <= step@.len(),
                    k <= dash,
                    label@ == step@.take(k as int),
                decreases dash - k,
            {
                label.push(step[k]);
                proof {
                    assert(label@ =~= step@.take(k as int + 1));
                }
                k += 1;
            }
            (label, None)
        }
    }

    /// Runs the whole initialization sequence; the boxes hold exactly the
    /// lenses the steps put there, and every lens sits in the box its
    /// label hashes to.
    #[verifier::rlimit(100)]
    #[verifier::spinoff_prover]
    pub fn boxes(steps: &Vec<Vec<u8>>) -> (r: Vec<Vec<Lens>>)
        ensures
            boxes_wf(r@),
            boxes_model(r@) == spec_boxes(steps_view(steps@), steps@.len() as int),
    {
        let ghost sv = steps_view(steps@);
        let mut boxes: Vec<Vec<Lens>> = Vec::new();
        let mut b: usize = 0;
        while b < 256
            invariant
                boxes@.len() == b,
                b <= 256,
                forall|x: int| 0 <= x < b ==> (#[trigger] boxes@[x])@.len() == 0,
            decreases 256 - b,
        {
            boxes.push(Vec::new());
            b += 1;
        }
        proof {
            assert forall|x: int| 0 <= x < 256 implies (#[trigger] boxes_model(boxes@)[x])
                =~= Seq::<(Seq<u8>, u64)>::empty() by {
                assert(boxes_model(boxes@)[x] == box_model(boxes@[x]@));
            }
            assert(boxes_model(boxes@) =~~= spec_boxes(sv, 0));
        }
        let mut s: usize = 0;
        while s < steps.len()
            invariant
                boxes_wf(boxes@),
                sv == steps_view(steps@),
                s <= steps@.len(),
                boxes_model(boxes@) == spec_boxes(sv, s as int),
            decreases steps@.len() - s,
        {
            let (label, op) = Day15::parse_step(&steps[s]);
            proof {
                assert(sv[s as int] == steps@[s as int]@);
            }
            let bn = Day15::run_hash_algorithm(&label) as usize;
            let ghost ml = boxes_model(boxes@)[bn as int];
            proof {
                assert(ml == box_model(boxes@[bn as int]@));
            }
            let mut pos: usize = 0;
            let mut found = false;
            while pos < boxes[bn].len() && !found
                invariant
                    boxes_wf(boxes@),
                    bn < 256,
                    ml == box_model(boxes@[bn as int]@),
                    pos <= boxes@[bn as int]@.len(),
                    found ==> pos < boxes@[bn as int]@.len() && ml[pos as int].0 == label@
                        && spec_pos(ml, label@, 0) == pos,
                    !found ==> spec_pos(ml, label@, 0) == spec_pos(ml, label@, pos as int),
                decreases boxes@[bn as int]@.len() - pos, (if found { 0int } else { 1 }),
            {
                if eq_bytes(&boxes[bn][pos].label, &label) {
                    found = true;
                    proof {
                        assert(ml[pos as int] == lens_model(boxes@[bn as int]@[pos as int]));
                    }
                } else {
                    proof {
                        assert(ml[pos as int] == lens_model(boxes@[bn as int]@[pos as int]));
                    }
                    pos += 1;
                }
            }
            proof {
                if !found {
                    assert(spec_pos(ml, label@, 0) == ml.len());
                }
            }
            let ghost pre = boxes@;
            let ghost premodel = boxes_model(boxes@);
            let ghost lbl = label@;
            match op {
                Some(focal_length) => {
                    let lens = Lens { label, focal_length };
                    proof {
                        assert(spec_hash(lens.label@) == bn);
                    }
                    if found {
                        let mut tmp = boxes.remove(bn);
                        let ghost tpre = tmp@;
                        tmp.set(pos, lens);
                        proof {
                            assert forall|t: int| 0 <= t < tmp@.len() implies spec_hash(
                                (#[trigger] tmp@[t]).label@,
                            ) == bn as int by {
                                if t != pos {
                                    assert(tmp@[t] == pre[bn as int]@[t]);
                                }
                            }
                            assert(box_model(tmp@) =~~= ml.update(
                                pos as int,
                                (lens.label@, focal_length),
                            ));
                        }
                        boxes.insert(bn, tmp);
                        proof {
                            lemma_same_others(pre, boxes@, bn as int);
                            lemma_patched(pre, boxes@, bn as int);
                            assert(boxes_model(boxes@) =~~= premodel.update(
                                bn as int,
                                ml.update(pos as int, (lens.label@, focal_length)),
                            ));
                        }
                    } else {
                        let mut tmp = boxes.remove(bn);
                        tmp.push(lens);
                        proof {
                            assert forall|t: int| 0 <= t < tmp@.len() implies spec_hash(
                                (#[trigger] tmp@[t]).label@,
                            ) == bn as int by {
                                if t < tmp@.len() - 1 {
                                    assert(tmp@[t] == pre[bn as int]@[t]);
                                }
                            }
                            assert(box_model(tmp@) =~~= ml.push((lens.label@, focal_length)));
                        }
                        boxes.insert(bn, tmp);
                        proof {
                            lemma_same_others(pre, boxes@, bn as int);
                            lemma_patched(pre, boxes@, bn as int);
                            assert(boxes_model(boxes@) =~~= premodel.update(
                                bn as int,
                                ml.push((lens.label@, focal_length)),
                            ));
                        }
                    }
                },
                None => {
                    if found {
                        let mut tmp = boxes.remove(bn);
                        tmp.remove(pos);
                        proof {
                            assert forall|t: int| 0 <= t < tmp@.len() implies spec_hash(
                                (#[trigger] tmp@[t]).label@,
                            ) == bn as int by {
                                if t < pos {
                                    assert(tmp@[t] == pre[bn as int]@[t]);
                                } else {
                                    assert(tmp@[t] == pre[bn as int]@[t + 1]);
                                }
                            }
                            assert(box_model(tmp@) =~~= ml.remove(pos as int));
                        }
                        boxes.insert(bn, tmp);
                        proof {
                            lemma_same_others(pre, boxes@, bn as int);
                            lemma_patched(pre, boxes@, bn as int);
                            assert(boxes_model(boxes@) =~~= premodel.update(
                                bn as int,
                                ml.remove(pos as int),
                            ));
                        }
                    }
                },
            }
            proof {
                assert(boxes_model(boxes@) == spec_apply(premodel, lbl, op));
                assert(boxes_model(boxes@) == spec_boxes(sv, s as int + 1));
            }
            s += 1;
        }
        boxes
    }

    /// The focusing power of the configured boxes.
    pub fn total_focusing_power(boxes: &Vec<Vec<Lens>>) -> (r: u64)
        requires
            boxes@.len() == 256,
        ensures
            r as int == spec_total_power(boxes@, 256),
    {
        let mut total: u64 = 0;
        let mut b: usize = 0;
        while b < 256
            invariant
                b <= 256,
                boxes@.len() == 256,
                total as int == spec_total_power(boxes@, b as int),
            decreases 256 - b,
        {
            let lenses = &boxes[b];
            let mut sub: u64 = 0;
            let mut t: usize = 0;
            while t < lenses.len()
                invariant
                    t <= lenses@.len(),
                    lenses@ == boxes@[b as int]@,
                    b < 256,
                    sub as int == spec_box_power(lenses@, b as int, t as int),
                decreases lenses@.len() - t,
            {
                proof {
                    lemma_box_power_nonneg(lenses@, b as int, t as int);
                }
                let w = util::sat_mul(
                    util::sat_mul((b + 1) as u64, (t + 1) as u64),
                    lenses[t].focal_length,
                );
                proof {
                    util::lemma_cap_add(
                        spec_box_power(lenses@, b as int, t as int),
                        w as int,
                    );
                }
                sub = util::sat_add(sub, w);
                t += 1;
            }
            proof {
                lemma_box_power_nonneg(lenses@, b as int, lenses@.len() as int);
                lemma_total_power_nonneg(boxes@, b as int);
                util::lemma_cap_add(spec_total_power(boxes@, b as int), sub as int);
            }
            total = util::sat_add(total, sub);
            b += 1;
        }
        total
    }
}

/// Removing a vector and reinserting at the same place leaves every other
/// entry alone.
proof fn lemma_same_others(pre: Seq<Vec<Lens>>, post: Seq<Vec<Lens>>, bn: int)
    requires
        pre.len() == 256,
        post.len() == 256,
        0 <= bn < 256,
        post =~= pre.remove(bn).insert(bn, post[bn]),
    ensures
        forall|x: int| 0 <= x < 256 && x != bn ==> post[x] == pre[x],
{
}

/// Replacing one entry keeps every other box unchanged; the changed box
/// must be re-established by its caller.
proof fn lemma_patched(pre: Seq<Vec<Lens>>, post: Seq<Vec<Lens>>, bn: int)
    requires
        pre.len() == 256,
        post.len() == 256,
        0 <= bn < 256,
        forall|x: int| 0 <= x < 256 && x != bn ==> post[x] == pre[x],
        forall|x: int, t: int|
            0 <= x < pre.len() && 0 <= t < pre[x]@.len() ==> spec_hash(
                (#[trigger] pre[x]@[t]).label@,
            ) == x,
        forall|t: int| 0 <= t < post[bn]@.len() ==> spec_hash((#[trigger] post[bn]@[t]).label@)
            == bn,
    ensures
        boxes_wf(post),
{
    assert forall|x: int, t: int|
        0 <= x < post.len() && 0 <= t < post[x]@.len() implies spec_hash(
        (#[trigger] post[x]@[t]).label@,
    ) == x by {
        if x != bn {
            assert(post[x] == pre[x]);
            assert(spec_hash(pre[x]@[t].label@) == x);
        }
    }
}

pub proof fn lemma_box_power_nonneg(lenses: Seq<Lens>, b: int, n: int)
    requires
        b >= 0,
    ensures
        spec_box_power(lenses, b, n) >= 0,
    decreases n,
{
    if n > 0 {
        lemma_box_power_nonneg(lenses, b, n - 1);
        assert((b + 1) * n >= 0) by (nonlinear_arith)
            requires
                b >= 0,
                n >= 1,
        ;
        assert(util::spec_cap_u64((b + 1) * n) * (lenses[n - 1].focal_length as int) >= 0)
            by (nonlinear_arith)
            requires
                util::spec_cap_u64((b + 1) * n) >= 0,
                lenses[n - 1].focal_length as int >= 0,
        ;
    }
}

pub proof fn lemma_total_power_nonneg(boxes: Seq<Vec<Lens>>, n: int)
    ensures
        spec_total_power(boxes, n) >= 0,
    decreases n,
{
    if n > 0 {
        lemma_total_power_nonneg(boxes, n - 1);
        lemma_box_power_nonneg(boxes[n - 1]@, n - 1, boxes[n - 1]@.len() as int);
    }
}

fn eq_bytes(a: &Vec<u8>, b: &Vec<u8>) -> (r: bool)
    ensures
        r == (a@ == b@),
{
    if a.len() != b.len() {
        proof {
            assert(a@.len() != b@.len());
        }
        return false;
    }
    let mut i: usize = 0;
    while i < a.len()
        invariant
            i <= a@.len(),
            a@.len() == b@.len(),
            forall|k: int| 0 <= k < i ==> a@[k] == b@[k],
        decreases a@.len() - i,
    {
        if a[i] != b[i] {
            return false;
        }
        i += 1;
    }
    proof {
        assert(a@ =~= b@);
    }
    true
}

/// The saturating sum of the first `i` step hashes.
pub open spec fn spec_hash_sum(sv: Seq<Seq<u8>>, i: int) -> int
    decreases i,
{
    if i <= 0 {
        0
    } else {
        util::spec_cap_u64(spec_hash_sum(sv, i - 1) + spec_hash(sv[i - 1]))
    }
}

/// `spec_box_power` over a box's plain parts.
pub open spec fn spec_box_power_m(lenses: Seq<(Seq<u8>, u64)>, b: int, n: int) -> int
    decreases n,
{
    if n <= 0 {
        0
    } else {
        util::spec_cap_u64(
            spec_box_power_m(lenses, b, n - 1) + util::spec_cap_u64(
                util::spec_cap_u64((b + 1) * n) * lenses[n - 1].1,
            ),
        )
    }
}

/// `spec_total_power` over the boxes' plain parts.
pub open spec fn spec_total_power_m(boxes: Seq<Seq<(Seq<u8>, u64)>>, n: int) -> int
    decreases n,
{
    if n <= 0 {
        0
    } else {
        util::spec_cap_u64(
            spec_total_power_m(boxes, n - 1) + spec_box_power_m(
                boxes[n - 1],
                n - 1,
                boxes[n - 1].len() as int,
            ),
        )
    }
}

pub proof fn lemma_box_power_model(lenses: Seq<Lens>, b: int, n: int)
    requires
        n <= lenses.len(),
    ensures
        spec_box_power(lenses, b, n) == spec_box_power_m(box_model(lenses), b, n),
    decreases n,
{
    if n > 0 {
        lemma_box_power_model(lenses, b, n - 1);
        assert(box_model(lenses)[n - 1] == lens_model(lenses[n - 1]));
    }
}

pub proof fn lemma_total_power_model(boxes: Seq<Vec<Lens>>, n: int)
    requires
        n <= boxes.len(),
    ensures
        spec_total_power(boxes, n) == spec_total_power_m(boxes_model(boxes), n),
    decreases n,
{
    if n > 0 {
        lemma_total_power_model(boxes, n - 1);
        assert(boxes_model(boxes)[n - 1] == box_model(boxes[n - 1]@));
        lemma_box_power_model(boxes[n - 1]@, n - 1, boxes[n - 1]@.len() as int);
    }
}

impl Solution for Day15 {
    type ParsedInput = Vec<Vec<u8>>;

    fn parse_input(input_lines: &str) -> Vec<Vec<u8>> {
        let bytes = input_lines.as_bytes_vec();
        let mut cleaned: Vec<u8> = Vec::new();
        let mut i: usize = 0;
        while i < bytes.len()
            decreases bytes@.len() - i,
        {
            if bytes[i] != 10 && bytes[i] != 13 {
                cleaned.push(bytes[i]);
            }
            i += 1;
        }
        util::split_bytes(&cleaned, 44)
    }

    fn part_one(parsed_input: &mut Vec<Vec<u8>>) -> (res: String)
        ensures
            res@ == util::spec_u64_chars(
                spec_hash_sum(steps_view(old(parsed_input)@), old(parsed_input)@.len() as int),
            ),
    {
        let steps = parsed_input;
        let ghost sv = steps_view(steps@);
        let mut total: u64 = 0;
        let mut i: usize = 0;
        while i < steps.len()
            invariant
                sv == steps_view(steps@),
                i <= steps@.len(),
                total as int == spec_hash_sum(sv, i as int),
            decreases steps@.len() - i,
        {
            let h = Day15::run_hash_algorithm(&steps[i]);
            proof {
                assert(sv[i as int] == steps@[i as int]@);
                lemma_hash_range(sv[i as int]);
            }
            total = util::sat_add(total, h);
            i += 1;
        }
        util::u64_to_string(total)
    }

    fn part_two(parsed_input: &mut Vec<Vec<u8>>) -> (res: String)
        ensures
            res@ == util::spec_u64_chars(
                spec_total_power_m(
                    spec_boxes(steps_view(old(parsed_input)@), old(parsed_input)@.len() as int),
                    256,
                ),
            ),
    {
        let boxes = Day15::boxes(parsed_input);
        proof {
            lemma_total_power_model(boxes@, 256);
        }
        util::u64_to_string(Day15::total_focusing_power(&boxes))
    }
}

} // verus!
