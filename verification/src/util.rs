use itertools::Itertools;
use vstd::prelude::*;

verus! {

// ---------------------------------------------------------------------------
// Finding a byte in a byte sequence
// ---------------------------------------------------------------------------

/// Index of the first occurrence of `x` in `s`, or `s.len()` if absent.
pub open spec fn spec_find(s: Seq<u8>, x: u8) -> int
    decreases s.len(),
{
    if s.len() == 0 {
        0
    } else if s[0] == x {
        0
    } else {
        1 + spec_find(s.drop_first(), x)
    }
}

pub proof fn lemma_find_bounds(s: Seq<u8>, x: u8)
    ensures
        0 <= spec_find(s, x) <= s.len(),
        forall|k: int| 0 <= k < spec_find(s, x) ==> s[k] != x,
        spec_find(s, x) < s.len() ==> s[spec_find(s, x)] == x,
    decreases s.len(),
{
    if s.len() == 0 {
    } else if s[0] == x {
    } else {
        lemma_find_bounds(s.drop_first(), x);
        assert forall|k: int| 0 <= k < spec_find(s, x) implies s[k] != x by {
            if k > 0 {
                assert(s.drop_first()[k - 1] != x);
            }
        }
    }
}

/// The characterization of `spec_find`: a scan that stopped at `j` found it.
pub proof fn lemma_find_is(s: Seq<u8>, x: u8, j: int)
    requires
        0 <= j <= s.len(),
        forall|k: int| 0 <= k < j ==> s[k] != x,
        j < s.len() ==> s[j] == x,
    ensures
        spec_find(s, x) == j,
    decreases s.len(),
{
    if s.len() == 0 {
    } else if s[0] == x {
        assert(j == 0);
    } else {
        assert(j >= 1);
        assert forall|k: int| 0 <= k < j - 1 implies s.drop_first()[k] != x by {
            assert(s[k + 1] != x);
        }
        lemma_find_is(s.drop_first(), x, j - 1);
    }
}

/// First index `>= from` holding `x`, or `v.len()` if there is none.
pub fn find_from(v: &Vec<u8>, from: usize, x: u8) -> (r: usize)
    requires
        from <= v@.len(),
    ensures
        from <= r <= v@.len(),
        forall|k: int| from <= k < r ==> v@[k] != x,
        r < v@.len() ==> v@[r as int] == x,
        r - from == spec_find(v@.skip(from as int), x),
{
    let mut i = from;
    while i < v.len()
        invariant
            from <= i <= v@.len(),
            forall|k: int| from <= k < i ==> v@[k] != x,
        decreases v@.len() - i,
    {
        if v[i] == x {
            proof {
                assert forall|k: int| 0 <= k < i - from implies v@.skip(from as int)[k] != x by {
                    assert(v@[from + k] != x);
                }
                lemma_find_is(v@.skip(from as int), x, i - from);
            }
            return i;
        }
        i += 1;
    }
    proof {
        assert forall|k: int| 0 <= k < v@.len() - from implies v@.skip(from as int)[k] != x by {
            assert(v@[from + k] != x);
        }
        lemma_find_is(v@.skip(from as int), x, v@.len() - from);
    }
    v.len()
}

// ---------------------------------------------------------------------------
// Splitting on a separator byte
// ---------------------------------------------------------------------------

/// The pieces of `s` between occurrences of `x` (an empty `s` gives one
/// empty piece, as `str::split` does).
pub open spec fn spec_split(s: Seq<u8>, x: u8) -> Seq<Seq<u8>>
    decreases s.len(),
{
    let i = spec_find(s, x);
    if 0 <= i < s.len() {
        seq![s.take(i)] + spec_split(s.skip(i + 1), x)
    } else {
        seq![s]
    }
}

pub proof fn lemma_split_len(s: Seq<u8>, x: u8)
    ensures
        spec_split(s, x).len() >= 1,
    decreases s.len(),
{
    let i = spec_find(s, x);
    if 0 <= i < s.len() {
        lemma_split_len(s.skip(i + 1), x);
    }
}

pub fn split_bytes(v: &Vec<u8>, x: u8) -> (r: Vec<Vec<u8>>)
    ensures
        r.deep_view() == spec_split(v@, x),
        r@.len() >= 1,
{
    let mut r: Vec<Vec<u8>> = Vec::new();
    let mut pos: usize = 0;
    proof {
        assert(v@.skip(0) =~= v@);
        assert(r.deep_view() + spec_split(v@.skip(0), x) =~~= spec_split(v@, x));
    }
    while pos < v.len()
        invariant
            pos <= v@.len(),
            r.deep_view() + spec_split(v@.skip(pos as int), x) == spec_split(v@, x),
            pos > 0 ==> v@[pos - 1] == x,
        decreases v@.len() - pos,
    {
        let j = find_from(v, pos, x);
        let mut piece: Vec<u8> = Vec::new();
        let mut k = pos;
        while k < j
            invariant
                pos <= k <= j <= v@.len(),
                piece@ == v@.subrange(pos as int, k as int),
            decreases j - k,
        {
            piece.push(v[k]);
            proof {
                assert(piece@ =~= v@.subrange(pos as int, k + 1));
            }
            k += 1;
        }
        proof {
            let rest = v@.skip(pos as int);
            assert(rest.take(j - pos) =~= v@.subrange(pos as int, j as int));
            if j < v.len() {
                assert(rest.skip(j - pos + 1) =~= v@.skip(j + 1));
                assert(spec_split(rest, x) == seq![piece@] + spec_split(v@.skip(j + 1), x));
            } else {
                assert(rest.take(j - pos) =~= rest);
                assert(spec_split(rest, x) == seq![rest]);
            }
        }
        r.push(piece);
        if j == v.len() {
            proof {
                assert(r.deep_view() =~~= spec_split(v@, x));
            }
            return r;
        }
        pos = j + 1;
        proof {
            assert(r.deep_view() + spec_split(v@.skip(pos as int), x) =~~= spec_split(v@, x));
        }
    }
    proof {
        let rest = v@.skip(pos as int);
        assert(rest.len() == 0);
        assert(spec_split(rest, x) == seq![rest]);
    }
    let piece: Vec<u8> = Vec::new();
    proof {
        assert(piece@ =~= v@.skip(pos as int));
    }
    r.push(piece);
    proof {
        assert(r.deep_view() =~~= spec_split(v@, x));
    }
    r
}

// ---------------------------------------------------------------------------
// Lines, as `str::lines` cuts them: split on newline, no piece after a
// trailing newline, and a trailing carriage return stripped from each line.
// ---------------------------------------------------------------------------

pub open spec fn spec_strip_cr(s: Seq<u8>) -> Seq<u8> {
    if s.len() > 0 && s.last() == 13 {
        s.drop_last()
    } else {
        s
    }
}

pub open spec fn spec_strip_all(ps: Seq<Seq<u8>>) -> Seq<Seq<u8>> {
    ps.map_values(|p: Seq<u8>| spec_strip_cr(p))
}

pub open spec fn spec_lines(s: Seq<u8>) -> Seq<Seq<u8>> {
    if s.len() == 0 {
        seq![]
    } else {
        let parts = spec_split(s, 10);
        let parts2 = if s.last() == 10 {
            parts.drop_last()
        } else {
            parts
        };
        spec_strip_all(parts2)
    }
}

pub fn strip_cr(v: Vec<u8>) -> (r: Vec<u8>)
    ensures
        r@ == spec_strip_cr(v@),
{
    let mut v = v;
    if v.len() > 0 && v[v.len() - 1] == 13 {
        v.pop();
    }
    v
}

/// The lines of the input, `str::lines` style.
#[verifier::spinoff_prover]
pub fn lines(v: &Vec<u8>) -> (r: Vec<Vec<u8>>)
    ensures
        r.deep_view() == spec_lines(v@),
{
    if v.len() == 0 {
        return Vec::new();
    }
    let parts = split_bytes(v, 10);
    let mut parts = parts;
    if v[v.len() - 1] == 10 {
        proof {
            lemma_split_len(v@, 10);
        }
        parts.pop();
    }
    let ghost parts2 = parts.deep_view();
    let mut r: Vec<Vec<u8>> = Vec::new();
    let mut i: usize = 0;
    while i < parts.len()
        invariant
            i <= parts@.len(),
            parts.deep_view() == parts2,
            r@.len() == i,
            forall|k: int| 0 <= k < i ==> r.deep_view()[k] == spec_strip_cr(parts2[k]),
        decreases parts@.len() - i,
    {
        let mut line: Vec<u8> = Vec::new();
        let mut k: usize = 0;
        let ghost cur = parts@[i as int]@;
        while k < parts[i].len()
            invariant
                i < parts@.len(),
                k <= cur.len(),
                parts@[i as int]@ == cur,
                line@ == cur.take(k as int),
            decreases cur.len() - k,
        {
            line.push(parts[i][k]);
            proof {
                assert(line@ =~= cur.take(k + 1));
            }
            k += 1;
        }
        proof {
            assert(line@ =~= cur);
        }
        let line = strip_cr(line);
        proof {
            assert(cur =~= parts2[i as int]);
            assert(line.deep_view() =~= line@);
        }
        let ghost r_prev = r.deep_view();
        r.push(line);
        proof {
            assert forall|k: int| 0 <= k <= i implies r.deep_view()[k] == spec_strip_cr(
                parts2[k],
            ) by {
                if k < i {
                    assert(r.deep_view()[k] == r_prev[k]);
                } else {
                    assert(r.deep_view()[k] == line.deep_view());
                }
            }
        }
        i += 1;
    }
    proof {
        assert(r.deep_view() =~~= spec_lines(v@));
    }
    r
}

fn probe_push(r: Vec<Vec<u8>>, line: Vec<u8>) {
    let mut r = r;
    let ghost old_dv = r.deep_view();
    let ghost lv = line.deep_view();
    r.push(line);
    proof {
        assert(r.deep_view().len() == old_dv.len() + 1);
        assert(r.deep_view()[old_dv.len() as int] == lv);
        assert(forall|k: int| 0 <= k < old_dv.len() ==> r.deep_view()[k] == old_dv[k]);
    }
}

// ---------------------------------------------------------------------------
// Whitespace tokens, as `str::split_whitespace` cuts them (for the blank and
// tab characters that these inputs hold).
// ---------------------------------------------------------------------------

pub open spec fn spec_is_ws(b: u8) -> bool {
    b == 32 || b == 9 || b == 13 || b == 10
}

pub open spec fn spec_find_ws(s: Seq<u8>) -> int
    decreases s.len(),
{
    if s.len() == 0 {
        0
    } else if spec_is_ws(s[0]) {
        0
    } else {
        1 + spec_find_ws(s.drop_first())
    }
}

pub proof fn lemma_find_ws_is(s: Seq<u8>, j: int)
    requires
        0 <= j <= s.len(),
        forall|k: int| 0 <= k < j ==> !spec_is_ws(s[k]),
        j < s.len() ==> spec_is_ws(s[j]),
    ensures
        spec_find_ws(s) == j,
    decreases s.len(),
{
    if s.len() == 0 {
    } else if spec_is_ws(s[0]) {
        assert(j == 0);
    } else {
        assert forall|k: int| 0 <= k < j - 1 implies !spec_is_ws(s.drop_first()[k]) by {
            assert(!spec_is_ws(s[k + 1]));
        }
        lemma_find_ws_is(s.drop_first(), j - 1);
    }
}

/// The maximal runs of non-whitespace bytes in `s`.
pub open spec fn spec_tokens(s: Seq<u8>) -> Seq<Seq<u8>>
    decreases s.len(),
{
    if s.len() == 0 {
        seq![]
    } else if spec_is_ws(s[0]) {
        spec_tokens(s.drop_first())
    } else {
        let i = spec_find_ws(s);
        if 0 < i < s.len() {
            seq![s.take(i)] + spec_tokens(s.skip(i))
        } else {
            seq![s]
        }
    }
}

pub fn is_ws(b: u8) -> (r: bool)
    ensures
        r == spec_is_ws(b),
{
    b == 32 || b == 9 || b == 13 || b == 10
}

pub fn tokens(v: &Vec<u8>) -> (r: Vec<Vec<u8>>)
    ensures
        r.deep_view() == spec_tokens(v@),
{
    let mut r: Vec<Vec<u8>> = Vec::new();
    let mut pos: usize = 0;
    proof {
        assert(v@.skip(0) =~= v@);
        assert(r.deep_view() + spec_tokens(v@.skip(0)) =~~= spec_tokens(v@));
    }
    while pos < v.len()
        invariant
            pos <= v@.len(),
            r.deep_view() + spec_tokens(v@.skip(pos as int)) == spec_tokens(v@),
        decreases v@.len() - pos,
    {
        if is_ws(v[pos]) {
            proof {
                let rest = v@.skip(pos as int);
                assert(rest.drop_first() =~= v@.skip(pos + 1));
            }
            pos += 1;
        } else {
            // scan to the next whitespace byte
            let mut j = pos;
            while j < v.len() && !is_ws(v[j])
                invariant
                    pos <= j <= v@.len(),
                    forall|k: int| pos <= k < j ==> !spec_is_ws(v@[k]),
                decreases v@.len() - j,
            {
                j += 1;
            }
            let mut piece: Vec<u8> = Vec::new();
            let mut k = pos;
            while k < j
                invariant
                    pos <= k <= j <= v@.len(),
                    piece@ == v@.subrange(pos as int, k as int),
                decreases j - k,
            {
                piece.push(v[k]);
                proof {
                    assert(piece@ =~= v@.subrange(pos as int, k + 1));
                }
                k += 1;
            }
            proof {
                let rest = v@.skip(pos as int);
                assert forall|k: int| 0 <= k < j - pos implies !spec_is_ws(rest[k]) by {
                    assert(!spec_is_ws(v@[pos + k]));
                }
                if j < v.len() {
                    assert(spec_is_ws(rest[j - pos]));
                }
                lemma_find_ws_is(rest, j - pos);
                assert(rest.take(j - pos) =~= v@.subrange(pos as int, j as int));
                if j < v.len() {
                    assert(rest.skip(j - pos) =~= v@.skip(j as int));
                    assert(spec_tokens(rest) == seq![piece@] + spec_tokens(v@.skip(j as int)));
                } else {
                    assert(rest.take(j - pos) =~= rest);
                    assert(spec_tokens(rest) == seq![rest]);
                }
            }
            r.push(piece);
            if j == v.len() {
                proof {
                    assert(r.deep_view() =~~= spec_tokens(v@));
                }
                return r;
            }
            pos = j;
            proof {
                assert(r.deep_view() + spec_tokens(v@.skip(pos as int)) =~~= spec_tokens(v@));
            }
        }
    }
    proof {
        assert(v@.skip(pos as int).len() == 0);
        assert(r.deep_view() =~~= spec_tokens(v@));
    }
    r
}

// ---------------------------------------------------------------------------
// Decimal numbers
// ---------------------------------------------------------------------------

pub open spec fn spec_is_digit(b: u8) -> bool {
    48 <= b <= 57
}

pub open spec fn spec_all_digits(s: Seq<u8>) -> bool {
    forall|i: int| 0 <= i < s.len() ==> spec_is_digit(s[i])
}

/// The value of a string of decimal digits.
pub open spec fn spec_dec(s: Seq<u8>) -> int
    decreases s.len(),
{
    if s.len() == 0 {
        0
    } else {
        spec_dec(s.drop_last()) * 10 + (s.last() - 48)
    }
}

pub proof fn lemma_dec_nonneg(s: Seq<u8>)
    requires
        spec_all_digits(s),
    ensures
        spec_dec(s) >= 0,
    decreases s.len(),
{
    if s.len() > 0 {
        lemma_dec_nonneg(s.drop_last());
    }
}

pub proof fn lemma_dec_prefix(s: Seq<u8>, j: int)
    requires
        spec_all_digits(s),
        0 <= j <= s.len(),
    ensures
        spec_dec(s) >= spec_dec(s.take(j)),
    decreases s.len() - j,
{
    if j < s.len() {
        lemma_dec_prefix(s, j + 1);
        let t = s.take(j + 1);
        assert(t.drop_last() =~= s.take(j));
        assert(spec_dec(t) == spec_dec(s.take(j)) * 10 + (t.last() - 48));
        lemma_dec_nonneg(s.take(j));
    } else {
        assert(s.take(j) =~= s);
    }
}

/// Parse an unsigned decimal number; `None` exactly on an empty string, a
/// non-digit byte, or a value too large for `u64`.
pub fn parse_u64(v: &Vec<u8>) -> (r: Option<u64>)
    ensures
        match r {
            Some(n) => v@.len() > 0 && spec_all_digits(v@) && n == spec_dec(v@),
            None => v@.len() == 0 || !spec_all_digits(v@) || spec_dec(v@) > u64::MAX,
        },
{
    if v.len() == 0 {
        return None;
    }
    let mut val: u64 = 0;
    let mut i: usize = 0;
    while i < v.len()
        invariant
            i <= v@.len(),
            spec_all_digits(v@.take(i as int)),
            val == spec_dec(v@.take(i as int)),
        decreases v@.len() - i,
    {
        let b = v[i];
        if b < 48 || b > 57 {
            return None;
        }
        let d = (b - 48) as u64;
        if val > (u64::MAX - d) / 10 {
            proof {
                let t = v@.take(i + 1);
                assert(t.drop_last() =~= v@.take(i as int));
                assert(spec_dec(t) == val * 10 + d);
                assert(spec_all_digits(t));
                if spec_all_digits(v@) {
                    lemma_dec_prefix(v@, i + 1);
                }
            }
            return None;
        }
        proof {
            let t = v@.take(i + 1);
            assert(t.drop_last() =~= v@.take(i as int));
        }
        val = val * 10 + d;
        i += 1;
    }
    proof {
        assert(v@.take(v@.len() as int) =~= v@);
    }
    Some(val)
}

/// The value of an optionally minus-signed string of decimal digits.
pub open spec fn spec_dec_signed(s: Seq<u8>) -> int {
    if s.len() > 0 && s[0] == 45 {
        -spec_dec(s.drop_first())
    } else {
        spec_dec(s)
    }
}

pub open spec fn spec_is_signed_number(s: Seq<u8>) -> bool {
    if s.len() > 0 && s[0] == 45 {
        s.len() > 1 && spec_all_digits(s.drop_first())
    } else {
        s.len() > 0 && spec_all_digits(s)
    }
}

/// Parse a signed decimal number; `None` exactly on a malformed string or a
/// magnitude over `i64::MAX`.
pub fn parse_i64(v: &Vec<u8>) -> (r: Option<i64>)
    ensures
        match r {
            Some(n) => spec_is_signed_number(v@) && n == spec_dec_signed(v@),
            None => !spec_is_signed_number(v@) || spec_dec_signed(v@) > i64::MAX || spec_dec_signed(
                v@,
            ) < -i64::MAX,
        },
{
    if v.len() > 0 && v[0] == 45 {
        let mut w: Vec<u8> = Vec::new();
        let mut k: usize = 1;
        while k < v.len()
            invariant
                1 <= k <= v@.len(),
                w@ == v@.subrange(1, k as int),
            decreases v@.len() - k,
        {
            w.push(v[k]);
            proof {
                assert(w@ =~= v@.subrange(1, k + 1));
            }
            k += 1;
        }
        proof {
            assert(w@ =~= v@.drop_first());
        }
        match parse_u64(&w) {
            Some(n) => {
                if n <= i64::MAX as u64 {
                    Some(-(n as i64))
                } else {
                    None
                }
            },
            None => None,
        }
    } else {
        match parse_u64(v) {
            Some(n) => {
                if n <= i64::MAX as u64 {
                    Some(n as i64)
                } else {
                    proof {
                        assert(spec_dec_signed(v@) == spec_dec(v@));
                    }
                    None
                }
            },
            None => None,
        }
    }
}

// ---------------------------------------------------------------------------
// Rendering decimal numbers
// ---------------------------------------------------------------------------

pub open spec fn spec_digit_char(d: int) -> char {
    if d == 0 {
        '0'
    } else if d == 1 {
        '1'
    } else if d == 2 {
        '2'
    } else if d == 3 {
        '3'
    } else if d == 4 {
        '4'
    } else if d == 5 {
        '5'
    } else if d == 6 {
        '6'
    } else if d == 7 {
        '7'
    } else if d == 8 {
        '8'
    } else {
        '9'
    }
}

/// The decimal digit string of `n`.
pub open spec fn spec_u64_chars(n: int) -> Seq<char>
    decreases n,
{
    if n < 10 {
        seq![spec_digit_char(n)]
    } else {
        spec_u64_chars(n / 10).push(spec_digit_char(n % 10))
    }
}

pub open spec fn spec_i64_chars(n: int) -> Seq<char> {
    if n < 0 {
        seq!['-'] + spec_u64_chars(-n)
    } else {
        spec_u64_chars(n)
    }
}

/// Relies on `u64`'s `Display` impl: the plain decimal digits of the value.
#[verifier::external_body]
pub fn u64_to_string(n: u64) -> (r: String)
    ensures
        r@ == spec_u64_chars(n as int),
{
    n.to_string()
}

/// Relies on `i64`'s `Display` impl: a minus sign when negative, then the
/// plain decimal digits of the magnitude.
#[verifier::external_body]
pub fn i64_to_string(n: i64) -> (r: String)
    ensures
        r@ == spec_i64_chars(n as int),
{
    n.to_string()
}

pub fn usize_to_string(n: usize) -> (r: String)
    ensures
        r@ == spec_u64_chars(n as int),
{
    u64_to_string(n as u64)
}

// ---------------------------------------------------------------------------
// Saturating sums and products
// ---------------------------------------------------------------------------

pub open spec fn spec_cap_u64(x: int) -> int {
    if x > u64::MAX {
        u64::MAX as int
    } else {
        x
    }
}

pub proof fn lemma_cap_add(a: int, b: int)
    requires
        0 <= a,
        0 <= b <= u64::MAX,
    ensures
        spec_cap_u64(spec_cap_u64(a) + b) == spec_cap_u64(a + b),
{
}

pub open spec fn spec_sum_u64(s: Seq<u64>) -> int
    decreases s.len(),
{
    if s.len() == 0 {
        0
    } else {
        spec_sum_u64(s.drop_last()) + s.last()
    }
}

pub proof fn lemma_sum_nonneg(s: Seq<u64>)
    ensures
        spec_sum_u64(s) >= 0,
    decreases s.len(),
{
    if s.len() > 0 {
        lemma_sum_nonneg(s.drop_last());
    }
}

/// The sum of the values, saturating at `u64::MAX`.
pub fn sum_sat_u64(v: &Vec<u64>) -> (r: u64)
    ensures
        r == spec_cap_u64(spec_sum_u64(v@)),
{
    let mut acc: u64 = 0;
    let mut i: usize = 0;
    while i < v.len()
        invariant
            i <= v@.len(),
            acc == spec_cap_u64(spec_sum_u64(v@.take(i as int))),
        decreases v@.len() - i,
    {
        proof {
            let t = v@.take(i + 1);
            assert(t.drop_last() =~= v@.take(i as int));
            lemma_sum_nonneg(v@.take(i as int));
            lemma_cap_add(spec_sum_u64(v@.take(i as int)), v@[i as int] as int);
        }
        acc = sat_add(acc, v[i]);
        i += 1;
    }
    proof {
        assert(v@.take(v@.len() as int) =~= v@);
    }
    acc
}

pub fn sat_add(a: u64, b: u64) -> (r: u64)
    ensures
        r == spec_cap_u64(a + b),
{
    if a > u64::MAX - b {
        u64::MAX
    } else {
        a + b
    }
}

pub open spec fn spec_prod_u64(s: Seq<u64>) -> int
    decreases s.len(),
{
    if s.len() == 0 {
        1
    } else {
        spec_prod_u64(s.drop_last()) * s.last()
    }
}

pub proof fn lemma_prod_nonneg(s: Seq<u64>)
    ensures
        spec_prod_u64(s) >= 0,
    decreases s.len(),
{
    if s.len() > 0 {
        lemma_prod_nonneg(s.drop_last());
        assert(spec_prod_u64(s.drop_last()) * s.last() >= 0) by (nonlinear_arith)
            requires
                spec_prod_u64(s.drop_last()) >= 0,
                s.last() >= 0,
        ;
    }
}

pub proof fn lemma_cap_mul(a: int, b: int)
    requires
        0 <= a,
        0 <= b <= u64::MAX,
    ensures
        spec_cap_u64(spec_cap_u64(a) * b) == spec_cap_u64(a * b),
{
    if a > u64::MAX {
        if b == 0 {
            assert(spec_cap_u64(a) * b == 0);
            assert(a * b == 0) by (nonlinear_arith)
                requires
                    b == 0,
            ;
        } else {
            assert(spec_cap_u64(a) * b >= u64::MAX) by (nonlinear_arith)
                requires
                    spec_cap_u64(a) == u64::MAX,
                    b >= 1,
            ;
            assert(a * b >= a) by (nonlinear_arith)
                requires
                    a >= 0,
                    b >= 1,
            ;
        }
    }
}

/// The product of the values, saturating at `u64::MAX`.
pub fn prod_sat_u64(v: &Vec<u64>) -> (r: u64)
    ensures
        r == spec_cap_u64(spec_prod_u64(v@)),
{
    let mut acc: u64 = 1;
    let mut i: usize = 0;
    while i < v.len()
        invariant
            i <= v@.len(),
            acc == spec_cap_u64(spec_prod_u64(v@.take(i as int))),
        decreases v@.len() - i,
    {
        proof {
            let t = v@.take(i + 1);
            assert(t.drop_last() =~= v@.take(i as int));
            lemma_prod_nonneg(v@.take(i as int));
            lemma_cap_mul(spec_prod_u64(v@.take(i as int)), v@[i as int] as int);
        }
        acc = sat_mul(acc, v[i]);
        i += 1;
    }
    proof {
        assert(v@.take(v@.len() as int) =~= v@);
    }
    acc
}

/// The bytes of `v` with leading and trailing whitespace removed.
pub fn trim_ws(v: &Vec<u8>) -> (r: Vec<u8>)
    ensures
        r@.len() <= v@.len(),
{
    let mut a: usize = 0;
    while a < v.len() && is_ws(v[a])
        invariant
            a <= v@.len(),
        decreases v@.len() - a,
    {
        a += 1;
    }
    let mut b: usize = v.len();
    while b > a && is_ws(v[b - 1])
        invariant
            a <= b <= v@.len(),
        decreases b,
    {
        b -= 1;
    }
    let mut r: Vec<u8> = Vec::new();
    let mut i = a;
    while i < b
        invariant
            a <= i <= b <= v@.len(),
            r@.len() == i - a,
        decreases b - i,
    {
        r.push(v[i]);
        i += 1;
    }
    r
}

pub fn sat_mul(a: u64, b: u64) -> (r: u64)
    ensures
        r == spec_cap_u64(a as int * b as int),
{
    if b == 0 {
        return 0;
    }
    if a > u64::MAX / b {
        proof {
            assert(a * b > u64::MAX) by (nonlinear_arith)
                requires
                    b > 0,
                    a > u64::MAX as int / b as int,
            {
                vstd::arithmetic::div_mod::lemma_fundamental_div_mod(u64::MAX as int, b as int);
            }
        }
        u64::MAX
    } else {
        proof {
            assert(a * b <= u64::MAX) by (nonlinear_arith)
                requires
                    b > 0,
                    a <= u64::MAX as int / b as int,
            {
                vstd::arithmetic::div_mod::lemma_fundamental_div_mod(u64::MAX as int, b as int);
            }
        }
        a * b
    }
}

pub open spec fn spec_sorted_i64(s: Seq<i64>) -> bool {
    forall|i: int, j: int| 0 <= i < j < s.len() ==> s[i] <= s[j]
}

/// Relies on itertools' `sorted`: a stably sorted permutation of the input,
/// by `slice::sort`.
#[verifier::external_body]
pub fn sorted_i64(v: Vec<i64>) -> (r: Vec<i64>)
    ensures
        r@.to_multiset() == v@.to_multiset(),
        r@.len() == v@.len(),
        spec_sorted_i64(r@),
{
    v.into_iter().sorted().collect()
}

/// How many entries equal `x`.
pub open spec fn spec_count_i64(s: Seq<i64>, x: i64) -> int
    decreases s.len(),
{
    if s.len() == 0 {
        0
    } else {
        spec_count_i64(s.drop_last(), x) + if s.last() == x {
            1int
        } else {
            0
        }
    }
}

pub fn count_i64(v: &Vec<i64>, x: i64) -> (r: usize)
    ensures
        r as int == spec_count_i64(v@, x),
        r <= v@.len(),
{
    let mut c: usize = 0;
    let mut i: usize = 0;
    while i < v.len()
        invariant
            i <= v@.len(),
            c <= i,
            c as int == spec_count_i64(v@.take(i as int), x),
        decreases v@.len() - i,
    {
        proof {
            assert(v@.take(i + 1).drop_last() =~= v@.take(i as int));
        }
        if v[i] == x {
            c += 1;
        }
        i += 1;
    }
    proof {
        assert(v@.take(v@.len() as int) =~= v@);
    }
    c
}

/// Clamps to half the `i128` range, so another addition cannot overflow.
pub open spec fn spec_clamp128(x: int) -> int {
    if x > 0x4000_0000_0000_0000_0000_0000_0000_0000 {
        0x4000_0000_0000_0000_0000_0000_0000_0000
    } else if x < -0x4000_0000_0000_0000_0000_0000_0000_0000 {
        -0x4000_0000_0000_0000_0000_0000_0000_0000
    } else {
        x
    }
}

pub fn clamp_add_i128(acc: i128, v: i128) -> (r: i128)
    requires
        -0x4000_0000_0000_0000_0000_0000_0000_0000 <= acc
            <= 0x4000_0000_0000_0000_0000_0000_0000_0000,
    ensures
        r as int == spec_clamp128(acc + v),
{
    let half: i128 = 0x4000_0000_0000_0000_0000_0000_0000_0000;
    if v >= 0 {
        if acc > half - v {
            half
        } else {
            acc + v
        }
    } else {
        if acc < -half - v {
            -half
        } else {
            acc + v
        }
    }
}

/// Renders values that fit an `i64` (larger magnitudes are cut to the
/// bound).
/// The value squeezed into `i64`'s range.
pub open spec fn spec_clamp_to_i64(v: int) -> int {
    if v > i64::MAX {
        i64::MAX as int
    } else if v < i64::MIN {
        i64::MIN as int
    } else {
        v
    }
}

pub fn i128_to_clamped_string(v: i128) -> (r: String)
    ensures
        r@ == spec_i64_chars(spec_clamp_to_i64(v as int)),
{
    let w: i64 = if v > i64::MAX as i128 {
        i64::MAX
    } else if v < i64::MIN as i128 {
        i64::MIN
    } else {
        v as i64
    };
    i64_to_string(w)
}

/// Lexicographic order on pairs.
pub open spec fn spec_pair_le(a: (u64, u64), b: (u64, u64)) -> bool {
    a.0 < b.0 || (a.0 == b.0 && a.1 <= b.1)
}

/// Relies on itertools' `sorted`: a stably sorted permutation of the
/// input, under the standard lexicographic order on integer pairs.
#[verifier::external_body]
pub fn sorted_pairs_u64(v: Vec<(u64, u64)>) -> (r: Vec<(u64, u64)>)
    ensures
        r@.to_multiset() == v@.to_multiset(),
        r@.len() == v@.len(),
        forall|i: int, j: int| 0 <= i < j < r@.len() ==> spec_pair_le(r@[i], r@[j]),
{
    v.into_iter().sorted().collect()
}

} // verus!
