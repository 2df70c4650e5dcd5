//! Reading numbers written as `str::parse::<f64>` reads them: an optional
//! sign, then `inf`, `infinity` or `nan` in any case, or digits with an
//! optional point and an optional exponent. The value is taken exactly and
//! scaled by a power of ten, then rounded to an integer, halves to even.
use vstd::prelude::*;
use crate::num::{
    all_digits, digit_val, digits_value, is_digit, is_negative, lemma_digits_value_bound,
    lemma_pow10_add, lemma_pow10_mono, lemma_pow10_pos, pow10, round_half_even, unsigned_part,
};
use crate::text::{find_char, index_of, lemma_index_of_props, push_all, slice_chars, to_chars};

verus! {

/// What reading a number gives, scaled and rounded: not a number text, a
/// NaN, a value beyond the limit (or infinite) with its sign, or the value.
#[derive(Clone, Copy, Debug, PartialEq, Eq, Structural)]
pub enum ScaledRead {
    Bad,
    NotANumber,
    Over(bool),
    Val(i128),
}

/// Texts this long or longer are not read (a machine limit).
pub const MAX_FLOAT_TEXT: usize = 0x1000_0000;

/// Whether `c` is the lower-case ASCII letter `l` in either case.
pub open spec fn ci_char(c: char, l: char) -> bool {
    c == l || (c as u32) + 32 == (l as u32)
}

/// Whether `a` spells the lower-case ASCII word `w` in any case.
pub open spec fn ci_eq(a: Seq<char>, w: Seq<char>) -> bool {
    a.len() == w.len() && forall|i: int| 0 <= i < a.len() ==> #[trigger] ci_char(a[i], w[i])
}

/// Whether the unsigned text `b` is an infinity.
pub open spec fn is_inf_text(b: Seq<char>) -> bool {
    ci_eq(b, "inf"@) || ci_eq(b, "infinity"@)
}

/// Whether the unsigned text `b` is a NaN.
pub open spec fn is_nan_text(b: Seq<char>) -> bool {
    ci_eq(b, "nan"@)
}

/// Whether `c` starts an exponent.
pub open spec fn is_e(c: char) -> bool {
    c == 'e' || c == 'E'
}

/// Index of the first `e` or `E` in `s`, or its length.
pub open spec fn e_index(s: Seq<char>) -> int
    decreases s.len(),
{
    if s.len() == 0 {
        0
    } else if is_e(s[0]) {
        0
    } else {
        1 + e_index(s.drop_first())
    }
}

/// The mantissa of an unsigned number text: what comes before the exponent.
pub open spec fn mantissa(b: Seq<char>) -> Seq<char> {
    b.take(e_index(b))
}

/// The exponent text after `e`, empty when there is none.
pub open spec fn exponent_text(b: Seq<char>) -> Seq<char> {
    if e_index(b) < b.len() {
        b.skip(e_index(b) + 1)
    } else {
        Seq::empty()
    }
}

/// The digits of a mantissa before its point.
pub open spec fn int_part(m: Seq<char>) -> Seq<char> {
    m.take(index_of(m, '.'))
}

/// The digits of a mantissa after its point.
pub open spec fn frac_part(m: Seq<char>) -> Seq<char> {
    if index_of(m, '.') < m.len() {
        m.skip(index_of(m, '.') + 1)
    } else {
        Seq::empty()
    }
}

/// Whether an exponent text is an optional sign and one or more digits.
pub open spec fn exponent_ok(x: Seq<char>) -> bool {
    unsigned_part(x).len() >= 1 && all_digits(unsigned_part(x))
}

/// The value of an optional sign and digits.
pub open spec fn signed_digits_value(x: Seq<char>) -> int {
    if is_negative(x) {
        -(digits_value(unsigned_part(x)) as int)
    } else {
        digits_value(unsigned_part(x)) as int
    }
}

/// The exponent's value, 0 when there is none.
pub open spec fn exponent_value(b: Seq<char>) -> int {
    if e_index(b) < b.len() {
        signed_digits_value(exponent_text(b))
    } else {
        0
    }
}

/// Whether the unsigned text `b` is a finite number: digits with an optional
/// point, one digit at least, then optionally `e` and an exponent.
pub open spec fn number_ok(b: Seq<char>) -> bool {
    let m = mantissa(b);
    &&& all_digits(int_part(m))
    &&& all_digits(frac_part(m))
    &&& int_part(m).len() + frac_part(m).len() >= 1
    &&& (e_index(b) < b.len() ==> exponent_ok(exponent_text(b)))
}

/// Whether `s` reads as a number at all.
pub open spec fn float_ok(s: Seq<char>) -> bool {
    let b = unsigned_part(s);
    s.len() < MAX_FLOAT_TEXT && (is_inf_text(b) || is_nan_text(b) || number_ok(b))
}

/// `digits_value(ds) * 10^sh`, rounded to an integer, halves to even.
pub open spec fn scaled_mag(ds: Seq<char>, sh: int) -> int {
    if sh >= 0 {
        (digits_value(ds) * pow10(sh as nat)) as int
    } else {
        round_half_even(digits_value(ds) as int, pow10((-sh) as nat) as int)
    }
}

/// The magnitude of the finite number `s` times `10^k`, rounded to an
/// integer, halves to even.
pub open spec fn finite_scaled(s: Seq<char>, k: int) -> int {
    let m = mantissa(unsigned_part(s));
    scaled_mag(int_part(m) + frac_part(m), exponent_value(unsigned_part(s)) - frac_part(m).len() + k)
}

/// `s` read as `str::parse::<f64>` reads it, its exact value times `10^k`
/// rounded to an integer (halves to even), with magnitudes over `lim`
/// reported as over.
pub open spec fn read_scaled(s: Seq<char>, k: nat, lim: nat) -> ScaledRead {
    let b = unsigned_part(s);
    if !float_ok(s) {
        ScaledRead::Bad
    } else if is_nan_text(b) {
        ScaledRead::NotANumber
    } else if is_inf_text(b) {
        ScaledRead::Over(is_negative(s))
    } else {
        let m = finite_scaled(s, k as int);
        if m > lim {
            ScaledRead::Over(is_negative(s))
        } else if is_negative(s) {
            ScaledRead::Val((-m) as i128)
        } else {
            ScaledRead::Val(m as i128)
        }
    }
}

// ------------------------------------------------------------------ lemmas

pub proof fn lemma_dv_split(s: Seq<char>, p: int)
    requires
        0 <= p <= s.len(),
    ensures
        digits_value(s) == digits_value(s.take(p)) * pow10((s.len() - p) as nat) + digits_value(s.skip(p)),
    decreases s.len(),
{
    if p == s.len() {
        assert(s.take(p) =~= s);
        assert(s.skip(p) =~= Seq::<char>::empty());
        assert(digits_value(s.skip(p)) == 0);
        assert(pow10(0) == 1);
        assert(digits_value(s) == digits_value(s.take(p)) * pow10(0) + 0);
    } else {
        let t = s.drop_last();
        lemma_dv_split(t, p);
        assert(t.take(p) =~= s.take(p));
        let u = s.skip(p);
        assert(u.drop_last() =~= t.skip(p));
        assert(u.last() == s.last());
        let a = digits_value(s.take(p)) as int;
        let n = (t.len() - p) as nat;
        let pn = pow10(n) as int;
        let b = digits_value(t.skip(p)) as int;
        let dl = (digit_val(s.last()) as nat) as int;
        assert(digits_value(s) == digits_value(t) * 10 + dl);
        assert(digits_value(u) == digits_value(u.drop_last()) * 10 + dl);
        assert(digits_value(t) == a * pn + b);
        assert(pow10((s.len() - p) as nat) == 10 * pn);
        assert((a * pn + b) * 10 + dl == a * (10 * pn) + (b * 10 + dl)) by (nonlinear_arith);
        assert(digits_value(s) == a * (10 * pn) + (b * 10 + dl));
        assert(digits_value(u) == b * 10 + dl);
    }
}

pub proof fn lemma_dv_prefix_le(s: Seq<char>, p: int)
    requires
        0 <= p <= s.len(),
    ensures
        digits_value(s.take(p)) <= digits_value(s),
{
    lemma_dv_split(s, p);
    lemma_pow10_pos((s.len() - p) as nat);
    let a = digits_value(s.take(p));
    let q = pow10((s.len() - p) as nat);
    assert(a <= a * q) by (nonlinear_arith)
        requires q >= 1;
}

pub proof fn lemma_dv_zero(s: Seq<char>)
    requires
        all_digits(s),
    ensures
        digits_value(s) == 0 <==> (forall|i: int| 0 <= i < s.len() ==> digit_val(#[trigger] s[i]) == 0),
    decreases s.len(),
{
    if s.len() > 0 {
        let t = s.drop_last();
        assert(all_digits(t)) by {
            assert forall|i: int| 0 <= i < t.len() implies is_digit(#[trigger] t[i]) by {
                assert(t[i] == s[i]);
            }
        }
        lemma_dv_zero(t);
        let c = s[s.len() - 1];
        assert(is_digit(c));
        assert(digits_value(s) == digits_value(t) * 10 + (digit_val(c) as nat));
        if digits_value(s) == 0 {
            assert(digits_value(t) == 0 && digit_val(c) == 0);
            assert forall|i: int| 0 <= i < s.len() implies digit_val(#[trigger] s[i]) == 0 by {
                if i < s.len() - 1 {
                    assert(t[i] == s[i]);
                }
            }
        }
        if forall|i: int| 0 <= i < s.len() ==> digit_val(#[trigger] s[i]) == 0 {
            assert forall|i: int| 0 <= i < t.len() implies digit_val(#[trigger] t[i]) == 0 by {
                assert(t[i] == s[i]);
            }
            assert(digit_val(s[s.len() - 1]) == 0);
        }
    }
}

/// Rounding `q * d + r` by `d`, halves to even, for `0 <= r < d`.
pub proof fn lemma_rhe_parts(q: int, r: int, d: int)
    requires
        d > 0,
        0 <= r < d,
    ensures
        round_half_even(q * d + r, d) == if 2 * r < d {
            q
        } else if 2 * r > d {
            q + 1
        } else if q % 2 == 0 {
            q
        } else {
            q + 1
        },
{
    vstd::arithmetic::div_mod::lemma_fundamental_div_mod_converse(q * d + r, d, q, r);
}

/// How the digits after a cut compare with one half: `2 * dv(t)` against
/// `10^|t|`, decided by the first digit and whether the rest are all zero.
pub proof fn lemma_half_compare(t: Seq<char>)
    requires
        t.len() >= 1,
        all_digits(t),
    ensures
        ({
            let d = digit_val(t[0]);
            let w = digits_value(t.skip(1));
            let h = pow10(t.len() as nat) as int;
            &&& (d > 5 || (d == 5 && w > 0)) ==> 2 * digits_value(t) > h
            &&& (d == 5 && w == 0) ==> 2 * digits_value(t) == h
            &&& d < 5 ==> 2 * digits_value(t) < h
        }),
{
    lemma_dv_split(t, 1);
    let n = (t.len() - 1) as nat;
    assert(t.take(1).drop_last() =~= Seq::<char>::empty());
    assert(t.take(1).last() == t[0]);
    assert(digits_value(t.take(1).drop_last()) == 0);
    assert(digits_value(t.take(1)) == digit_val(t[0]));
    let u = t.skip(1);
    assert(all_digits(u)) by {
        assert forall|i: int| 0 <= i < u.len() implies is_digit(#[trigger] u[i]) by {
            assert(u[i] == t[i + 1]);
        }
    }
    lemma_digits_value_bound(u);
    assert(is_digit(t[0]));
    let d = digit_val(t[0]);
    let w = digits_value(u) as int;
    let p = pow10(n) as int;
    assert(pow10(t.len() as nat) == 10 * pow10(n));
    assert(digits_value(t) == d * p + w);
    assert((d > 5 || (d == 5 && w > 0)) ==> 2 * (d * p + w) > 10 * p) by (nonlinear_arith)
        requires 0 <= w < p, 0 <= d <= 9;
    assert((d == 5 && w == 0) ==> 2 * (d * p + w) == 10 * p) by (nonlinear_arith);
    assert(d < 5 ==> 2 * (d * p + w) < 10 * p) by (nonlinear_arith)
        requires 0 <= w < p, 0 <= d <= 9;
}

pub proof fn lemma_e_index_props(s: Seq<char>)
    ensures
        0 <= e_index(s) <= s.len(),
        forall|j: int| 0 <= j < e_index(s) ==> !is_e(#[trigger] s[j]),
        e_index(s) < s.len() ==> is_e(s[e_index(s)]),
    decreases s.len(),
{
    if s.len() > 0 && !is_e(s[0]) {
        let t = s.drop_first();
        lemma_e_index_props(t);
        assert forall|j: int| 0 <= j < e_index(s) implies !is_e(#[trigger] s[j]) by {
            if j > 0 {
                assert(s[j] == t[j - 1]);
            }
        }
    }
}

pub proof fn lemma_e_index_is(s: Seq<char>, k: int)
    requires
        0 <= k <= s.len(),
        forall|j: int| 0 <= j < k ==> !is_e(#[trigger] s[j]),
        k < s.len() ==> is_e(s[k]),
    ensures
        e_index(s) == k,
    decreases s.len(),
{
    if s.len() > 0 && k > 0 {
        let t = s.drop_first();
        assert(!is_e(s[0]));
        assert forall|j: int| 0 <= j < k - 1 implies !is_e(#[trigger] t[j]) by {
            assert(t[j] == s[j + 1]);
            assert(!is_e(s[j + 1]));
        }
        if k < s.len() {
            assert(t[k - 1] == s[k]);
        }
        lemma_e_index_is(t, k - 1);
    }
}

/// `10^k` exceeds every limit this module is used with once `k >= 30`.
proof fn lemma_pow10_large(k: nat)
    requires
        k >= 30,
    ensures
        pow10(k) > 0x1_0000_0000_0000_0000_0000_0000,
{
    crate::num::lemma_pow10_values();
    lemma_pow10_add(9, 9);
    lemma_pow10_add(18, 9);
    lemma_pow10_add(27, 3);
    lemma_pow10_mono(30, k);
}

/// Past the digits' own length, a negative shift rounds to zero.
proof fn lemma_scaled_tiny(ds: Seq<char>, sh: int)
    requires
        all_digits(ds),
        sh < 0,
        -sh >= ds.len() + 1,
    ensures
        scaled_mag(ds, sh) == 0,
{
    lemma_digits_value_bound(ds);
    let pp = pow10((-sh) as nat);
    lemma_pow10_add(ds.len(), ((-sh) - ds.len()) as nat);
    lemma_pow10_pos(((-sh) - ds.len()) as nat);
    assert(((-sh) - ds.len()) as nat >= 1);
    lemma_pow10_mono(1, ((-sh) - ds.len()) as nat);
    let m = digits_value(ds) as int;
    let a = pow10(ds.len()) as int;
    let c = pow10(((-sh) - ds.len()) as nat) as int;
    assert(2 * m < a * c) by (nonlinear_arith)
        requires m < a, c >= 10, a >= 1;
    assert(0 * (pp as int) + m == m);
    lemma_rhe_parts(0, m, pp as int);
}

/// Whether `c` is an ASCII digit.
fn is_digit_exec(c: char) -> (r: bool)
    ensures
        r == is_digit(c),
{
    (c as u32) >= 48 && (c as u32) <= 57
}

/// Whether every character of `v` is an ASCII digit.
fn all_digits_exec(v: &[char]) -> (r: bool)
    ensures
        r == all_digits(v@),
{
    let mut i: usize = 0;
    while i < v.len()
        invariant
            i <= v@.len(),
            forall|j: int| 0 <= j < i ==> is_digit(#[trigger] v@[j]),
        decreases v.len() - i,
    {
        if !is_digit_exec(v[i]) {
            return false;
        }
        i += 1;
    }
    true
}

/// Whether `v[lo..]` spells the lower-case word `w` in any case.
fn ci_eq_exec(v: &[char], lo: usize, w: &str) -> (r: bool)
    requires
        lo <= v@.len(),
    ensures
        r == ci_eq(v@.subrange(lo as int, v@.len() as int), w@),
{
    let wc = to_chars(w);
    let ghost a = v@.subrange(lo as int, v@.len() as int);
    if v.len() - lo != wc.len() {
        return false;
    }
    let mut i: usize = 0;
    while i < wc.len()
        invariant
            i <= wc@.len(),
            wc@ == w@,
            a == v@.subrange(lo as int, v@.len() as int),
            a.len() == wc@.len(),
            lo + wc@.len() == v@.len(),
            forall|j: int| 0 <= j < i ==> #[trigger] ci_char(a[j], w@[j]),
        decreases wc.len() - i,
    {
        assert(lo + i < v.len());
        let c = v[lo + i];
        let l = wc[i];
        assert(a[i as int] == c);
        assert(l == w@[i as int]);
        if !(c == l || (c as u32) as u64 + 32 == (l as u32) as u64) {
            assert(!ci_char(a[i as int], w@[i as int]));
            return false;
        }
        i += 1;
    }
    true
}

/// Index of the first `e` or `E` in `v` at or after `from`, or `v.len()`.
fn find_e(v: &[char], from: usize) -> (r: usize)
    requires
        from <= v@.len(),
    ensures
        from <= r <= v@.len(),
        r - from == e_index(v@.subrange(from as int, v@.len() as int)),
{
    let ghost s = v@.subrange(from as int, v@.len() as int);
    let mut i = from;
    while i < v.len() && !(v[i] == 'e' || v[i] == 'E')
        invariant
            from <= i <= v@.len(),
            s == v@.subrange(from as int, v@.len() as int),
            forall|j: int| 0 <= j < i - from ==> !is_e(#[trigger] s[j]),
        decreases v.len() - i,
    {
        assert(s[i - from] == v@[i as int]);
        i += 1;
    }
    if i < v.len() {
        assert(s[i - from] == v@[i as int]);
    }
    proof {
        lemma_e_index_is(s, i - from);
    }
    i
}

/// The saturation bound for exponents.
pub const EXP_CAP: u64 = 0x4000_0000_0000_0000;

/// The value of the digits `v`, or [`EXP_CAP`] when it is that or more.
fn capped_digits(v: &[char]) -> (r: u64)
    requires
        all_digits(v@),
    ensures
        r == if digits_value(v@) >= EXP_CAP {
            EXP_CAP as int
        } else {
            digits_value(v@) as int
        },
{
    let mut acc: u64 = 0;
    let mut i: usize = 0;
    while i < v.len()
        invariant
            i <= v@.len(),
            all_digits(v@),
            acc == if digits_value(v@.take(i as int)) >= EXP_CAP {
                EXP_CAP as int
            } else {
                digits_value(v@.take(i as int)) as int
            },
        decreases v.len() - i,
    {
        assert(v@.take(i + 1).drop_last() =~= v@.take(i as int));
        assert(v@.take(i + 1).last() == v@[i as int]);
        assert(is_digit(v@[i as int]));
        let d = (v[i] as u32 - 48) as u64;
        if acc >= EXP_CAP {
            acc = EXP_CAP;
        } else {
            let x: u128 = acc as u128 * 10 + d as u128;
            if x >= EXP_CAP as u128 {
                acc = EXP_CAP;
            } else {
                acc = x as u64;
            }
        }
        i += 1;
    }
    assert(v@.take(v@.len() as int) =~= v@);
    acc
}

/// `digits_value(ds) * 10^sh` rounded to an integer, halves to even, when
/// it is at most `lim`; `None` when it is more.
fn scale_round(ds: &[char], sh: i128, lim: u128) -> (r: Option<u128>)
    requires
        all_digits(ds@),
        ds@.len() < MAX_FLOAT_TEXT,
        lim < 0x1_0000_0000_0000_0000_0000_0000,
        -0x1_0000_0000_0000_0000 < sh < 0x1_0000_0000_0000_0000,
    ensures
        match r {
            Some(x) => x == scaled_mag(ds@, sh as int) && x <= lim,
            None => scaled_mag(ds@, sh as int) > lim,
        },
{
    let n = ds.len();
    if sh >= 0 {
        let mut acc: u128 = 0;
        let mut i: usize = 0;
        while i < n
            invariant
                i <= n == ds@.len(),
                all_digits(ds@),
                lim < 0x1_0000_0000_0000_0000_0000_0000,
                sh >= 0,
                acc == digits_value(ds@.take(i as int)),
                acc <= lim,
            decreases n - i,
        {
            assert(ds@.take(i + 1).drop_last() =~= ds@.take(i as int));
            assert(ds@.take(i + 1).last() == ds@[i as int]);
            assert(is_digit(ds@[i as int]));
            let d = (ds[i] as u32 - 48) as u128;
            acc = acc * 10 + d;
            assert(acc == digits_value(ds@.take(i + 1)));
            if acc > lim {
                proof {
                    lemma_dv_prefix_le(ds@, i + 1);
                    lemma_pow10_pos(sh as nat);
                    let m = digits_value(ds@) as int;
                    let q = pow10(sh as nat) as int;
                    assert(m * q >= m) by (nonlinear_arith)
                        requires q >= 1, m >= 0;
                    assert(scaled_mag(ds@, sh as int) == m * q);
                    assert(m >= acc);
                }
                return None;
            }
            i += 1;
        }
        assert(ds@.take(n as int) =~= ds@);
        let ghost m = digits_value(ds@) as int;
        let mut j: u128 = 0;
        assert(pow10(0) == 1);
        assert(acc == m * pow10(0));
        while j < sh as u128
            invariant
                j <= sh,
                sh >= 0,
                lim < 0x1_0000_0000_0000_0000_0000_0000,
                m >= 0,
                m == digits_value(ds@) as int,
                acc == m * pow10(j as nat),
                acc <= lim,
            ensures
                acc == m * pow10(j as nat),
                acc <= lim,
                acc == 0 || j == sh,
            decreases sh - j,
        {
            if acc == 0 {
                break;
            }
            let ghost a0 = acc;
            acc = acc * 10;
            proof {
                assert(pow10((j + 1) as nat) == 10 * pow10(j as nat));
                assert(m * (10 * pow10(j as nat)) == (m * pow10(j as nat)) * 10) by (nonlinear_arith);
            }
            assert(acc == m * pow10((j + 1) as nat));
            if acc > lim {
                proof {
                    lemma_pow10_mono((j + 1) as nat, sh as nat);
                    let p1 = pow10((j + 1) as nat) as int;
                    let p2 = pow10(sh as nat) as int;
                    assert(m * p1 <= m * p2) by (nonlinear_arith)
                        requires m >= 0, p1 <= p2;
                }
                return None;
            }
            j += 1;
        }
        proof {
            if acc == 0 {
                lemma_pow10_pos(j as nat);
                let pj = pow10(j as nat) as int;
                assert(m == 0) by (nonlinear_arith)
                    requires m * pj == 0, pj >= 1, m >= 0;
                assert(m * pow10(sh as nat) == 0) by (nonlinear_arith)
                    requires m == 0;
            }
        }
        Some(acc)
    } else {
        let nd: i128 = 0 - sh;
        let p: i128 = n as i128 - nd;
        assert(p < n);
        if p < 0 {
            proof {
                lemma_scaled_tiny(ds@, sh as int);
            }
            return Some(0);
        }
        assert(0 <= p <= n);
        let pu = p as usize;
        assert(pu as int == p as int);
        assert(n - pu == nd);
        let mut q: u128 = 0;
        let mut i: usize = 0;
        while i < pu
            invariant
                i <= pu < n == ds@.len(),
                n - pu == -sh,
                all_digits(ds@),
                lim < 0x1_0000_0000_0000_0000_0000_0000,
                q == digits_value(ds@.take(i as int)),
                q <= lim,
            decreases pu - i,
        {
            assert(ds@.take(i + 1).drop_last() =~= ds@.take(i as int));
            assert(ds@.take(i + 1).last() == ds@[i as int]);
            assert(is_digit(ds@[i as int]));
            let d = (ds[i] as u32 - 48) as u128;
            q = q * 10 + d;
            assert(q == digits_value(ds@.take(i + 1)));
            if q > lim {
                proof {
                    let t = ds@.take(pu as int);
                    assert(t.take(i + 1) =~= ds@.take(i + 1));
                    lemma_dv_prefix_le(t, i + 1);
                    lemma_dv_split(ds@, pu as int);
                    let sfx = ds@.skip(pu as int);
                    assert(all_digits(sfx)) by {
                        assert forall|k: int| 0 <= k < sfx.len() implies is_digit(#[trigger] sfx[k]) by {
                            assert(sfx[k] == ds@[k + pu]);
                        }
                    }
                    lemma_digits_value_bound(sfx);
                    let qq = digits_value(t) as int;
                    let rr = digits_value(sfx) as int;
                    let pp = pow10((n - pu) as nat) as int;
                    assert((n - pu) as nat == (-sh) as nat);
                    lemma_rhe_parts(qq, rr, pp);
                }
                return None;
            }
            i += 1;
        }
        assert(ds@.take(pu as int).take(pu as int) =~= ds@.take(pu as int));
        assert(ds@.take(i as int) =~= ds@.take(pu as int));
        let first = (ds[pu] as u32 - 48) as u128;
        let mut rest_nonzero = false;
        let mut k: usize = pu + 1;
        while k < n
            invariant
                pu + 1 <= k <= n == ds@.len(),
                rest_nonzero == exists|j: int| pu + 1 <= j < k && digit_val(#[trigger] ds@[j]) != 0,
            decreases n - k,
        {
            if ds[k] as u32 != 48 {
                rest_nonzero = true;
            }
            k += 1;
        }
        let bump: u128 = if first > 5 || (first == 5 && rest_nonzero) {
            1
        } else if first == 5 {
            if q % 2 == 1 { 1 } else { 0 }
        } else {
            0
        };
        let res = q + bump;
        proof {
            let t = ds@.skip(pu as int);
            assert(all_digits(t)) by {
                assert forall|k: int| 0 <= k < t.len() implies is_digit(#[trigger] t[k]) by {
                    assert(t[k] == ds@[k + pu]);
                }
            }
            lemma_dv_split(ds@, pu as int);
            lemma_digits_value_bound(t);
            lemma_half_compare(t);
            assert(t[0] == ds@[pu as int]);
            let w = t.skip(1);
            assert(all_digits(w)) by {
                assert forall|k: int| 0 <= k < w.len() implies is_digit(#[trigger] w[k]) by {
                    assert(w[k] == ds@[k + pu + 1]);
                }
            }
            lemma_dv_zero(w);
            assert(rest_nonzero <==> digits_value(w) != 0) by {
                if rest_nonzero {
                    let j = choose|j: int| pu + 1 <= j < n && digit_val(#[trigger] ds@[j]) != 0;
                    assert(w[j - pu - 1] == ds@[j]);
                }
                if digits_value(w) != 0 {
                    let j = choose|j: int| 0 <= j < w.len() && digit_val(#[trigger] w[j]) != 0;
                    assert(w[j] == ds@[j + pu + 1]);
                }
            }
            let qq = digits_value(ds@.take(pu as int)) as int;
            let rr = digits_value(t) as int;
            let pp = pow10((n - pu) as nat) as int;
            assert((n - pu) as nat == (-sh) as nat);
            lemma_rhe_parts(qq, rr, pp);
        }
        if res > lim {
            return None;
        }
        Some(res)
    }
}

/// With shifts of 30 or more, the rounded value is the same for both or
/// past every limit used here for both.
proof fn lemma_scaled_big(ds: Seq<char>, sh1: int, sh2: int)
    requires
        sh1 >= 30,
        sh2 >= 30,
    ensures
        scaled_mag(ds, sh1) == scaled_mag(ds, sh2)
            || (scaled_mag(ds, sh1) > 0x1_0000_0000_0000_0000_0000_0000 && scaled_mag(ds, sh2)
            > 0x1_0000_0000_0000_0000_0000_0000),
{
    let m = digits_value(ds) as int;
    lemma_pow10_large(sh1 as nat);
    lemma_pow10_large(sh2 as nat);
    let p1 = pow10(sh1 as nat) as int;
    let p2 = pow10(sh2 as nat) as int;
    if m == 0 {
        assert(m * p1 == 0 && m * p2 == 0) by (nonlinear_arith)
            requires m == 0;
    } else {
        assert(m * p1 >= p1 && m * p2 >= p2) by (nonlinear_arith)
            requires m >= 1, p1 >= 1, p2 >= 1;
    }
}

/// An exponent text's value, held within [`EXP_CAP`] in magnitude; `None`
/// when it is not an optional sign and digits.
fn exponent_exec(x: &[char]) -> (r: Option<i128>)
    ensures
        r is Some <==> exponent_ok(x@),
        r matches Some(e) ==> {
            let t = signed_digits_value(x@);
            &&& -(EXP_CAP as int) <= e <= EXP_CAP
            &&& (-(EXP_CAP as int) < t < EXP_CAP ==> e == t)
            &&& (t >= EXP_CAP ==> e == EXP_CAP)
            &&& (t <= -(EXP_CAP as int) ==> e == -(EXP_CAP as int))
        },
{
    let xs: usize = if x.len() > 0 && (x[0] == '+' || x[0] == '-') {
        1
    } else {
        0
    };
    let xneg = x.len() > 0 && x[0] == '-';
    let xu = slice_chars(x, xs, x.len());
    assert(xu@ =~= unsigned_part(x@));
    if xu.len() == 0 || !all_digits_exec(xu.as_slice()) {
        return None;
    }
    let c = capped_digits(xu.as_slice());
    if xneg {
        Some(0 - c as i128)
    } else {
        Some(c as i128)
    }
}

/// The digits of a mantissa without its point, and how many follow the
/// point; `None` when it is not digits with an optional point and one digit
/// at least.
fn mantissa_exec(mv: &[char]) -> (r: Option<(Vec<char>, usize)>)
    ensures
        r is Some <==> (all_digits(int_part(mv@)) && all_digits(frac_part(mv@)) && int_part(mv@).len()
            + frac_part(mv@).len() >= 1),
        r matches Some((ds, f)) ==> ds@ == int_part(mv@) + frac_part(mv@) && f == frac_part(mv@).len()
            && all_digits(ds@),
{
    let dot = find_char(mv, '.', 0);
    assert(mv@.subrange(0, mv@.len() as int) =~= mv@);
    proof {
        lemma_index_of_props(mv@, '.');
    }
    let ip = slice_chars(mv, 0, dot);
    let fp = if dot < mv.len() {
        slice_chars(mv, dot + 1, mv.len())
    } else {
        Vec::new()
    };
    assert(ip@ =~= int_part(mv@));
    assert(fp@ =~= frac_part(mv@));
    if !all_digits_exec(ip.as_slice()) || !all_digits_exec(fp.as_slice()) || ip.len() + fp.len() == 0 {
        return None;
    }
    let f = fp.len();
    let mut ds = ip;
    let ghost ipv = ds@;
    push_all(&mut ds, fp.as_slice());
    assert(all_digits(ds@)) by {
        assert forall|j: int| 0 <= j < ds@.len() implies is_digit(#[trigger] ds@[j]) by {
            if j < ipv.len() {
                assert(ds@[j] == ipv[j]);
            } else {
                assert(ds@[j] == fp@[j - ipv.len()]);
            }
        }
    }
    Some((ds, f))
}

/// Reads `v` as `str::parse::<f64>` reads it, scaled by `10^k` and rounded,
/// see [`read_scaled`].
pub fn read_scaled_exec(v: &[char], k: u32, lim: u128) -> (r: ScaledRead)
    requires
        k <= 6,
        lim < 0x1_0000_0000_0000_0000_0000_0000,
    ensures
        r == read_scaled(v@, k as nat, lim as nat),
{
    let n = v.len();
    if n >= MAX_FLOAT_TEXT {
        return ScaledRead::Bad;
    }
    let start: usize = if n > 0 && (v[0] == '+' || v[0] == '-') {
        1
    } else {
        0
    };
    let neg = n > 0 && v[0] == '-';
    let ghost b = unsigned_part(v@);
    assert(b =~= v@.subrange(start as int, n as int));
    if ci_eq_exec(v, start, "nan") {
        return ScaledRead::NotANumber;
    }
    if ci_eq_exec(v, start, "inf") || ci_eq_exec(v, start, "infinity") {
        return ScaledRead::Over(neg);
    }
    let ei = find_e(v, start);
    proof {
        lemma_e_index_props(b);
    }
    let mv = slice_chars(v, start, ei);
    assert(mv@ =~= mantissa(b));
    let (ds, f) = match mantissa_exec(mv.as_slice()) {
        Some(x) => x,
        None => {
            return ScaledRead::Bad;
        },
    };
    let e: i128 = if ei < n {
        let xv = slice_chars(v, ei + 1, n);
        assert(xv@ =~= exponent_text(b));
        match exponent_exec(xv.as_slice()) {
            Some(x) => x,
            None => {
                return ScaledRead::Bad;
            },
        }
    } else {
        0
    };
    assert(float_ok(v@));
    let ghost ev = exponent_value(b);
    let sh: i128 = e - f as i128 + k as i128;
    let ghost sh_true = ev - f + k;
    proof {
        lemma_index_of_props(mv@, '.');
        assert(int_part(mv@).len() + frac_part(mv@).len() <= mv@.len());
    }
    assert(ds@.len() < MAX_FLOAT_TEXT);
    let mag = scale_round(ds.as_slice(), sh, lim);
    proof {
        if e == EXP_CAP {
            lemma_scaled_big(ds@, sh as int, sh_true);
        } else if e == -(EXP_CAP as int) {
            lemma_scaled_tiny(ds@, sh as int);
            lemma_scaled_tiny(ds@, sh_true);
        } else {
            assert(e == ev);
        }
        assert(finite_scaled(v@, k as int) == scaled_mag(ds@, sh_true));
    }
    match mag {
        None => ScaledRead::Over(neg),
        Some(x) => {
            if neg {
                ScaledRead::Val(0 - x as i128)
            } else {
                ScaledRead::Val(x as i128)
            }
        },
    }
}

/// A value read is within the limit on either side.
pub proof fn lemma_read_scaled_bound(s: Seq<char>, k: nat, lim: nat)
    requires
        lim < 0x1_0000_0000_0000_0000_0000_0000,
    ensures
        read_scaled(s, k, lim) matches ScaledRead::Val(x) ==> -(lim as int) <= x <= lim,
{
    let b = unsigned_part(s);
    if float_ok(s) && !is_nan_text(b) && !is_inf_text(b) {
        let m = mantissa(b);
        let ds = int_part(m) + frac_part(m);
        let sh = exponent_value(b) - frac_part(m).len() + k;
        if sh < 0 {
            let n = digits_value(ds) as int;
            let d = pow10((-sh) as nat) as int;
            lemma_pow10_pos((-sh) as nat);
            assert(n <= n * d) by (nonlinear_arith)
                requires n >= 0, d >= 1;
            crate::num::lemma_round_half_even_between(n, d, 0, n);
        }
        assert(finite_scaled(s, k as int) >= 0);
    }
}

} // verus!
