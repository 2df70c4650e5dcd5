//! Decimal rendering and parsing of integers, the decimal numbers that
//! style fields hold, and rounding of fractions.
use vstd::prelude::*;
use crate::text::push_all;

verus! {

// ------------------------------------------------------------------ digits

/// Whether `c` is an ASCII decimal digit.
pub open spec fn is_digit(c: char) -> bool {
    48 <= (c as u32) <= 57
}

/// The value of the ASCII digit `c`.
pub open spec fn digit_val(c: char) -> int {
    (c as u32) - 48
}

/// The ASCII digit for `d` in `0..10`.
pub open spec fn digit_char(d: int) -> char {
    (48 + d) as char
}

/// The hexadecimal digit for `d` in `0..16`, upper or lower case.
pub open spec fn hex_char(d: int, upper: bool) -> char {
    if d < 10 {
        (48 + d) as char
    } else if upper {
        (55 + d) as char
    } else {
        (87 + d) as char
    }
}

/// `10^k`.
pub open spec fn pow10(k: nat) -> nat
    decreases k,
{
    if k == 0 {
        1
    } else {
        10 * pow10((k - 1) as nat)
    }
}

pub proof fn lemma_pow10_pos(k: nat)
    ensures
        pow10(k) >= 1,
    decreases k,
{
    if k > 0 {
        lemma_pow10_pos((k - 1) as nat);
    }
}

/// Decimal digits of `n`, as `Display` for unsigned integers.
pub open spec fn nat_str(n: nat) -> Seq<char>
    decreases n,
{
    if n < 10 {
        seq![digit_char(n as int)]
    } else {
        nat_str(n / 10).push(digit_char((n % 10) as int))
    }
}

/// Decimal rendering of `i`, with a leading `-` when negative.
pub open spec fn int_str(i: int) -> Seq<char> {
    if i < 0 {
        seq!['-'] + nat_str((-i) as nat)
    } else {
        nat_str(i as nat)
    }
}

/// Hexadecimal digits of `n`, as `{:x}` or `{:X}`.
pub open spec fn hex_str(n: nat, upper: bool) -> Seq<char>
    decreases n,
{
    if n < 16 {
        seq![hex_char(n as int, upper)]
    } else {
        hex_str(n / 16, upper).push(hex_char((n % 16) as int, upper))
    }
}

/// `s` padded on the left with `'0'` to at least `w` characters, as `{:0w}`.
pub open spec fn pad_zeros(s: Seq<char>, w: nat) -> Seq<char> {
    if s.len() >= w {
        s
    } else {
        Seq::new((w - s.len()) as nat, |i: int| '0') + s
    }
}

fn digit_of(d: u64) -> (c: char)
    requires
        d < 10,
    ensures
        c == digit_char(d as int),
{
    let b: u8 = 48u8 + d as u8;
    b as char
}

fn hex_digit_of(d: u64, upper: bool) -> (c: char)
    requires
        d < 16,
    ensures
        c == hex_char(d as int, upper),
{
    let b: u8 = if d < 10 {
        48u8 + d as u8
    } else if upper {
        55u8 + d as u8
    } else {
        87u8 + d as u8
    };
    b as char
}

/// Decimal digits of `n`.
pub fn fmt_u64(n: u64) -> (r: Vec<char>)
    ensures
        r@ == nat_str(n as nat),
    decreases n,
{
    if n < 10 {
        let mut r = Vec::new();
        r.push(digit_of(n));
        assert(r@ =~= seq![digit_char(n as int)]);
        r
    } else {
        let mut r = fmt_u64(n / 10);
        r.push(digit_of(n % 10));
        r
    }
}

/// Decimal rendering of `i`.
pub fn fmt_i64(i: i64) -> (r: Vec<char>)
    ensures
        r@ == int_str(i as int),
{
    if i < 0 {
        let m: u64 = (0i128 - i as i128) as u64;
        let d = fmt_u64(m);
        let mut r = Vec::new();
        r.push('-');
        push_all(&mut r, d.as_slice());
        assert(r@ =~= seq!['-'] + nat_str((-i) as nat));
        r
    } else {
        fmt_u64(i as u64)
    }
}

/// Hexadecimal digits of `n`.
pub fn fmt_hex(n: u128, upper: bool) -> (r: Vec<char>)
    ensures
        r@ == hex_str(n as nat, upper),
    decreases n,
{
    if n < 16 {
        let mut r = Vec::new();
        r.push(hex_digit_of(n as u64, upper));
        assert(r@ =~= seq![hex_char(n as int, upper)]);
        r
    } else {
        let mut r = fmt_hex(n / 16, upper);
        r.push(hex_digit_of((n % 16) as u64, upper));
        r
    }
}

/// `v` padded on the left with `'0'` to at least `w` characters.
pub fn pad_zeros_exec(v: &[char], w: usize) -> (r: Vec<char>)
    ensures
        r@ == pad_zeros(v@, w as nat),
{
    let mut r: Vec<char> = Vec::new();
    if v.len() < w {
        let k = w - v.len();
        let mut i: usize = 0;
        while i < k
            invariant
                i <= k,
                r@ == Seq::new(i as nat, |j: int| '0'),
            decreases k - i,
        {
            r.push('0');
            assert(r@ =~= Seq::new((i + 1) as nat, |j: int| '0'));
            i += 1;
        }
    }
    push_all(&mut r, v);
    assert(r@ =~= pad_zeros(v@, w as nat));
    r
}

// ------------------------------------------------------------------ integer parsing

/// Whether every character of `s` is an ASCII digit.
pub open spec fn all_digits(s: Seq<char>) -> bool {
    forall|i: int| 0 <= i < s.len() ==> is_digit(#[trigger] s[i])
}

/// The value of a run of ASCII digits.
pub open spec fn digits_value(s: Seq<char>) -> nat
    decreases s.len(),
{
    if s.len() == 0 {
        0
    } else {
        digits_value(s.drop_last()) * 10 + (digit_val(s.last()) as nat)
    }
}

/// `s` without a leading `+` or `-`.
pub open spec fn unsigned_part(s: Seq<char>) -> Seq<char> {
    if s.len() > 0 && (s[0] == '+' || s[0] == '-') {
        s.drop_first()
    } else {
        s
    }
}

/// Whether `s` starts with `-`.
pub open spec fn is_negative(s: Seq<char>) -> bool {
    s.len() > 0 && s[0] == '-'
}

/// The result of `str::parse::<i64>`: an optional sign and one or more ASCII
/// digits whose value fits in `i64`.
pub open spec fn parse_int(s: Seq<char>) -> Option<int> {
    let body = unsigned_part(s);
    if body.len() == 0 || !all_digits(body) {
        None
    } else {
        let v = if is_negative(s) {
            -(digits_value(body) as int)
        } else {
            digits_value(body) as int
        };
        if i64::MIN <= v <= i64::MAX {
            Some(v)
        } else {
            None
        }
    }
}

pub proof fn lemma_digits_value_mono(s: Seq<char>, i: int)
    requires
        0 <= i <= s.len(),
    ensures
        digits_value(s.take(i)) <= digits_value(s),
    decreases s.len() - i,
{
    if i < s.len() {
        lemma_digits_value_mono(s, i + 1);
        assert(s.take(i + 1).drop_last() =~= s.take(i));
    } else {
        assert(s.take(i) =~= s);
    }
}

/// `str::parse::<i64>` on a character vector.
pub fn parse_i64(v: &[char]) -> (r: Option<i64>)
    ensures
        r matches Some(x) ==> parse_int(v@) == Some(x as int),
        r is None ==> parse_int(v@) is None,
{
    let n = v.len();
    let mut start: usize = 0;
    let neg = n > 0 && v[0] == '-';
    if n > 0 && (v[0] == '+' || v[0] == '-') {
        start = 1;
    }
    let ghost body = unsigned_part(v@);
    assert(body =~= v@.subrange(start as int, n as int));
    if start == n {
        return None;
    }
    let limit: u128 = 9223372036854775808;
    let mut acc: u128 = 0;
    let mut big = false;
    let mut i = start;
    while i < n
        invariant
            start <= i <= n == v@.len(),
            body == v@.subrange(start as int, n as int),
            body == unsigned_part(v@),
            forall|j: int| start <= j < i ==> is_digit(#[trigger] v@[j]),
            !big ==> acc == digits_value(body.take(i - start)),
            !big ==> acc <= limit,
            big ==> digits_value(body.take(i - start)) > limit,
            limit == 9223372036854775808,
        decreases n - i,
    {
        let c = v[i];
        assert(body[i - start] == v@[i as int]);
        if !((c as u32) >= 48 && (c as u32) <= 57) {
            assert(!is_digit(body[i - start]));
            assert(!all_digits(body));
            return None;
        }
        let d = (c as u32 - 48) as u128;
        proof {
            assert(body.take(i + 1 - start).drop_last() =~= body.take(i - start));
            assert(body.take(i + 1 - start).last() == v@[i as int]);
        }
        if !big {
            let nacc = acc * 10 + d;
            if nacc > limit {
                big = true;
            } else {
                acc = nacc;
            }
        }
        i += 1;
    }
    proof {
        assert(body.take(n - start) =~= body);
        assert forall|j: int| 0 <= j < body.len() implies is_digit(#[trigger] body[j]) by {
            assert(body[j] == v@[j + start]);
        }
    }
    if big {
        return None;
    }
    if neg {
        Some((0i128 - acc as i128) as i64)
    } else {
        if acc > 9223372036854775807 {
            return None;
        }
        Some(acc as i64)
    }
}

// ------------------------------------------------------------------ decimals

/// A decimal number `num / 10^scale`, as the numeric style fields hold them.
#[derive(Clone, Copy, Debug, PartialEq, Eq)]
pub struct Dec {
    pub num: i64,
    pub scale: u32,
}

impl Dec {
    /// Whether the number is within the bounds that parsing yields.
    pub open spec fn wf(self) -> bool {
        self.scale <= 6 && -1_000_000_000_000_000 < self.num < 1_000_000_000_000_000
    }

    /// The denominator `10^scale`.
    pub open spec fn den(self) -> int {
        pow10(self.scale as nat) as int
    }
}

/// The decimal read from `s` (already trimmed) as `str::parse::<f64>`
/// reads a number, see [`crate::float::read_scaled`]: its exact value
/// rounded to millionths (halves to even). A NaN, an infinity and values
/// from `10^9` on in magnitude are beyond what a `Dec` holds and give
/// `None`, as does a text that is no number.
pub open spec fn parse_dec(s: Seq<char>) -> Option<Dec> {
    match crate::float::read_scaled(s, 6, 999_999_999_999_999) {
        crate::float::ScaledRead::Val(x) => Some(Dec { num: x as i64, scale: 6 }),
        _ => None,
    }
}

pub proof fn lemma_digits_value_bound(s: Seq<char>)
    requires
        all_digits(s),
    ensures
        digits_value(s) < pow10(s.len()),
    decreases s.len(),
{
    if s.len() > 0 {
        let t = s.drop_last();
        assert(all_digits(t)) by {
            assert forall|i: int| 0 <= i < t.len() implies is_digit(#[trigger] t[i]) by {
                assert(t[i] == s[i]);
            }
        }
        lemma_digits_value_bound(t);
        assert(is_digit(s[s.len() - 1]));
    }
}

pub proof fn lemma_pow10_mono(a: nat, b: nat)
    requires
        a <= b,
    ensures
        pow10(a) <= pow10(b),
    decreases b - a,
{
    if a < b {
        lemma_pow10_mono(a, (b - 1) as nat);
        lemma_pow10_pos((b - 1) as nat);
    }
}

pub proof fn lemma_pow10_values()
    ensures
        pow10(0) == 1,
        pow10(1) == 10,
        pow10(2) == 100,
        pow10(3) == 1000,
        pow10(4) == 10000,
        pow10(5) == 100000,
        pow10(6) == 1000000,
        pow10(7) == 10000000,
        pow10(8) == 100000000,
        pow10(9) == 1000000000,
{
    reveal_with_fuel(pow10, 10);
}

/// `10^k` for `k <= 9`.
pub fn pow10_exec(k: u32) -> (r: u64)
    requires
        k <= 9,
    ensures
        r == pow10(k as nat),
{
    proof {
        lemma_pow10_values();
    }
    let mut r: u64 = 1;
    let mut i: u32 = 0;
    while i < k
        invariant
            i <= k <= 9,
            r == pow10(i as nat),
            r <= 1_000_000_000,
        decreases k - i,
    {
        assert(pow10((i + 1) as nat) == 10 * pow10(i as nat));
        proof {
            lemma_pow10_values();
        }
        assert(r <= 100_000_000) by {
            if i == 0 {} else if i == 1 {} else if i == 2 {} else if i == 3 {} else if i == 4 {}
            else if i == 5 {} else if i == 6 {} else if i == 7 {} else if i == 8 {}
        }
        r = r * 10;
        i += 1;
    }
    r
}

/// The decimal read from the (already trimmed) characters `v`, see [`parse_dec`].
pub fn parse_dec_exec(v: &[char]) -> (r: Option<Dec>)
    ensures
        r == parse_dec(v@),
        r matches Some(d) ==> d.wf(),
{
    proof {
        crate::float::lemma_read_scaled_bound(v@, 6, 999_999_999_999_999);
    }
    match crate::float::read_scaled_exec(v, 6, 999_999_999_999_999) {
        crate::float::ScaledRead::Val(x) => Some(Dec { num: x as i64, scale: 6 }),
        _ => None,
    }
}

// ------------------------------------------------------------------ rounding

/// `n / d` rounded to the nearest integer, halves away from zero, as `f64::round`.
pub open spec fn round_half_away(n: int, d: int) -> int
    recommends
        d > 0,
{
    if n >= 0 {
        (2 * n + d) / (2 * d)
    } else {
        -((2 * (-n) + d) / (2 * d))
    }
}

/// `n / d` rounded to the nearest integer, halves to the even neighbour.
pub open spec fn round_half_even(n: int, d: int) -> int
    recommends
        d > 0,
{
    let q = n / d;
    let r = n % d;
    if 2 * r < d {
        q
    } else if 2 * r > d {
        q + 1
    } else if q % 2 == 0 {
        q
    } else {
        q + 1
    }
}

/// `n / d` truncated toward zero, as `f64 as i64` for values in range.
pub open spec fn trunc_div(n: int, d: int) -> int
    recommends
        d > 0,
{
    if n >= 0 {
        n / d
    } else {
        -((-n) / d)
    }
}

/// Executable [`round_half_away`].
pub fn round_half_away_exec(n: i128, d: i128) -> (r: i128)
    requires
        d > 0,
        -0x1000_0000_0000_0000_0000_0000_0000 < n < 0x1000_0000_0000_0000_0000_0000_0000,
        d < 0x1000_0000_0000_0000_0000_0000_0000,
    ensures
        r == round_half_away(n as int, d as int),
{
    if n >= 0 {
        (2 * n + d) / (2 * d)
    } else {
        0 - ((2 * (0 - n) + d) / (2 * d))
    }
}

/// Executable [`round_half_even`].
pub fn round_half_even_exec(n: i128, d: i128) -> (r: i128)
    requires
        d > 0,
        -0x1000_0000_0000_0000_0000_0000_0000 < n < 0x1000_0000_0000_0000_0000_0000_0000,
        d < 0x1000_0000_0000_0000_0000_0000_0000,
    ensures
        r == round_half_even(n as int, d as int),
{
    // Euclidean quotient and remainder
    let q: i128;
    let r: i128;
    if n >= 0 {
        q = n / d;
        r = n % d;
        proof {
            vstd::arithmetic::div_mod::lemma_fundamental_div_mod(n as int, d as int);
            vstd::arithmetic::div_mod::lemma_mod_pos_bound(n as int, d as int);
            assert(n == q * d + r) by (nonlinear_arith)
                requires n == d * q + r;
        }
    } else {
        let m: i128 = 0 - n;
        let q0 = m / d;
        let r0 = m % d;
        proof {
            vstd::arithmetic::div_mod::lemma_fundamental_div_mod(m as int, d as int);
            vstd::arithmetic::div_mod::lemma_mod_pos_bound(m as int, d as int);
            assert(q0 >= 0) by (nonlinear_arith)
                requires m == d * q0 + r0, d > 0, 0 <= r0 < d, m > 0;
            assert(q0 <= m) by (nonlinear_arith)
                requires m == d * q0 + r0, d > 0, 0 <= r0, q0 >= 0;
        }
        if r0 == 0 {
            q = 0 - q0;
            r = 0;
        } else {
            q = 0 - q0 - 1;
            r = d - r0;
        }
        assert(n == q * d + r) by (nonlinear_arith)
            requires
                m == d * q0 + r0, n == 0 - m,
                r0 == 0 ==> (q == 0 - q0 && r == 0),
                r0 != 0 ==> (q == 0 - q0 - 1 && r == d - r0);
    }
    proof {
        vstd::arithmetic::div_mod::lemma_fundamental_div_mod_converse(n as int, d as int, q as int, r as int);
    }
    if 2 * r < d {
        q
    } else if 2 * r > d {
        q + 1
    } else if q % 2 == 0 {
        q
    } else {
        q + 1
    }
}

/// Executable [`trunc_div`].
pub fn trunc_div_exec(n: i64, d: i64) -> (r: i64)
    requires
        d > 0,
    ensures
        r == trunc_div(n as int, d as int),
{
    if n >= 0 {
        n / d
    } else {
        let m = (0i128 - n as i128) / d as i128;
        (0 - m) as i64
    }
}


pub proof fn lemma_round_half_even_between(n: int, d: int, lo: int, hi: int)
    requires
        d > 0,
        lo * d <= n <= hi * d,
    ensures
        lo <= round_half_even(n, d) <= hi,
{
    let q = n / d;
    let r = n % d;
    vstd::arithmetic::div_mod::lemma_fundamental_div_mod(n, d);
    vstd::arithmetic::div_mod::lemma_mod_bound(n, d);
    assert(lo <= q) by (nonlinear_arith)
        requires lo * d <= n, n == d * q + r, 0 <= r < d, d > 0;
    assert(q <= hi) by (nonlinear_arith)
        requires n <= hi * d, n == d * q + r, 0 <= r < d, d > 0;
    assert(r > 0 ==> q < hi) by (nonlinear_arith)
        requires n <= hi * d, n == d * q + r, 0 <= r < d, d > 0;
}

/// `round_half_even(base * d + x, d)`, computed without forming `base * d`.
pub fn round_half_even_shift(base: i64, x: i128, d: i128) -> (r: i128)
    requires
        d > 0,
        d < 0x4000_0000_0000_0000_0000_0000_0000_0000,
        -0x4000_0000_0000_0000_0000_0000_0000_0000 < x < 0x4000_0000_0000_0000_0000_0000_0000_0000,
    ensures
        r == round_half_even(base * d + x, d as int),
{
    let q0: i128;
    let r0: i128;
    if x >= 0 {
        q0 = x / d;
        r0 = x % d;
        proof {
            vstd::arithmetic::div_mod::lemma_fundamental_div_mod(x as int, d as int);
            vstd::arithmetic::div_mod::lemma_mod_pos_bound(x as int, d as int);
            assert(x == q0 * d + r0) by (nonlinear_arith)
                requires x == d * q0 + r0;
            assert(q0 <= x) by (nonlinear_arith)
                requires x == d * q0 + r0, d > 0, 0 <= r0, x >= 0;
        }
    } else {
        let m: i128 = 0 - x;
        let qm = m / d;
        let rm = m % d;
        proof {
            vstd::arithmetic::div_mod::lemma_fundamental_div_mod(m as int, d as int);
            vstd::arithmetic::div_mod::lemma_mod_pos_bound(m as int, d as int);
            assert(0 <= qm <= m) by (nonlinear_arith)
                requires m == d * qm + rm, d > 0, 0 <= rm < d, m > 0;
        }
        if rm == 0 {
            q0 = 0 - qm;
            r0 = 0;
        } else {
            q0 = 0 - qm - 1;
            r0 = d - rm;
        }
        assert(x == q0 * d + r0) by (nonlinear_arith)
            requires
                m == d * qm + rm, x == 0 - m,
                rm == 0 ==> (q0 == 0 - qm && r0 == 0),
                rm != 0 ==> (q0 == 0 - qm - 1 && r0 == d - rm);
    }
    let q: i128 = base as i128 + q0;
    proof {
        assert(base * d + x == q * d + r0) by (nonlinear_arith)
            requires x == q0 * d + r0, q == base + q0;
        vstd::arithmetic::div_mod::lemma_fundamental_div_mod_converse(
            base * d + x, d as int, q as int, r0 as int);
    }
    if 2 * r0 < d {
        q
    } else if 2 * r0 > d {
        q + 1
    } else if q % 2 == 0 {
        q
    } else {
        q + 1
    }
}


// ------------------------------------------------------------------ decimal rendering

/// `s` without trailing `'0'` characters.
pub open spec fn trim_zeros(s: Seq<char>) -> Seq<char>
    decreases s.len(),
{
    if s.len() > 0 && s.last() == '0' {
        trim_zeros(s.drop_last())
    } else {
        s
    }
}

fn trim_zeros_exec(v: &[char]) -> (r: Vec<char>)
    ensures
        r@ == trim_zeros(v@),
{
    let mut k = v.len();
    assert(v@.take(k as int) =~= v@);
    while k > 0 && v[k - 1] == '0'
        invariant
            k <= v@.len(),
            trim_zeros(v@) == trim_zeros(v@.take(k as int)),
        decreases k,
    {
        assert(v@.take(k as int).drop_last() =~= v@.take(k - 1));
        k -= 1;
    }
    assert(trim_zeros(v@.take(k as int)) == v@.take(k as int));
    slice_chars_num(v, k)
}

fn slice_chars_num(v: &[char], k: usize) -> (r: Vec<char>)
    requires
        k <= v@.len(),
    ensures
        r@ == v@.take(k as int),
{
    let mut r: Vec<char> = Vec::new();
    let mut i: usize = 0;
    while i < k
        invariant
            i <= k <= v@.len(),
            r@ == v@.take(i as int),
        decreases k - i,
    {
        r.push(v[i]);
        assert(v@.take(i + 1) =~= v@.take(i as int).push(v@[i as int]));
        i += 1;
    }
    r
}

/// The magnitude `|num|` of a decimal.
pub open spec fn dec_mag(d: Dec) -> nat {
    if d.num < 0 {
        (-d.num) as nat
    } else {
        d.num as nat
    }
}

/// The fraction digits of `d`: `scale` digits, trailing zeros dropped.
pub open spec fn frac_digits(d: Dec) -> Seq<char> {
    trim_zeros(pad_zeros(nat_str(dec_mag(d) % pow10(d.scale as nat)), d.scale as nat))
}

/// The six significant digits of a positive magnitude `m`, rounded halves
/// to even when it has more; `10^6` when rounding carries into a seventh.
pub open spec fn g_sig_raw(m: nat) -> nat {
    let dn = nat_str(m).len();
    if dn <= 6 {
        m * pow10((6 - dn) as nat)
    } else {
        round_half_even(m as int, pow10((dn - 6) as nat) as int) as nat
    }
}

/// The six significant digits `100000..=999999` of a positive magnitude.
pub open spec fn g_sig(m: nat) -> nat {
    if g_sig_raw(m) == 1_000_000 {
        100_000
    } else {
        g_sig_raw(m)
    }
}

/// The decimal exponent of `d` after rounding to six significant digits:
/// the value is `g_sig * 10^(exp - 5)`.
pub open spec fn g_exp(d: Dec) -> int {
    let e0 = nat_str(dec_mag(d)).len() - 1 - d.scale;
    if g_sig_raw(dec_mag(d)) == 1_000_000 {
        e0 + 1
    } else {
        e0
    }
}

/// A decimal as Python's `{:g}` formats a number: rounded to six
/// significant digits (halves to even, on the exact decimal); for an
/// exponent from -4 to 5 the plain digits, else one digit, the others after
/// a point, `e`, the exponent's sign and at least two exponent digits;
/// trailing fraction zeros and a bare point dropped (`16`, `16.5`,
/// `1234.57`, `1.23457e+06`, `1e-05`).
#[verifier::opaque]
pub open spec fn fmt_g_spec(d: Dec) -> Seq<char> {
    let m = dec_mag(d);
    let sign = if d.num < 0 {
        seq!['-']
    } else {
        seq![]
    };
    if m == 0 {
        seq!['0']
    } else if -4 <= g_exp(d) < 6 {
        sign + g_fixed(g_sig(m), g_exp(d))
    } else {
        sign + g_sci(g_sig(m), g_exp(d))
    }
}

/// The significand `s` (six digits) with exponent `e` from -4 to 5 in plain
/// digits: `5 - e` decimals, trailing zeros and a bare point dropped.
pub open spec fn g_fixed(s: nat, e: int) -> Seq<char> {
    let p = pow10((5 - e) as nat);
    let fr = trim_zeros(pad_zeros(nat_str(s % p), (5 - e) as nat));
    nat_str(s / p) + (if fr.len() > 0 {
        seq!['.'] + fr
    } else {
        seq![]
    })
}

/// The significand `s` (six digits) with exponent `e` in exponent form:
/// one digit, the others after a point (trailing zeros and a bare point
/// dropped), `e`, the sign, at least two digits.
pub open spec fn g_sci(s: nat, e: int) -> Seq<char> {
    let ds = nat_str(s);
    let rest = trim_zeros(ds.drop_first());
    seq![ds[0]] + (if rest.len() > 0 {
        seq!['.'] + rest
    } else {
        seq![]
    }) + seq!['e'] + (if e < 0 {
        seq!['-']
    } else {
        seq!['+']
    }) + pad_zeros(nat_str((if e < 0 { -e } else { e }) as nat), 2)
}

/// A decimal rendered as Python's `str` renders a float: at least one
/// fraction digit (`4.0`), and exponent form with at least two exponent
/// digits below `1e-4` (`1.5e-05`).
pub open spec fn py_float_spec(d: Dec) -> Seq<char> {
    let den = pow10(d.scale as nat);
    let m = dec_mag(d);
    let sign = if d.num < 0 {
        seq!['-']
    } else {
        seq![]
    };
    if m == 0 {
        sign + seq!['0', '.', '0']
    } else if m * 10000 < den {
        let ds = nat_str(m);
        let rest = trim_zeros(ds.drop_first());
        sign + seq![ds[0]] + (if rest.len() > 0 {
            seq!['.'] + rest
        } else {
            seq![]
        }) + seq!['e', '-'] + pad_zeros(nat_str((d.scale - (ds.len() - 1)) as nat), 2)
    } else if m % den == 0 {
        sign + nat_str(m / den) + seq!['.', '0']
    } else {
        sign + nat_str(m / den) + seq!['.'] + frac_digits(d)
    }
}

fn frac_digits_exec(d: Dec, mag: u64, den: u64) -> (r: Vec<char>)
    requires
        d.wf(),
        mag == dec_mag(d),
        den == pow10(d.scale as nat),
        den > 0,
    ensures
        r@ == frac_digits(d),
{
    let f = fmt_u64(mag % den);
    let p = pad_zeros_exec(f.as_slice(), d.scale as usize);
    trim_zeros_exec(p.as_slice())
}

/// The six significant digits and the exponent of a non-zero `d`, see
/// [`g_sig`] and [`g_exp`].
fn g_parts(d: Dec, mag: u64) -> (r: (u64, i64))
    requires
        d.wf(),
        mag == dec_mag(d),
        mag > 0,
    ensures
        r.0 == g_sig(mag as nat),
        r.1 == g_exp(d),
        -30 <= r.1 <= 30,
{
    let digs = fmt_u64(mag);
    let dn = digs.len();
    proof {
        lemma_nat_str_len(mag as nat);
        lemma_pow10_values();
        if dn > 15 {
            lemma_pow10_mono(15, (dn - 1) as nat);
            lemma_pow10_add(6, 9);
            assert(false);
        }
    }
    let sig_raw: u64 = if dn <= 6 {
        let p = pow10_exec((6 - dn) as u32);
        proof {
            lemma_pow10_add(dn as nat, (6 - dn) as nat);
            let a = pow10(dn as nat);
            assert(pow10(dn as nat) == pow10((dn - 1) as nat) * 10);
            assert(mag * p <= a * p) by (nonlinear_arith)
                requires mag < a, p >= 0;
        }
        mag * p
    } else {
        let p = pow10_exec((dn - 6) as u32);
        proof {
            lemma_pow10_pos((dn - 6) as nat);
            assert(mag <= mag * p) by (nonlinear_arith)
                requires p >= 1;
            lemma_round_half_even_between(mag as int, p as int, 0, mag as int);
        }
        round_half_even_exec(mag as i128, p as i128) as u64
    };
    let e0: i64 = dn as i64 - 1 - d.scale as i64;
    if sig_raw == 1_000_000 {
        (100_000, e0 + 1)
    } else {
        (sig_raw, e0)
    }
}

/// Appends [`g_fixed`] of `s` and `e`.
fn push_g_fixed(r: &mut Vec<char>, s: u64, e: i64)
    requires
        -4 <= e < 6,
    ensures
        final(r)@ == old(r)@ + g_fixed(s as nat, e as int),
{
    let dec = (5 - e) as u32;
    let p = pow10_exec(dec);
    proof {
        lemma_pow10_pos(dec as nat);
    }
    let ip = fmt_u64(s / p);
    push_all(r, ip.as_slice());
    let f = fmt_u64(s % p);
    let pz = pad_zeros_exec(f.as_slice(), dec as usize);
    let fr = trim_zeros_exec(pz.as_slice());
    if fr.len() > 0 {
        r.push('.');
        push_all(r, fr.as_slice());
    }
    assert(r@ =~= old(r)@ + g_fixed(s as nat, e as int));
}

/// Appends [`g_sci`] of `s` and `e`.
fn push_g_sci(r: &mut Vec<char>, s: u64, e: i64)
    requires
        -30 <= e <= 30,
    ensures
        final(r)@ == old(r)@ + g_sci(s as nat, e as int),
{
    let ds = fmt_u64(s);
    proof {
        lemma_nat_str_len(s as nat);
    }
    r.push(ds[0]);
    let tail = slice_chars_from(ds.as_slice(), 1);
    assert(tail@ =~= ds@.drop_first());
    let rest = trim_zeros_exec(tail.as_slice());
    if rest.len() > 0 {
        r.push('.');
        push_all(r, rest.as_slice());
    }
    r.push('e');
    if e < 0 {
        r.push('-');
    } else {
        r.push('+');
    }
    let ae: u64 = if e < 0 {
        (0 - e) as u64
    } else {
        e as u64
    };
    let a = fmt_u64(ae);
    let pa = pad_zeros_exec(a.as_slice(), 2);
    push_all(r, pa.as_slice());
    assert(r@ =~= old(r)@ + g_sci(s as nat, e as int));
}

/// Renders `d` as [`fmt_g_spec`] says.
pub fn fmt_g(d: Dec) -> (r: Vec<char>)
    requires
        d.wf(),
    ensures
        r@ == fmt_g_spec(d),
{
    reveal(fmt_g_spec);
    let mag: u64 = if d.num < 0 {
        (0i128 - d.num as i128) as u64
    } else {
        d.num as u64
    };
    let mut r: Vec<char> = Vec::new();
    if mag == 0 {
        r.push('0');
        assert(r@ =~= seq!['0']);
        return r;
    }
    let (sig, e) = g_parts(d, mag);
    if d.num < 0 {
        r.push('-');
    }
    if -4 <= e && e < 6 {
        push_g_fixed(&mut r, sig, e);
    } else {
        push_g_sci(&mut r, sig, e);
    }
    r
}

fn slice_chars_from(v: &[char], lo: usize) -> (r: Vec<char>)
    requires
        lo <= v@.len(),
    ensures
        r@ == v@.subrange(lo as int, v@.len() as int),
{
    let mut r: Vec<char> = Vec::new();
    let mut i = lo;
    while i < v.len()
        invariant
            lo <= i <= v@.len(),
            r@ == v@.subrange(lo as int, i as int),
        decreases v.len() - i,
    {
        r.push(v[i]);
        assert(v@.subrange(lo as int, i + 1) =~= v@.subrange(lo as int, i as int).push(v@[i as int]));
        i += 1;
    }
    r
}

/// Renders `d` as [`py_float_spec`] says.
pub fn py_float(d: Dec) -> (r: Vec<char>)
    requires
        d.wf(),
    ensures
        r@ == py_float_spec(d),
{
    let den = pow10_exec(d.scale);
    proof {
        lemma_pow10_pos(d.scale as nat);
        lemma_pow10_values();
        assert(den <= 1_000_000) by {
            let sc = d.scale;
            if sc == 0 {} else if sc == 1 {} else if sc == 2 {} else if sc == 3 {} else if sc == 4 {}
            else if sc == 5 {}
        }
    }
    let mag: u64 = if d.num < 0 {
        (0i128 - d.num as i128) as u64
    } else {
        d.num as u64
    };
    let mut r: Vec<char> = Vec::new();
    if d.num < 0 {
        r.push('-');
    }
    let ghost sign = r@;
    if mag == 0 {
        r.push('0');
        r.push('.');
        r.push('0');
        assert(r@ =~= py_float_spec(d));
    } else if mag * 10000 < den {
        let ds = fmt_u64(mag);
        let rest_all = slice_tail(ds.as_slice());
        let rest = trim_zeros_exec(rest_all.as_slice());
        assert(ds@.len() > 0) by {
            lemma_nat_str_len(mag as nat);
        }
        r.push(ds[0]);
        if rest.len() > 0 {
            r.push('.');
            push_all(&mut r, rest.as_slice());
        }
        r.push('e');
        r.push('-');
        proof {
            lemma_nat_str_digits(mag as nat, den as nat, d.scale as nat);
        }
        let e = fmt_u64((d.scale as usize - (ds.len() - 1)) as u64);
        let pe = pad_zeros_exec(e.as_slice(), 2);
        push_all(&mut r, pe.as_slice());
        assert(r@ =~= py_float_spec(d));
    } else if mag % den == 0 {
        let ip = fmt_u64(mag / den);
        push_all(&mut r, ip.as_slice());
        r.push('.');
        r.push('0');
        assert(r@ =~= py_float_spec(d));
    } else {
        let ip = fmt_u64(mag / den);
        push_all(&mut r, ip.as_slice());
        r.push('.');
        let fd = frac_digits_exec(d, mag, den);
        push_all(&mut r, fd.as_slice());
        assert(r@ =~= py_float_spec(d));
    }
    r
}

fn slice_tail(v: &[char]) -> (r: Vec<char>)
    requires
        v@.len() > 0,
    ensures
        r@ == v@.drop_first(),
{
    let mut r: Vec<char> = Vec::new();
    let mut i: usize = 1;
    while i < v.len()
        invariant
            1 <= i <= v@.len(),
            r@ == v@.subrange(1, i as int),
        decreases v.len() - i,
    {
        r.push(v[i]);
        assert(v@.subrange(1, i + 1) =~= v@.subrange(1, i as int).push(v@[i as int]));
        i += 1;
    }
    assert(v@.subrange(1, v@.len() as int) =~= v@.drop_first());
    r
}

pub proof fn lemma_pow10_add(a: nat, b: nat)
    ensures
        pow10(a + b) == pow10(a) * pow10(b),
    decreases a,
{
    if a == 0 {
        assert(pow10(0) == 1);
        assert(a + b == b);
    } else {
        lemma_pow10_add((a - 1) as nat, b);
        assert(pow10(a + b) == 10 * pow10((a - 1 + b) as nat));
        assert(pow10(a) == 10 * pow10((a - 1) as nat));
        let x = pow10((a - 1) as nat);
        let y = pow10(b);
        assert(10 * (x * y) == (10 * x) * y) by (nonlinear_arith);
    }
}

pub proof fn lemma_nat_str_len(n: nat)
    ensures
        nat_str(n).len() >= 1,
        n < pow10((nat_str(n).len() - 1) as nat) * 10,
        nat_str(n).len() >= 2 ==> n >= pow10((nat_str(n).len() - 1) as nat),
    decreases n,
{
    if n >= 10 {
        lemma_nat_str_len(n / 10);
        let k = nat_str(n / 10).len();
        assert(nat_str(n).len() == k + 1);
        assert(pow10(k as nat) == 10 * pow10((k - 1) as nat));
        lemma_pow10_pos((k - 1) as nat);
        if k >= 2 {
            assert(n >= pow10(k as nat)) by (nonlinear_arith)
                requires n / 10 >= pow10((k - 1) as nat), pow10(k as nat) == 10 * pow10((k - 1) as nat), n >= 10;
        } else {
            assert(pow10(1) == 10) by { reveal_with_fuel(pow10, 2); }
        }
        assert(n < pow10(k as nat) * 10) by (nonlinear_arith)
            requires n / 10 < pow10((k - 1) as nat) * 10, pow10(k as nat) == 10 * pow10((k - 1) as nat);
    } else {
        assert(pow10(0) == 1);
    }
}

/// A positive magnitude below `den / 10^4` has fewer digits than the scale.
pub proof fn lemma_nat_str_digits(m: nat, den: nat, scale: nat)
    requires
        m > 0,
        den == pow10(scale),
        m * 10000 < den,
    ensures
        nat_str(m).len() - 1 <= scale,
{
    lemma_nat_str_len(m);
    let k = (nat_str(m).len() - 1) as nat;
    if k > scale {
        lemma_pow10_mono(scale, k);
        if nat_str(m).len() >= 2 {
            assert(m >= pow10(k));
        }
        lemma_pow10_pos(scale);
        assert(false) by (nonlinear_arith)
            requires m >= pow10(k), pow10(scale) <= pow10(k), m * 10000 < pow10(scale), m > 0, pow10(scale) >= 1;
    }
}

// ------------------------------------------------------------------ laws of rounding

/// Rounding halves to even gives the nearest integer to `n / d`, and of two
/// equally near ones the even one (banker's rounding).
pub proof fn law_round_half_even(n: int, d: int)
    requires
        d > 0,
    ensures
        ({
            let r = round_half_even(n, d);
            let e = n - r * d;
            &&& -d <= 2 * e <= d
            &&& (2 * e == d || 2 * e == -d) ==> r % 2 == 0
        }),
{
    let q = n / d;
    let m = n % d;
    vstd::arithmetic::div_mod::lemma_fundamental_div_mod(n, d);
    vstd::arithmetic::div_mod::lemma_mod_bound(n, d);
    let r = round_half_even(n, d);
    if 2 * m < d {
        assert(n - r * d == m) by (nonlinear_arith)
            requires r == q, n == d * q + m;
    } else if 2 * m > d {
        assert(n - r * d == m - d) by (nonlinear_arith)
            requires r == q + 1, n == d * q + m;
    } else if q % 2 == 0 {
        assert(n - r * d == m) by (nonlinear_arith)
            requires r == q, n == d * q + m;
    } else {
        assert(n - r * d == m - d) by (nonlinear_arith)
            requires r == q + 1, n == d * q + m;
    }
}

/// Rounding halves away from zero gives the nearest integer to `n / d`, and
/// of two equally near ones the one farther from zero, as `f64::round`.
pub proof fn law_round_half_away(n: int, d: int)
    requires
        d > 0,
    ensures
        ({
            let r = round_half_away(n, d);
            let e = n - r * d;
            &&& -d <= 2 * e <= d
            &&& 2 * e == d ==> r < 0
            &&& 2 * e == -d ==> r > 0
        }),
{
    let r = round_half_away(n, d);
    if n >= 0 {
        let q = (2 * n + d) / (2 * d);
        let m = (2 * n + d) % (2 * d);
        vstd::arithmetic::div_mod::lemma_fundamental_div_mod(2 * n + d, 2 * d);
        vstd::arithmetic::div_mod::lemma_mod_bound(2 * n + d, 2 * d);
        assert(2 * (n - q * d) == m - d) by (nonlinear_arith)
            requires 2 * n + d == 2 * d * q + m;
        assert(q >= 0) by (nonlinear_arith)
            requires 2 * n + d == 2 * d * q + m, n >= 0, d > 0, 0 <= m < 2 * d;
        assert(m == 0 ==> q > 0) by (nonlinear_arith)
            requires 2 * n + d == 2 * d * q + m, n >= 0, d > 0, 0 <= m < 2 * d;
    } else {
        let q = (2 * (-n) + d) / (2 * d);
        let m = (2 * (-n) + d) % (2 * d);
        vstd::arithmetic::div_mod::lemma_fundamental_div_mod(2 * (-n) + d, 2 * d);
        vstd::arithmetic::div_mod::lemma_mod_bound(2 * (-n) + d, 2 * d);
        assert(2 * (n + q * d) == d - m) by (nonlinear_arith)
            requires 2 * (-n) + d == 2 * d * q + m;
        assert(m == 0 ==> q > 0) by (nonlinear_arith)
            requires 2 * (-n) + d == 2 * d * q + m, n < 0, d > 0, 0 <= m < 2 * d;
        assert(n - r * d == n + q * d) by (nonlinear_arith)
            requires r == -q;
    }
}

} // verus!
