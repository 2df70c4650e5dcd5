//! Advanced SubStation (`.ass`) output: colours, times, character widths,
//! line wrapping and the `force_style` option of ffmpeg's subtitles filter.
//! The boxed-band subtitle file built from these is in [`crate::band`].
use vstd::prelude::*;
use crate::num::{
    fmt_hex, fmt_i64, fmt_u64, hex_str, int_str, lemma_pow10_values, nat_str, pad_zeros,
    pad_zeros_exec, parse_dec, parse_dec_exec, pow10_exec, py_float, py_float_spec,
    round_half_away, round_half_away_exec, trunc_div, trunc_div_exec, Dec,
};
use crate::text::{
    byte_len, char_index_of_byte, from_chars, is_boundary, join, join_chars, lemma_byte_len_mono,
    push_all, push_str, replace_char, replace_char_exec, slice_chars, to_chars, trim, trim_chars,
    views, words, sum_lens_plus, lemma_sum_lens_plus_prefix,
};
use crate::unicode::{char_is_uppercase, is_upper, to_uppercase, uppercase_of};

verus! {

// ------------------------------------------------------------------ colours

/// `s` without its leading `#` characters.
pub open spec fn strip_hashes(s: Seq<char>) -> Seq<char>
    decreases s.len(),
{
    if s.len() > 0 && s[0] == '#' {
        strip_hashes(s.drop_first())
    } else {
        s
    }
}

/// Each character of `s` twice.
pub open spec fn double_chars(s: Seq<char>) -> Seq<char> {
    Seq::new(2 * s.len(), |i: int| s[i / 2])
}

/// A colour's hex digits: `#` stripped, a three-byte short form doubled.
pub open spec fn expand_hex(s: Seq<char>) -> Seq<char> {
    let h = strip_hashes(s);
    if byte_len(h) == 3 {
        double_chars(h)
    } else {
        h
    }
}

/// Whether the expanded colour can be cut at bytes 2, 4 and 6.
pub open spec fn hex_ok(s: Seq<char>) -> bool {
    let h = expand_hex(s);
    is_boundary(h, 2) && is_boundary(h, 4) && is_boundary(h, 6)
}

/// The character index at byte offset `k` of `h`.
pub open spec fn char_at_byte(h: Seq<char>, k: int) -> int {
    choose|i: int| 0 <= i <= h.len() && byte_len(h.take(i)) == k
}

/// The bytes `a..b` of `h`, as `&h[a..b]`.
pub open spec fn byte_slice(h: Seq<char>, a: int, b: int) -> Seq<char> {
    h.subrange(char_at_byte(h, a), char_at_byte(h, b))
}

/// The colour's blue, green and red digit pairs, upper-cased: `BBGGRR`.
pub open spec fn bgr_digits(s: Seq<char>) -> Seq<char> {
    let h = expand_hex(s);
    uppercase_of(byte_slice(h, 4, 6)) + uppercase_of(byte_slice(h, 2, 4)) + uppercase_of(
        byte_slice(h, 0, 2),
    )
}

/// Two upper-case hex digits of `n`, as `{:02X}`.
pub open spec fn hex2(n: int) -> Seq<char> {
    pad_zeros(hex_str(n as nat, true), 2)
}

/// `x` held within `0..=255`.
pub open spec fn clamp255(x: int) -> int {
    if x < 0 {
        0
    } else if x > 255 {
        255
    } else {
        x
    }
}

/// The alpha byte for transparency `num / den` (0 opaque, 1 clear).
pub open spec fn alpha_byte(num: int, den: int) -> int {
    clamp255(round_half_away(num * 255, den))
}

/// `&HAABBGGRR` for a `#RRGGBB` colour and a transparency `t` (0 opaque .. 1 clear).
pub open spec fn hex_to_ass_spec(hex: Seq<char>, t: Dec) -> Seq<char> {
    seq!['&', 'H'] + hex2(alpha_byte(t.num as int, t.den())) + bgr_digits(hex)
}

/// `&HBBGGRR&` for a `#RRGGBB` colour.
pub open spec fn ass_bgr_spec(hex: Seq<char>) -> Seq<char> {
    seq!['&', 'H'] + bgr_digits(hex) + seq!['&']
}

/// `&HAA&` for an opacity `o` (1 opaque .. 0 clear).
pub open spec fn ass_alpha_spec(o: Dec) -> Seq<char> {
    seq!['&', 'H'] + hex2(alpha_byte(o.den() - o.num, o.den())) + seq!['&']
}

/// Whether a decimal can be used as a transparency or opacity here.
pub open spec fn dec_fits(d: Dec) -> bool {
    d.scale <= 6 && -0x1000_0000_0000_0000 < d.num < 0x1000_0000_0000_0000
}

pub proof fn lemma_byte_index_unique(h: Seq<char>, i: int, j: int)
    requires
        0 <= i <= h.len(),
        0 <= j <= h.len(),
        byte_len(h.take(i)) == byte_len(h.take(j)),
    ensures
        i == j,
{
    if i < j {
        lemma_byte_len_mono(h, i, j);
    } else if j < i {
        lemma_byte_len_mono(h, j, i);
    }
}

pub proof fn lemma_strip_hashes_at(s: Seq<char>, k: int)
    requires
        0 <= k <= s.len(),
        forall|j: int| 0 <= j < k ==> #[trigger] s[j] == '#',
        k == s.len() || s[k] != '#',
    ensures
        strip_hashes(s) == s.subrange(k, s.len() as int),
    decreases k,
{
    if k == 0 {
        assert(s.subrange(0, s.len() as int) =~= s);
    } else {
        let t = s.drop_first();
        assert forall|j: int| 0 <= j < k - 1 implies #[trigger] t[j] == '#' by {
            assert(t[j] == s[j + 1]);
        }
        lemma_strip_hashes_at(t, k - 1);
        assert(t.subrange(k - 1, t.len() as int) =~= s.subrange(k, s.len() as int));
    }
}

fn byte_len_exec(v: &[char]) -> (r: u64)
    requires
        v@.len() < 0x1000_0000_0000_0000,
    ensures
        r == byte_len(v@),
{
    let mut b: u64 = 0;
    let mut i: usize = 0;
    assert(v@.take(0) =~= Seq::<char>::empty());
    while i < v.len()
        invariant
            i <= v@.len() < 0x1000_0000_0000_0000,
            b == byte_len(v@.take(i as int)),
            b <= 4 * i,
        decreases v.len() - i,
    {
        assert(v@.take(i + 1).drop_last() =~= v@.take(i as int));
        b = b + crate::text::utf8_len_exec(v[i]) as u64;
        i += 1;
    }
    assert(v@.take(v@.len() as int) =~= v@);
    b
}

/// The expanded hex digits of a colour, see [`expand_hex`].
fn expand_hex_exec(s: &str) -> (r: Vec<char>)
    requires
        s@.len() < 0x1000_0000_0000_0000,
    ensures
        r@ == expand_hex(s@),
{
    let v = to_chars(s);
    let mut k: usize = 0;
    while k < v.len() && v[k] == '#'
        invariant
            k <= v@.len(),
            forall|j: int| 0 <= j < k ==> #[trigger] v@[j] == '#',
        decreases v.len() - k,
    {
        k += 1;
    }
    proof {
        lemma_strip_hashes_at(v@, k as int);
    }
    let h = slice_chars(v.as_slice(), k, v.len());
    if byte_len_exec(h.as_slice()) == 3 {
        let mut r: Vec<char> = Vec::new();
        let mut i: usize = 0;
        while i < h.len()
            invariant
                i <= h@.len(),
                h@.len() < 0x1000_0000_0000_0000,
                r@ == double_chars(h@.take(i as int)),
            decreases h.len() - i,
        {
            r.push(h[i]);
            r.push(h[i]);
            assert(r@ =~= double_chars(h@.take(i + 1)));
            i += 1;
        }
        assert(h@.take(h@.len() as int) =~= h@);
        r
    } else {
        h
    }
}

/// The upper-cased blue, green and red digit pairs, see [`bgr_digits`].
fn bgr_digits_exec(hex: &str) -> (r: Vec<char>)
    requires
        hex@.len() < 0x1000_0000_0000_0000,
        hex_ok(hex@),
    ensures
        r@ == bgr_digits(hex@),
{
    let h = expand_hex_exec(hex);
    let ghost g = h@;
    let i2 = char_index_of_byte(h.as_slice(), 2);
    let i4 = char_index_of_byte(h.as_slice(), 4);
    let i6 = char_index_of_byte(h.as_slice(), 6);
    match (i2, i4, i6) {
        (Some(i2), Some(i4), Some(i6)) => {
            proof {
                let c2 = char_at_byte(g, 2);
                let c4 = char_at_byte(g, 4);
                let c6 = char_at_byte(g, 6);
                lemma_byte_index_unique(g, c2, i2 as int);
                lemma_byte_index_unique(g, c4, i4 as int);
                lemma_byte_index_unique(g, c6, i6 as int);
                assert(g.take(0) =~= Seq::<char>::empty());
                let c0 = char_at_byte(g, 0);
                lemma_byte_index_unique(g, c0, 0);
                if i4 < i2 {
                    lemma_byte_len_mono(g, i4 as int, i2 as int);
                }
                if i6 < i4 {
                    lemma_byte_len_mono(g, i6 as int, i4 as int);
                }
            }
            let a = slice_chars(h.as_slice(), i4, i6);
            let b = slice_chars(h.as_slice(), i2, i4);
            let c = slice_chars(h.as_slice(), 0, i2);
            let ua = to_uppercase(from_chars(a.as_slice()).as_str());
            let ub = to_uppercase(from_chars(b.as_slice()).as_str());
            let uc = to_uppercase(from_chars(c.as_slice()).as_str());
            let mut r: Vec<char> = Vec::new();
            push_str(&mut r, ua.as_str());
            push_str(&mut r, ub.as_str());
            push_str(&mut r, uc.as_str());
            assert(r@ =~= bgr_digits(hex@));
            r
        },
        _ => {
            // the boundaries exist by `hex_ok`
            proof {
                assert(false);
            }
            Vec::new()
        },
    }
}

fn alpha_byte_exec(num: i64, den: i64) -> (r: u64)
    requires
        den >= 1,
        den <= 1_000_000,
        -0x2000_0000_0000_0000 < num < 0x2000_0000_0000_0000,
    ensures
        r == alpha_byte(num as int, den as int),
        r <= 255,
{
    let x = round_half_away_exec(num as i128 * 255, den as i128);
    if x < 0 {
        0
    } else if x > 255 {
        255
    } else {
        x as u64
    }
}

fn hex2_exec(n: u64) -> (r: Vec<char>)
    ensures
        r@ == hex2(n as int),
{
    let h = fmt_hex(n as u128, true);
    pad_zeros_exec(h.as_slice(), 2)
}

pub(crate) fn dec_den(d: Dec) -> (r: i64)
    requires
        d.scale <= 6,
    ensures
        r == d.den(),
        1 <= r <= 1_000_000,
{
    proof {
        lemma_pow10_values();
    }
    let r = pow10_exec(d.scale);
    assert(r <= 1_000_000) by {
        let sc = d.scale;
        if sc == 0 {} else if sc == 1 {} else if sc == 2 {} else if sc == 3 {} else if sc == 4 {}
        else if sc == 5 {}
    }
    r as i64
}

/// `#RRGGBB` and a transparency (0 opaque .. 1 clear) as the ASS colour
/// `&HAABBGGRR`.
pub fn hex_to_ass(hexcolor: &str, transparency: Dec) -> (r: String)
    requires
        hexcolor@.len() < 0x1000_0000_0000_0000,
        hex_ok(hexcolor@),
        dec_fits(transparency),
    ensures
        r@ == hex_to_ass_spec(hexcolor@, transparency),
{
    let den = dec_den(transparency);
    let aa = alpha_byte_exec(transparency.num, den);
    let mut v: Vec<char> = Vec::new();
    v.push('&');
    v.push('H');
    let a = hex2_exec(aa);
    push_all(&mut v, a.as_slice());
    let d = bgr_digits_exec(hexcolor);
    push_all(&mut v, d.as_slice());
    assert(v@ =~= hex_to_ass_spec(hexcolor@, transparency));
    from_chars(v.as_slice())
}

/// `#RRGGBB` as `&HBBGGRR&`, the colour form of drawing tags.
pub fn ass_bgr(hexcolor: &str) -> (r: String)
    requires
        hexcolor@.len() < 0x1000_0000_0000_0000,
        hex_ok(hexcolor@),
    ensures
        r@ == ass_bgr_spec(hexcolor@),
{
    let mut v: Vec<char> = Vec::new();
    v.push('&');
    v.push('H');
    let d = bgr_digits_exec(hexcolor);
    push_all(&mut v, d.as_slice());
    v.push('&');
    assert(v@ =~= ass_bgr_spec(hexcolor@));
    from_chars(v.as_slice())
}

/// An opacity (1 opaque .. 0 clear) as the ASS alpha `&HAA&`.
pub fn ass_alpha(opacity: Dec) -> (r: String)
    requires
        dec_fits(opacity),
    ensures
        r@ == ass_alpha_spec(opacity),
{
    let den = dec_den(opacity);
    let aa = alpha_byte_exec(den - opacity.num, den);
    let mut v: Vec<char> = Vec::new();
    v.push('&');
    v.push('H');
    let a = hex2_exec(aa);
    push_all(&mut v, a.as_slice());
    v.push('&');
    assert(v@ =~= ass_alpha_spec(opacity));
    from_chars(v.as_slice())
}

// ------------------------------------------------------------------ times

/// `H:MM:SS.cc` for `num / den` milliseconds (negative taken as 0),
/// centiseconds rounded half away from zero.
pub open spec fn ass_time_spec(num: int, den: int) -> Seq<char> {
    let cs = if num < 0 {
        0
    } else {
        round_half_away(num, den * 10)
    };
    nat_str((cs / 360_000) as nat) + seq![':'] + pad_zeros(nat_str(((cs % 360_000) / 6000) as nat), 2)
        + seq![':'] + pad_zeros(nat_str(((cs % 6000) / 100) as nat), 2) + seq!['.'] + pad_zeros(
        nat_str((cs % 100) as nat),
        2,
    )
}

pub(crate) fn ass_time_frac(out: &mut Vec<char>, num: i128, den: i128)
    requires
        den >= 1,
        den < 0x1_0000_0000_0000_0000_0000,
        -0x1000_0000_0000_0000_0000_0000_0000 < num < 0x1000_0000_0000_0000_0000_0000_0000,
        num < den * 0x1_0000_0000_0000_0000,
    ensures
        final(out)@ == old(out)@ + ass_time_spec(num as int, den as int),
{
    let cs: i128 = if num < 0 {
        0
    } else {
        round_half_away_exec(num, den * 10)
    };
    proof {
        if num >= 0 {
            assert((2 * num + den * 10) / (2 * (den * 10)) < 0x1_0000_0000_0000_0000) by (nonlinear_arith)
                requires num >= 0, den >= 1, num < den * 0x1_0000_0000_0000_0000;
            assert(0 <= (2 * num + den * 10) / (2 * (den * 10))) by (nonlinear_arith)
                requires num >= 0, den >= 1;
        }
    }
    let c = cs as u64;
    let h = fmt_u64(c / 360_000);
    let m = pad_zeros_exec(fmt_u64((c % 360_000) / 6000).as_slice(), 2);
    let s = pad_zeros_exec(fmt_u64((c % 6000) / 100).as_slice(), 2);
    let f = pad_zeros_exec(fmt_u64(c % 100).as_slice(), 2);
    push_all(out, h.as_slice());
    out.push(':');
    push_all(out, m.as_slice());
    out.push(':');
    push_all(out, s.as_slice());
    out.push('.');
    push_all(out, f.as_slice());
    assert(final(out)@ =~= old(out)@ + ass_time_spec(num as int, den as int));
}

/// `t` milliseconds (negative taken as 0) as the ASS time `H:MM:SS.cc`.
pub fn ass_time(t: i64) -> (r: String)
    ensures
        r@ == ass_time_spec(t as int, 1),
{
    let mut v: Vec<char> = Vec::new();
    ass_time_frac(&mut v, t as i128, 1);
    assert(v@ =~= ass_time_spec(t as int, 1));
    from_chars(v.as_slice())
}


// ------------------------------------------------------------------ style

/// How subtitles are drawn, as the user chose it. Numbers are kept as the
/// text they were given in and read when used.
#[derive(Debug, Default, Clone)]
pub struct Style {
    pub font: Option<String>,
    pub size: Option<String>,
    pub bold: bool,
    pub italic: bool,
    pub fill: Option<String>,
    pub outline: Option<String>,
    pub outline_color: Option<String>,
    pub outline_opacity: Option<String>,
    pub box_on: bool,
    pub box_color: Option<String>,
    pub box_opacity: Option<String>,
    pub align: Option<String>,
    pub margin: Option<String>,
}

/// The characters of an optional string.
pub open spec fn ostr(o: Option<String>) -> Option<Seq<char>> {
    match o {
        Some(s) => Some(s@),
        None => None,
    }
}

/// The number an optional field holds: its trimmed text read as a decimal.
pub open spec fn parse_f_spec(o: Option<String>) -> Option<Dec> {
    match o {
        Some(s) => parse_dec(trim(s@)),
        None => None,
    }
}

/// The characters of `o`, or `d` when it is absent.
pub open spec fn or_default(o: Option<String>, d: Seq<char>) -> Seq<char> {
    match o {
        Some(s) => s@,
        None => d,
    }
}

/// The ASS alignment code of a vertical position: bottom 2, middle 5, top 8.
pub open spec fn align_num_spec(o: Option<String>) -> Option<int> {
    match o {
        Some(s) => if s@ == "bottom"@ {
            Some(2)
        } else if s@ == "middle"@ {
            Some(5)
        } else if s@ == "top"@ {
            Some(8)
        } else {
            None
        },
        None => None,
    }
}

/// `1 - d`.
pub open spec fn one_minus(d: Dec) -> Dec {
    Dec { num: (d.den() - d.num) as i64, scale: d.scale }
}

/// The decimal 1.
pub open spec fn dec_one() -> Dec {
    Dec { num: 1, scale: 0 }
}

/// The decimal 0.
pub open spec fn dec_zero() -> Dec {
    Dec { num: 0, scale: 0 }
}

pub(crate) fn parse_f(o: &Option<String>) -> (r: Option<Dec>)
    ensures
        r == parse_f_spec(*o),
        r matches Some(d) ==> d.wf(),
{
    match o {
        Some(s) => {
            let v = to_chars(s.as_str());
            let t = trim_chars(v.as_slice());
            parse_dec_exec(t.as_slice())
        },
        None => None,
    }
}

pub(crate) fn align_num(o: &Option<String>) -> (r: Option<i64>)
    ensures
        match r {
            Some(x) => align_num_spec(*o) == Some(x as int),
            None => align_num_spec(*o) is None,
        },
{
    match o {
        Some(s) => {
            let v = to_chars(s.as_str());
            let b = to_chars("bottom");
            let m = to_chars("middle");
            let t = to_chars("top");
            if crate::text::chars_eq(v.as_slice(), b.as_slice()) {
                Some(2)
            } else if crate::text::chars_eq(v.as_slice(), m.as_slice()) {
                Some(5)
            } else if crate::text::chars_eq(v.as_slice(), t.as_slice()) {
                Some(8)
            } else {
                None
            }
        },
        None => None,
    }
}

/// One `key=value` part of a style line.
pub open spec fn part(key: Seq<char>, value: Seq<char>) -> Seq<Seq<char>> {
    seq![key + value]
}

/// The part for a non-empty optional string, or nothing.
pub open spec fn opt_part(key: Seq<char>, o: Option<String>) -> Seq<Seq<char>> {
    match o {
        Some(v) => if v@.len() > 0 {
            part(key, v@)
        } else {
            seq![]
        },
        None => seq![],
    }
}

/// The parts that the box or outline settings give.
pub open spec fn border_parts(s: Style) -> Seq<Seq<char>> {
    if s.box_on {
        let op = match parse_f_spec(s.box_opacity) {
            Some(d) => d,
            None => dec_one(),
        };
        let pad = match parse_f_spec(s.outline) {
            Some(d) => d,
            None => dec_zero(),
        };
        seq!["BorderStyle=3"@, "Shadow=0"@] + part(
            "OutlineColour="@,
            hex_to_ass_spec(or_default(s.box_color, "#000000"@), one_minus(op)),
        ) + part(
            "Outline="@,
            if pad.num > 0 {
                py_float_spec(pad)
            } else {
                "4"@
            },
        )
    } else {
        let op = match parse_f_spec(s.outline_opacity) {
            Some(d) => d,
            None => dec_one(),
        };
        opt_part("Outline="@, s.outline) + match s.outline_color {
            Some(oc) => if oc@.len() > 0 {
                part("OutlineColour="@, hex_to_ass_spec(oc@, one_minus(op)))
            } else {
                seq![]
            },
            None => seq![],
        }
    }
}

/// The parts for font, size, weight and slant.
pub open spec fn head_parts(s: Style) -> Seq<Seq<char>> {
    opt_part("FontName="@, s.font) + match parse_f_spec(s.size) {
        Some(z) => part("FontSize="@, int_str(trunc_div(z.num as int, z.den()))),
        None => seq![],
    } + seq![
        if s.bold {
            "Bold=-1"@
        } else {
            "Bold=0"@
        },
    ] + (if s.italic {
        seq!["Italic=-1"@]
    } else {
        seq![]
    })
}

/// The part for the fill colour.
pub open spec fn fill_parts(s: Style) -> Seq<Seq<char>> {
    match s.fill {
        Some(f) => if f@.len() > 0 {
            part("PrimaryColour="@, hex_to_ass_spec(f@, dec_zero()))
        } else {
            seq![]
        },
        None => seq![],
    }
}

/// The parts for alignment and vertical margin.
pub open spec fn tail_parts(s: Style) -> Seq<Seq<char>> {
    (match align_num_spec(s.align) {
        Some(a) => part("Alignment="@, int_str(a)),
        None => seq![],
    }) + (match parse_f_spec(s.margin) {
        Some(m) => part("MarginV="@, int_str(trunc_div(m.num as int, m.den()))),
        None => seq![],
    })
}

/// The `force_style` value for ffmpeg's subtitles filter: comma-separated
/// `Key=Value` parts for the style's font, size, weight, colours, border,
/// alignment and margin; empty without a style.
pub open spec fn force_style_spec(style: Option<Style>) -> Seq<char> {
    match style {
        None => seq![],
        Some(s) => join(head_parts(s) + fill_parts(s) + border_parts(s) + tail_parts(s), seq![',']),
    }
}

/// Whether an optional colour is usable: absent, empty, or cut-able hex.
pub open spec fn color_ok(o: Option<String>) -> bool {
    match o {
        Some(c) => c@.len() == 0 || (c@.len() < 0x1000_0000_0000_0000 && hex_ok(c@)),
        None => true,
    }
}

/// Whether an optional colour with a default is cut-able hex.
pub open spec fn color_or_ok(o: Option<String>) -> bool {
    match o {
        Some(c) => c@.len() < 0x1000_0000_0000_0000 && hex_ok(c@),
        None => true,
    }
}

/// What `build_force_style` needs of a style: the colours it renders can be
/// cut into digit pairs.
pub open spec fn force_style_ok(s: Style) -> bool {
    &&& color_ok(s.fill)
    &&& s.box_on ==> color_or_ok(s.box_color)
    &&& !s.box_on ==> color_ok(s.outline_color)
}

/// Whether a colour can be cut into digit pairs, see [`hex_ok`].
pub fn hex_usable(s: &str) -> (r: bool)
    ensures
        r == (s@.len() < 0x1000_0000_0000_0000 && hex_ok(s@)),
{
    let v = to_chars(s);
    if v.len() as u64 >= 0x1000_0000_0000_0000 {
        return false;
    }
    let h = expand_hex_exec(s);
    let a = char_index_of_byte(h.as_slice(), 2);
    let b = char_index_of_byte(h.as_slice(), 4);
    let c = char_index_of_byte(h.as_slice(), 6);
    a.is_some() && b.is_some() && c.is_some()
}

/// Whether an optional colour with a default is usable, see [`color_or_ok`].
pub fn color_or_usable(o: &Option<String>) -> (r: bool)
    ensures
        r == color_or_ok(*o),
{
    match o {
        Some(c) => hex_usable(c.as_str()),
        None => true,
    }
}

/// Whether an optional colour is usable, see [`color_ok`].
pub fn color_usable(o: &Option<String>) -> (r: bool)
    ensures
        r == color_ok(*o),
{
    match o {
        Some(c) => c.as_str().unicode_len() == 0 || hex_usable(c.as_str()),
        None => true,
    }
}

/// Whether [`build_force_style`] can render a style, see [`force_style_ok`].
pub fn force_style_usable(s: &Style) -> (r: bool)
    ensures
        r == force_style_ok(*s),
{
    color_usable(&s.fill) && (!s.box_on || color_or_usable(&s.box_color)) && (s.box_on || color_usable(
        &s.outline_color,
    ))
}

pub proof fn lemma_ascii_prefix_bytes(h: Seq<char>, k: int)
    requires
        0 <= k <= h.len(),
        forall|i: int| 0 <= i < k ==> (#[trigger] h[i] as u32) < 0x80,
    ensures
        byte_len(h.take(k)) == k,
    decreases k,
{
    if k > 0 {
        lemma_ascii_prefix_bytes(h, k - 1);
        assert(h.take(k).drop_last() =~= h.take(k - 1));
    }
}

/// `#` followed by six ASCII characters (not `#`) is a usable colour.
pub proof fn lemma_hex_ok_plain(s: Seq<char>)
    requires
        s.len() == 7,
        s[0] == '#',
        s[1] != '#',
        forall|i: int| 1 <= i < 7 ==> (#[trigger] s[i] as u32) < 0x80,
    ensures
        hex_ok(s),
        expand_hex(s) == s.drop_first(),
{
    lemma_strip_hashes_at(s, 1);
    let h = s.subrange(1, 7);
    assert(strip_hashes(s) == h);
    assert forall|i: int| 0 <= i < 6 implies (#[trigger] h[i] as u32) < 0x80 by {
        assert(h[i] == s[i + 1]);
    }
    lemma_ascii_prefix_bytes(h, 6);
    assert(h.take(6) =~= h);
    lemma_ascii_prefix_bytes(h, 2);
    lemma_ascii_prefix_bytes(h, 4);
    assert(expand_hex(s) == h);
    assert(h =~= s.drop_first());
}

fn push_part(parts: &mut Vec<Vec<char>>, key: &str, value: &[char])
    ensures
        views(final(parts)@) == views(old(parts)@) + part(key@, value@),
{
    let mut v: Vec<char> = Vec::new();
    push_str(&mut v, key);
    push_all(&mut v, value);
    let ghost before = views(parts@);
    parts.push(v);
    assert(views(parts@) =~= before.push(key@ + value@));
}

fn push_lit(parts: &mut Vec<Vec<char>>, lit: &str)
    ensures
        views(final(parts)@) == views(old(parts)@).push(lit@),
{
    let v = to_chars(lit);
    let ghost before = views(parts@);
    parts.push(v);
    assert(views(parts@) =~= before.push(lit@));
}

fn one_minus_exec(d: Dec) -> (r: Dec)
    requires
        d.wf(),
    ensures
        r == one_minus(d),
        dec_fits(r),
{
    let den = dec_den(d);
    Dec { num: den - d.num, scale: d.scale }
}

fn border_parts_exec(s: &Style, parts: &mut Vec<Vec<char>>)
    requires
        force_style_ok(*s),
    ensures
        views(final(parts)@) == views(old(parts)@) + border_parts(*s),
{
    let ghost start = views(parts@);
    if s.box_on {
        let op = match parse_f(&s.box_opacity) {
            Some(d) => d,
            None => Dec { num: 1, scale: 0 },
        };
        let pad = match parse_f(&s.outline) {
            Some(d) => d,
            None => Dec { num: 0, scale: 0 },
        };
        push_lit(parts, "BorderStyle=3");
        push_lit(parts, "Shadow=0");
        let c = match &s.box_color {
            Some(c) => hex_to_ass(c.as_str(), one_minus_exec(op)),
            None => {
                let d = "#000000";
                proof {
                    reveal_strlit("#000000");
                    lemma_hex_ok_plain(d@);
                }
                hex_to_ass(d, one_minus_exec(op))
            },
        };
        push_part(parts, "OutlineColour=", to_chars(c.as_str()).as_slice());
        if pad.num > 0 {
            push_part(parts, "Outline=", py_float(pad).as_slice());
        } else {
            push_part(parts, "Outline=", to_chars("4").as_slice());
        }
        assert(views(parts@) =~= start + border_parts(*s));
    } else {
        let op = match parse_f(&s.outline_opacity) {
            Some(d) => d,
            None => Dec { num: 1, scale: 0 },
        };
        match &s.outline {
            Some(o) => {
                if o.as_str().unicode_len() > 0 {
                    push_part(parts, "Outline=", to_chars(o.as_str()).as_slice());
                }
            },
            None => {},
        }
        let ghost mid = views(parts@);
        assert(mid =~= start + opt_part("Outline="@, s.outline));
        match &s.outline_color {
            Some(oc) => {
                if oc.as_str().unicode_len() > 0 {
                    let c = hex_to_ass(oc.as_str(), one_minus_exec(op));
                    push_part(parts, "OutlineColour=", to_chars(c.as_str()).as_slice());
                }
            },
            None => {},
        }
        assert(views(parts@) =~= start + border_parts(*s));
    }
}

fn head_parts_exec(s: &Style, parts: &mut Vec<Vec<char>>)
    ensures
        views(final(parts)@) == views(old(parts)@) + head_parts(*s),
{
    let ghost start = views(parts@);
    match &s.font {
        Some(f) => {
            if f.as_str().unicode_len() > 0 {
                push_part(parts, "FontName=", to_chars(f.as_str()).as_slice());
            }
        },
        None => {},
    }
    let ghost p1 = views(parts@);
    assert(p1 =~= start + opt_part("FontName="@, s.font));
    match parse_f(&s.size) {
        Some(z) => {
            let den = dec_den(z);
            let t = trunc_div_exec(z.num, den);
            push_part(parts, "FontSize=", fmt_i64(t).as_slice());
        },
        None => {},
    }
    if s.bold {
        push_lit(parts, "Bold=-1");
    } else {
        push_lit(parts, "Bold=0");
    }
    if s.italic {
        push_lit(parts, "Italic=-1");
    }
    assert(views(parts@) =~= start + head_parts(*s));
}

fn fill_parts_exec(s: &Style, parts: &mut Vec<Vec<char>>)
    requires
        color_ok(s.fill),
    ensures
        views(final(parts)@) == views(old(parts)@) + fill_parts(*s),
{
    let ghost start = views(parts@);
    match &s.fill {
        Some(f) => {
            if f.as_str().unicode_len() > 0 {
                let c = hex_to_ass(f.as_str(), Dec { num: 0, scale: 0 });
                push_part(parts, "PrimaryColour=", to_chars(c.as_str()).as_slice());
            }
        },
        None => {},
    }
    assert(views(parts@) =~= start + fill_parts(*s));
}

fn tail_parts_exec(s: &Style, parts: &mut Vec<Vec<char>>)
    ensures
        views(final(parts)@) == views(old(parts)@) + tail_parts(*s),
{
    let ghost start = views(parts@);
    match align_num(&s.align) {
        Some(a) => {
            push_part(parts, "Alignment=", fmt_i64(a).as_slice());
        },
        None => {},
    }
    let ghost p1 = views(parts@);
    match parse_f(&s.margin) {
        Some(m) => {
            let den = dec_den(m);
            let t = trunc_div_exec(m.num, den);
            push_part(parts, "MarginV=", fmt_i64(t).as_slice());
        },
        None => {},
    }
    assert(views(parts@) =~= start + tail_parts(*s));
}

/// The `force_style` value for ffmpeg's subtitles filter, see [`force_style_spec`].
pub fn build_force_style(style: Option<&Style>) -> (r: String)
    requires
        style matches Some(s) ==> force_style_ok(*s),
    ensures
        r@ == force_style_spec(match style {
            Some(s) => Some(*s),
            None => None,
        }),
{
    let s = match style {
        Some(s) => s,
        None => {
            return String::new();
        },
    };
    let mut parts: Vec<Vec<char>> = Vec::new();
    head_parts_exec(s, &mut parts);
    fill_parts_exec(s, &mut parts);
    border_parts_exec(s, &mut parts);
    tail_parts_exec(s, &mut parts);
    assert(views(parts@) =~= head_parts(*s) + fill_parts(*s) + border_parts(*s) + tail_parts(*s));
    let comma: Vec<char> = vec![','];
    assert(comma@ =~= seq![',']);
    let joined = join_chars(parts.as_slice(), comma.as_slice());
    from_chars(joined.as_slice())
}

/// A path escaped for ffmpeg's filter syntax: `\`, `'` and `:` get a
/// backslash before them.
pub open spec fn esc_filter_spec(p: Seq<char>) -> Seq<char> {
    replace_char(
        replace_char(replace_char(p, '\\', seq!['\\', '\\']), '\'', seq!['\\', '\'']),
        ':',
        seq!['\\', ':'],
    )
}

/// Escapes a path for ffmpeg's subtitles filter, see [`esc_filter_spec`].
pub fn esc_filter(p: &str) -> (r: String)
    ensures
        r@ == esc_filter_spec(p@),
{
    let v = to_chars(p);
    let r1: Vec<char> = vec!['\\', '\\'];
    let r2: Vec<char> = vec!['\\', '\''];
    let r3: Vec<char> = vec!['\\', ':'];
    assert(r1@ =~= seq!['\\', '\\'] && r2@ =~= seq!['\\', '\''] && r3@ =~= seq!['\\', ':']);
    let a = replace_char_exec(v.as_slice(), '\\', r1.as_slice());
    let b = replace_char_exec(a.as_slice(), '\'', r2.as_slice());
    let c = replace_char_exec(b.as_slice(), ':', r3.as_slice());
    from_chars(c.as_slice())
}


// ------------------------------------------------------------------ widths

/// Characters drawn narrow: `iíìỉĩịl.,:;!'|` and `` ` ``, `f`, `t`, `j`, `r`, brackets.
pub open spec fn narrow_chars() -> Seq<char> {
    seq![
        'i', '\u{ed}', '\u{ec}', '\u{1ec9}', '\u{129}', '\u{1ecb}', 'l', '.', ',', ':', ';', '!',
        '\'', '|', '`', 'f', 't', 'j', 'r', '(', ')', '[', ']',
    ]
}

/// Characters drawn wide: `m`, `w`, `M`, `W`, `@`.
pub open spec fn wide_chars() -> Seq<char> {
    seq!['m', 'w', 'M', 'W', '@']
}

/// A character's width in ten-thousandths of the font size: space 0.30,
/// narrow 0.32, wide 0.60, digits 0.42, capitals 0.52, others 0.40; bold
/// 4% wider.
pub open spec fn char_units(c: char, bold: bool) -> int {
    let f: int = if c == ' ' {
        30
    } else if narrow_chars().contains(c) {
        32
    } else if wide_chars().contains(c) {
        60
    } else if crate::num::is_digit(c) {
        42
    } else if is_upper(c) {
        52
    } else {
        40
    };
    f * if bold {
        104int
    } else {
        100int
    }
}

/// The width units of a text, summed over its characters.
pub open spec fn text_units(s: Seq<char>, bold: bool) -> int
    decreases s.len(),
{
    if s.len() == 0 {
        0
    } else {
        text_units(s.drop_last(), bold) + char_units(s.last(), bold)
    }
}

fn contains_char(v: &Vec<char>, c: char) -> (r: bool)
    ensures
        r == v@.contains(c),
{
    let mut i: usize = 0;
    while i < v.len()
        invariant
            i <= v@.len(),
            forall|j: int| 0 <= j < i ==> v@[j] != c,
        decreases v.len() - i,
    {
        if v[i] == c {
            assert(v@[i as int] == c);
            return true;
        }
        i += 1;
    }
    false
}

/// A character's width in ten-thousandths of the font size, see [`char_units`].
pub fn char_frac(c: char, bold: bool) -> (r: u64)
    ensures
        r == char_units(c, bold),
        r <= 6240,
{
    let narrow: Vec<char> = vec![
        'i', '\u{ed}', '\u{ec}', '\u{1ec9}', '\u{129}', '\u{1ecb}', 'l', '.', ',', ':', ';', '!',
        '\'', '|', '`', 'f', 't', 'j', 'r', '(', ')', '[', ']',
    ];
    let wide: Vec<char> = vec!['m', 'w', 'M', 'W', '@'];
    assert(narrow@ =~= narrow_chars());
    assert(wide@ =~= wide_chars());
    let f: u64 = if c == ' ' {
        30
    } else if contains_char(&narrow, c) {
        32
    } else if contains_char(&wide, c) {
        60
    } else if (c as u32) >= 48 && (c as u32) <= 57 {
        42
    } else if char_is_uppercase(c) {
        52
    } else {
        40
    };
    f * if bold {
        104
    } else {
        100
    }
}

pub(crate) fn text_units_exec(v: &[char], bold: bool) -> (r: u64)
    requires
        v@.len() < 0x1_0000_0000,
    ensures
        r == text_units(v@, bold),
        r <= 6240 * v@.len(),
{
    let mut r: u64 = 0;
    let mut i: usize = 0;
    while i < v.len()
        invariant
            i <= v@.len() < 0x1_0000_0000,
            r == text_units(v@.take(i as int), bold),
            r <= 6240 * i,
        decreases v.len() - i,
    {
        assert(v@.take(i + 1).drop_last() =~= v@.take(i as int));
        r = r + char_frac(v[i], bold);
        i += 1;
    }
    assert(v@.take(v@.len() as int) =~= v@);
    r
}

/// The width of `text` at font size `fontpx`, in script units, as the
/// fraction `(num, den)`: the font size times the summed character widths.
pub fn line_width(text: &str, fontpx: Dec, bold: bool) -> (r: (i128, i128))
    requires
        fontpx.wf(),
        text@.len() < 0x1_0000_0000,
    ensures
        r.0 == fontpx.num * text_units(text@, bold),
        r.1 == fontpx.den() * 10000,
{
    let v = to_chars(text);
    let u = text_units_exec(v.as_slice(), bold);
    let den = dec_den(fontpx);
    assert(-1_000_000_000_000_000 * 6240 * 0x1_0000_0000 <= fontpx.num * u <= 1_000_000_000_000_000 * 6240 * 0x1_0000_0000) by (nonlinear_arith)
        requires -1_000_000_000_000_000 < fontpx.num < 1_000_000_000_000_000, 0 <= u <= 6240 * 0x1_0000_0000;
    (fontpx.num as i128 * u as i128, den as i128 * 10000)
}

/// Whether `s` at font size `f` is at most `mnum / mden` wide.
pub open spec fn fits_width(s: Seq<char>, f: Dec, bold: bool, mnum: int, mden: int) -> bool {
    f.num * text_units(s, bold) * mden <= mnum * f.den() * 10000
}

/// The state of wrapping: finished lines and the line being built.
pub type WrapState = (Seq<Seq<char>>, Seq<char>);

/// One word added to the wrap state: it joins the line after a space when
/// the line stays within the width, else it starts a new line.
pub open spec fn wrap_step(st: WrapState, w: Seq<char>, f: Dec, bold: bool, mnum: int, mden: int) -> WrapState {
    let trial = if st.1.len() == 0 {
        w
    } else {
        st.1 + seq![' '] + w
    };
    if st.1.len() == 0 || fits_width(trial, f, bold, mnum, mden) {
        (st.0, trial)
    } else {
        (st.0.push(st.1), w)
    }
}

/// The wrap state after the words `ws`, in order.
pub open spec fn wrap_fold(ws: Seq<Seq<char>>, f: Dec, bold: bool, mnum: int, mden: int) -> WrapState
    decreases ws.len(),
{
    if ws.len() == 0 {
        (seq![], seq![])
    } else {
        wrap_step(wrap_fold(ws.drop_last(), f, bold, mnum, mden), ws.last(), f, bold, mnum, mden)
    }
}

/// The lines of `text` (line breaks read as spaces) wrapped greedily to the
/// width `mnum / mden` at font size `f`; one empty line for a text without words.
pub open spec fn wrap_spec(text: Seq<char>, f: Dec, bold: bool, mnum: int, mden: int) -> Seq<Seq<char>> {
    let ws = words(replace_char(text, '\n', seq![' ']));
    if ws.len() == 0 {
        seq![seq![]]
    } else {
        let st = wrap_fold(ws, f, bold, mnum, mden);
        if st.1.len() > 0 {
            st.0.push(st.1)
        } else {
            st.0
        }
    }
}

pub proof fn lemma_wrap_fold_len(ws: Seq<Seq<char>>, f: Dec, bold: bool, mnum: int, mden: int, total: int)
    requires
        forall|i: int| 0 <= i < ws.len() ==> (#[trigger] ws[i]).len() <= total,
        total >= 0,
    ensures
        wrap_fold(ws, f, bold, mnum, mden).1.len() <= (total + 1) * ws.len(),
        forall|i: int| 0 <= i < wrap_fold(ws, f, bold, mnum, mden).0.len() ==> (#[trigger] wrap_fold(ws, f, bold, mnum, mden).0[i]).len() <= (total + 1) * ws.len(),
    decreases ws.len(),
{
    if ws.len() > 0 {
        let p = ws.drop_last();
        assert forall|i: int| 0 <= i < p.len() implies (#[trigger] p[i]).len() <= total by {
            assert(p[i] == ws[i]);
        }
        lemma_wrap_fold_len(p, f, bold, mnum, mden, total);
        assert(ws.last() == ws[ws.len() - 1]);
        let st = wrap_fold(p, f, bold, mnum, mden);
        assert((total + 1) * p.len() + 1 + total == (total + 1) * ws.len()) by (nonlinear_arith)
            requires p.len() + 1 == ws.len();
        assert((total + 1) * p.len() <= (total + 1) * ws.len()) by (nonlinear_arith)
            requires p.len() + 1 == ws.len(), total >= 0;
    }
}

/// Wraps `text` to lines at most `mnum / mden` wide, see [`wrap_spec`].
pub fn wrap_width(text: &[char], fontpx: Dec, bold: bool, mnum: i128, mden: i128) -> (r: Vec<Vec<char>>)
    requires
        fontpx.wf(),
        text@.len() < 0x1000_0000,
        1 <= mden <= 0x1_0000,
        -0x1000_0000_0000_0000_0000 < mnum < 0x1000_0000_0000_0000_0000,
    ensures
        views(r@) == wrap_spec(text@, fontpx, bold, mnum as int, mden as int),
        r@.len() >= 1,
        forall|i: int| 0 <= i < r@.len() ==> (#[trigger] r@[i])@.len() < 0x1_0000_0000,
        sum_lens_plus(views(r@)) <= text@.len() + 1,
{
    let sp: Vec<char> = vec![' '];
    assert(sp@ =~= seq![' ']);
    let joined = replace_char_exec(text, '\n', sp.as_slice());
    proof {
        lemma_replace_nl_len(text@);
    }
    let ws = crate::text::words_of(joined.as_slice());
    proof {
        crate::text::lemma_words_len(joined@);
    }
    if ws.len() == 0 {
        let mut r: Vec<Vec<char>> = Vec::new();
        r.push(Vec::new());
        assert(views(r@) =~= seq![Seq::<char>::empty()]);
        assert(views(r@).drop_last() =~= Seq::<Seq<char>>::empty());
        assert(views(r@).last() =~= Seq::<char>::empty());
        assert(sum_lens_plus(Seq::<Seq<char>>::empty()) == 0);
        assert(sum_lens_plus(views(r@)) == 1);
        return r;
    }
    let den = dec_den(fontpx);
    let mut lines: Vec<Vec<char>> = Vec::new();
    let mut cur: Vec<char> = Vec::new();
    let ghost total = joined@.len() as int;
    let ghost vws = views(ws@);
    proof {
        assert forall|k: int| 0 <= k < ws@.len() implies (#[trigger] ws@[k])@.len() > 0 by {
            assert(vws[k] == ws@[k]@);
        }
    }
    let mut i: usize = 0;
    while i < ws.len()
        invariant
            i <= ws@.len(),
            vws == views(ws@),
            vws == words(joined@),
            total == joined@.len(),
            total < 0x1000_0000,
            sum_lens_plus(vws) <= total + 1,
            forall|k: int| 0 <= k < ws@.len() ==> (#[trigger] ws@[k])@.len() > 0,
            fontpx.wf(),
            den == fontpx.den(),
            1 <= den <= 1_000_000,
            1 <= mden <= 0x1_0000,
            -0x1000_0000_0000_0000_0000 < mnum < 0x1000_0000_0000_0000_0000,
            wrap_fold(vws.take(i as int), fontpx, bold, mnum as int, mden as int) == (views(lines@), cur@),
            cur@.len() <= sum_lens_plus(vws.take(i as int)),
            i > 0 ==> cur@.len() > 0,
            forall|k: int| 0 <= k < lines@.len() ==> (#[trigger] lines@[k])@.len() <= sum_lens_plus(vws.take(i as int)),
            sum_lens_plus(views(lines@)) + (if cur@.len() > 0 { cur@.len() + 1int } else { 0int }) == sum_lens_plus(vws.take(i as int)),
        decreases ws.len() - i,
    {
        let w = &ws[i];
        proof {
            assert(vws.take(i + 1).drop_last() =~= vws.take(i as int));
            assert(vws.take(i + 1).last() == w@);
            lemma_sum_lens_plus_prefix(vws, i + 1);
        }
        let mut trial: Vec<char> = Vec::new();
        if cur.len() == 0 {
            push_all(&mut trial, w.as_slice());
            assert(trial@ =~= w@);
        } else {
            push_all(&mut trial, cur.as_slice());
            trial.push(' ');
            push_all(&mut trial, w.as_slice());
            assert(trial@ =~= cur@ + seq![' '] + w@);
        }
        let fits = if cur.len() == 0 {
            true
        } else {
            let u = text_units_exec(trial.as_slice(), bold);
            proof {
                assert(u <= 6240 * 0x1000_0001);
                assert(fontpx.num * u * mden <= 0x1_0000_0000_0000_0000_0000_0000_0000) by (nonlinear_arith)
                    requires -1_000_000_000_000_000 < fontpx.num < 1_000_000_000_000_000, 0 <= u <= 6240 * 0x1000_0001, 1 <= mden <= 0x1_0000;
                assert(fontpx.num * u * mden >= -0x1_0000_0000_0000_0000_0000_0000_0000) by (nonlinear_arith)
                    requires -1_000_000_000_000_000 < fontpx.num < 1_000_000_000_000_000, 0 <= u <= 6240 * 0x1000_0001, 1 <= mden <= 0x1_0000;
                assert(mnum * den * 10000 <= 0x1_0000_0000_0000_0000_0000_0000_0000) by (nonlinear_arith)
                    requires -0x1000_0000_0000_0000_0000 < mnum < 0x1000_0000_0000_0000_0000, 1 <= den <= 1_000_000;
                assert(mnum * den * 10000 >= -0x1_0000_0000_0000_0000_0000_0000_0000) by (nonlinear_arith)
                    requires -0x1000_0000_0000_0000_0000 < mnum < 0x1000_0000_0000_0000_0000, 1 <= den <= 1_000_000;
                assert(fontpx.num * u * mden == (fontpx.num * u) * mden);
            }
            assert(-0x1_0000_0000_0000_0000_0000_0000 <= fontpx.num * u <= 0x1_0000_0000_0000_0000_0000_0000) by (nonlinear_arith)
                requires -1_000_000_000_000_000 < fontpx.num < 1_000_000_000_000_000, 0 <= u <= 6240 * 0x1000_0001;
            assert(-0x1_0000_0000_0000_0000_0000_0000 <= mnum * den <= 0x1_0000_0000_0000_0000_0000_0000) by (nonlinear_arith)
                requires -0x1000_0000_0000_0000_0000 < mnum < 0x1000_0000_0000_0000_0000, 1 <= den <= 1_000_000;
            let a: i128 = fontpx.num as i128 * u as i128;
            assert(-0x1_0000_0000_0000_0000_0000_0000_0000 <= a * mden <= 0x1_0000_0000_0000_0000_0000_0000_0000) by (nonlinear_arith)
                requires -0x1_0000_0000_0000_0000_0000_0000 <= a <= 0x1_0000_0000_0000_0000_0000_0000, 1 <= mden <= 0x1_0000;
            let b: i128 = a * mden;
            let c: i128 = mnum * den as i128;
            assert(fits_width(trial@, fontpx, bold, mnum as int, mden as int) == (b <= c * 10000)) by {
                assert(b == fontpx.num * text_units(trial@, bold) * mden);
            }
            b <= c * 10000
        };
        if fits {
            cur = trial;
        } else {
            let ghost before = views(lines@);
            lines.push(cur);
            assert(views(lines@) =~= before.push(cur@));
            assert(views(lines@).drop_last() =~= before);
            cur = slice_chars(w.as_slice(), 0, w.len());
            assert(cur@ =~= w@);
        }
        i += 1;
    }
    assert(vws.take(ws@.len() as int) =~= vws);
    if cur.len() > 0 {
        let ghost before = views(lines@);
        lines.push(cur);
        assert(views(lines@) =~= before.push(cur@));
        assert(views(lines@).drop_last() =~= before);
    }
    lines
}

pub proof fn lemma_replace_nl_len(s: Seq<char>)
    ensures
        replace_char(s, '\n', seq![' ']).len() == s.len(),
    decreases s.len(),
{
    if s.len() > 0 {
        lemma_replace_nl_len(s.drop_last());
    }
}

// ------------------------------------------------------------------ laws of wrapping

proof fn lemma_join_push_sep(a: Seq<Seq<char>>, x: Seq<char>, sep: Seq<char>, y: Seq<char>)
    ensures
        join(a.push(x + sep + y), sep) == join(a.push(x), sep) + sep + y,
{
    if a.len() == 0 {
        assert(a.push(x + sep + y) =~= seq![x + sep + y]);
        assert(a.push(x) =~= seq![x]);
        assert(seq![x + sep + y][0] == x + sep + y);
        assert(seq![x][0] == x);
    } else {
        assert(a.push(x + sep + y).drop_last() =~= a);
        assert(a.push(x).drop_last() =~= a);
    }
}

proof fn lemma_wrap_fold_join(ws: Seq<Seq<char>>, f: Dec, bold: bool, mnum: int, mden: int)
    requires
        forall|i: int| 0 <= i < ws.len() ==> (#[trigger] ws[i]).len() > 0,
    ensures
        (wrap_fold(ws, f, bold, mnum, mden).1.len() > 0) == (ws.len() > 0),
        ws.len() == 0 ==> wrap_fold(ws, f, bold, mnum, mden).0.len() == 0,
        ws.len() > 0 ==> join(
            wrap_fold(ws, f, bold, mnum, mden).0.push(wrap_fold(ws, f, bold, mnum, mden).1),
            seq![' '],
        ) == join(ws, seq![' ']),
    decreases ws.len(),
{
    if ws.len() > 0 {
        let p = ws.drop_last();
        assert forall|i: int| 0 <= i < p.len() implies (#[trigger] p[i]).len() > 0 by {
            assert(p[i] == ws[i]);
        }
        lemma_wrap_fold_join(p, f, bold, mnum, mden);
        let st = wrap_fold(p, f, bold, mnum, mden);
        let w = ws.last();
        assert(w == ws[ws.len() - 1]);
        if p.len() == 0 {
            assert(ws =~= seq![w]);
            assert(st.0.push(w) =~= seq![w]);
        } else {
            let trial = st.1 + seq![' '] + w;
            if fits_width(trial, f, bold, mnum, mden) {
                lemma_join_push_sep(st.0, st.1, seq![' '], w);
            } else {
                assert(st.0.push(st.1).push(w).drop_last() =~= st.0.push(st.1));
            }
        }
    }
}

/// Wrapping keeps every word of the text, in order: the lines joined with
/// spaces are the words joined with spaces (line breaks count as spaces).
pub proof fn law_wrap_keeps_words(text: Seq<char>, f: Dec, bold: bool, mnum: int, mden: int)
    ensures
        join(wrap_spec(text, f, bold, mnum, mden), seq![' ']) == join(
            words(replace_char(text, '\n', seq![' '])),
            seq![' '],
        ),
{
    let ws = words(replace_char(text, '\n', seq![' ']));
    crate::text::lemma_words_len(replace_char(text, '\n', seq![' ']));
    lemma_wrap_fold_join(ws, f, bold, mnum, mden);
    if ws.len() == 0 {
        assert(seq![Seq::<char>::empty()][0] == Seq::<char>::empty());
    }
}

/// A wrapped line is acceptable: within the width, or one word that no
/// width can split.
pub open spec fn line_ok(l: Seq<char>, f: Dec, bold: bool, mnum: int, mden: int) -> bool {
    fits_width(l, f, bold, mnum, mden) || !l.contains(' ')
}

proof fn lemma_words_no_space(s: Seq<char>)
    ensures
        forall|i: int| 0 <= i < words(s).len() ==> !(#[trigger] words(s)[i]).contains(' '),
{
    crate::text::lemma_words_no_ws(s);
    assert forall|i: int| 0 <= i < words(s).len() implies !(#[trigger] words(s)[i]).contains(' ') by {
        let w = words(s)[i];
        assert(crate::text::no_ws(w));
        if w.contains(' ') {
            let j = choose|j: int| 0 <= j < w.len() && w[j] == ' ';
            assert(!crate::text::is_ws(w[j]));
        }
    }
}

proof fn lemma_wrap_fold_ok(ws: Seq<Seq<char>>, f: Dec, bold: bool, mnum: int, mden: int)
    requires
        forall|i: int| 0 <= i < ws.len() ==> !(#[trigger] ws[i]).contains(' '),
    ensures
        forall|i: int|
            0 <= i < wrap_fold(ws, f, bold, mnum, mden).0.len() ==> line_ok(
                #[trigger] wrap_fold(ws, f, bold, mnum, mden).0[i],
                f,
                bold,
                mnum,
                mden,
            ),
        line_ok(wrap_fold(ws, f, bold, mnum, mden).1, f, bold, mnum, mden),
    decreases ws.len(),
{
    if ws.len() > 0 {
        let p = ws.drop_last();
        assert forall|i: int| 0 <= i < p.len() implies !(#[trigger] p[i]).contains(' ') by {
            assert(p[i] == ws[i]);
        }
        lemma_wrap_fold_ok(p, f, bold, mnum, mden);
        let st = wrap_fold(p, f, bold, mnum, mden);
        let w = ws.last();
        assert(w == ws[ws.len() - 1]);
        let n = wrap_fold(ws, f, bold, mnum, mden);
        assert forall|i: int| 0 <= i < n.0.len() implies line_ok(#[trigger] n.0[i], f, bold, mnum, mden) by {
            if i < st.0.len() {
                assert(n.0[i] == st.0[i]);
            }
        }
    } else {
        assert(!Seq::<char>::empty().contains(' '));
    }
}

/// Every wrapped line is within the width, or is a single word.
pub proof fn law_wrap_lines_fit(text: Seq<char>, f: Dec, bold: bool, mnum: int, mden: int)
    ensures
        forall|i: int|
            0 <= i < wrap_spec(text, f, bold, mnum, mden).len() ==> line_ok(
                #[trigger] wrap_spec(text, f, bold, mnum, mden)[i],
                f,
                bold,
                mnum,
                mden,
            ),
{
    let ws = words(replace_char(text, '\n', seq![' ']));
    lemma_words_no_space(replace_char(text, '\n', seq![' ']));
    lemma_wrap_fold_ok(ws, f, bold, mnum, mden);
    let r = wrap_spec(text, f, bold, mnum, mden);
    if ws.len() == 0 {
        assert(r =~= seq![Seq::<char>::empty()]);
        assert(!Seq::<char>::empty().contains(' '));
    } else {
        let st = wrap_fold(ws, f, bold, mnum, mden);
        assert forall|i: int| 0 <= i < r.len() implies line_ok(#[trigger] r[i], f, bold, mnum, mden) by {
            if i < st.0.len() {
                assert(r[i] == st.0[i]);
            }
        }
    }
}

/// The alignment codes of the style names: 2 exactly for `bottom`, 5
/// exactly for `middle`, 8 exactly for `top`, and none for any other name
/// or no name.
pub proof fn law_align_codes(o: Option<String>)
    ensures
        align_num_spec(o) == Some(2int) <==> (o matches Some(x) && x@ == "bottom"@),
        align_num_spec(o) == Some(5int) <==> (o matches Some(x) && x@ == "middle"@),
        align_num_spec(o) == Some(8int) <==> (o matches Some(x) && x@ == "top"@),
        align_num_spec(o) is None <==> !(o matches Some(x) && (x@ == "bottom"@ || x@ == "middle"@
            || x@ == "top"@)),
{
    reveal_strlit("top");
    reveal_strlit("bottom");
    reveal_strlit("middle");
    assert("top"@.len() == 3 && "bottom"@.len() == 6 && "middle"@.len() == 6);
    assert("bottom"@[0] == 'b' && "middle"@[0] == 'm');
    assert("bottom"@ != "middle"@);
}

/// `ps[k]` stands in `join(ps, sep)`, with what comes before and after it.
proof fn lemma_join_has(ps: Seq<Seq<char>>, sep: Seq<char>, k: int) -> (r: (Seq<char>, Seq<char>))
    requires
        0 <= k < ps.len(),
    ensures
        join(ps, sep) == r.0 + ps[k] + r.1,
    decreases ps.len(),
{
    if ps.len() == 1 {
        assert(join(ps, sep) =~= seq![] + ps[k] + seq![]);
        (seq![], seq![])
    } else if k == ps.len() - 1 {
        let a = join(ps.drop_last(), sep) + sep;
        assert(join(ps, sep) =~= a + ps[k] + seq![]);
        (a, seq![])
    } else {
        let (a, b) = lemma_join_has(ps.drop_last(), sep, k);
        assert(ps.drop_last()[k] == ps[k]);
        let b2 = b + sep + ps.last();
        assert(join(ps, sep) =~= a + ps[k] + b2);
        (a, b2)
    }
}

/// The `force_style` of a style named `top`, `middle` or `bottom` sets its
/// alignment: it holds `Alignment=8`, `Alignment=5` or `Alignment=2`.
pub proof fn law_force_style_alignment(s: Style)
    ensures
        (s.align matches Some(x) && x@ == "top"@) ==> exists|a: Seq<char>, b: Seq<char>|
            force_style_spec(Some(s)) == a + "Alignment=8"@ + b,
        (s.align matches Some(x) && x@ == "middle"@) ==> exists|a: Seq<char>, b: Seq<char>|
            force_style_spec(Some(s)) == a + "Alignment=5"@ + b,
        (s.align matches Some(x) && x@ == "bottom"@) ==> exists|a: Seq<char>, b: Seq<char>|
            force_style_spec(Some(s)) == a + "Alignment=2"@ + b,
{
    law_align_codes(s.align);
    reveal_strlit("Alignment=");
    reveal_strlit("Alignment=8");
    reveal_strlit("Alignment=5");
    reveal_strlit("Alignment=2");
    match align_num_spec(s.align) {
        Some(c) => {
            let ps = head_parts(s) + fill_parts(s) + border_parts(s) + tail_parts(s);
            let k: int = (head_parts(s).len() + fill_parts(s).len() + border_parts(s).len()) as int;
            assert(tail_parts(s)[0] == "Alignment="@ + int_str(c));
            assert(ps[k] == tail_parts(s)[0]);
            let (a, b) = lemma_join_has(ps, seq![','], k);
            assert(force_style_spec(Some(s)) == a + ("Alignment="@ + int_str(c)) + b);
            if c == 8 {
                assert(int_str(8) =~= seq!['8']);
                assert("Alignment="@ + int_str(c) =~= "Alignment=8"@);
            } else if c == 5 {
                assert(int_str(5) =~= seq!['5']);
                assert("Alignment="@ + int_str(c) =~= "Alignment=5"@);
            } else if c == 2 {
                assert(int_str(2) =~= seq!['2']);
                assert("Alignment="@ + int_str(c) =~= "Alignment=2"@);
            }
        },
        None => {},
    }
}

} // verus!
