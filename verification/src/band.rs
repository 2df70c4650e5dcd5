//! The boxed-band subtitle file: each page of a cue drawn as a filled box
//! sized to its text, with the text over it.
use vstd::prelude::*;
use crate::ass::{
    align_num, align_num_spec, ass_alpha_spec, ass_bgr_spec, color_or_ok, dec_den,
    hex_to_ass_spec, or_default, parse_f, parse_f_spec, wrap_spec, text_units, Style,
};
use crate::num::{
    fmt_g_spec, int_str, round_half_away, round_half_away_exec, round_half_even,
    round_half_even_exec, trunc_div, trunc_div_exec, Dec,
};
use crate::srt::{cue_views, Cue, CueView};
use crate::text::{join, replace_char, sum_lens_plus, views};
use crate::ass::{ass_time_frac, ass_time_spec, text_units_exec};
use crate::num::fmt_i64;
use crate::text::{push_all, push_str, replace_char_exec, to_chars};
use crate::ass::{
    ass_alpha, ass_bgr, dec_one, dec_zero, hex_ok, hex_to_ass, lemma_hex_ok_plain, wrap_width,
};
use crate::num::fmt_g;
use crate::text::{from_chars, join_chars};

verus! {

/// The geometry and style values that the band file is laid out with.
/// Pad sizes are numerators over `g`.
#[derive(Clone, Copy, Debug)]
pub struct BandLayout {
    pub play_x: i64,
    pub side: i64,
    pub g: i64,
    pub pad_x: i64,
    pub pad_top: i64,
    pub pad_bot: i64,
    pub font: Dec,
    pub bold: bool,
    pub align: i64,
    pub margin_v: i64,
}

/// The layout for a video of `width` x `height` pixels: the script is 288
/// units high and as wide as the picture's shape gives (at least 320, at
/// most `i64::MAX`, where converting the width to an integer stops); side
/// margins are 4% of the width (at least 10); the box pads 5 pixels left,
/// right and below and 8 above, at least 1.5, 1.5 and 2 units.
pub open spec fn layout_spec(s: Style, width: int, height: int) -> BandLayout {
    let h = if height < 1 {
        1
    } else {
        height
    };
    let px = round_half_away(288 * width, h);
    let play_x = if px < 320 {
        320
    } else if px > i64::MAX {
        i64::MAX as int
    } else {
        px
    };
    let sd = round_half_away(play_x * 4, 100);
    let side = if sd < 10 {
        10
    } else {
        sd
    };
    let hh = if h <= 1152 {
        h
    } else {
        1
    };
    let pad_x = if h <= 960 {
        2880
    } else {
        3 * hh
    };
    let pad_top = if h <= 1152 {
        4608
    } else {
        4 * hh
    };
    let font = match parse_f_spec(s.size) {
        Some(d) => d,
        None => Dec { num: 16, scale: 0 },
    };
    let align = match align_num_spec(s.align) {
        Some(a) => a,
        None => 2,
    };
    let margin = match parse_f_spec(s.margin) {
        Some(d) => trunc_div(d.num as int, d.den()),
        None => 24,
    };
    BandLayout {
        play_x: play_x as i64,
        side: side as i64,
        g: (2 * hh) as i64,
        pad_x: pad_x as i64,
        pad_top: pad_top as i64,
        pad_bot: pad_x as i64,
        font,
        bold: s.bold,
        align: align as i64,
        margin_v: margin as i64,
    }
}

/// The bounds a layout keeps, which its arithmetic relies on.
pub open spec fn layout_ok(l: BandLayout) -> bool {
    &&& 320 <= l.play_x
    &&& 10 <= l.side
    &&& 2 * l.side < l.play_x
    &&& 2 <= l.g <= 2304
    &&& 0 <= l.pad_x <= 3456
    &&& 0 <= l.pad_top <= 4608
    &&& 0 <= l.pad_bot <= 3456
    &&& l.font.wf()
    &&& -1_000_000_000_000_000 < l.margin_v < 1_000_000_000_000_000
}

fn layout(s: &Style, width: i64, height: i64) -> (l: BandLayout)
    ensures
        l == layout_spec(*s, width as int, height as int),
        layout_ok(l),
{
    let h: i64 = if height < 1 {
        1
    } else {
        height
    };
    let px = round_half_away_exec(288 * width as i128, h as i128);
    let play_x: i128 = if px < 320 {
        320
    } else if px > 0x7fff_ffff_ffff_ffff {
        0x7fff_ffff_ffff_ffff
    } else {
        px
    };
    let sd = round_half_away_exec(play_x * 4, 100);
    assert(sd == (8 * play_x + 100) / 200);
    assert(2 * sd < play_x && sd >= 12) by (nonlinear_arith)
        requires sd == (8 * play_x + 100) / 200, play_x >= 320;
    let side: i128 = if sd < 10 {
        10
    } else {
        sd
    };
    let hh: i64 = if h <= 1152 {
        h
    } else {
        1
    };
    let pad_x: i64 = if h <= 960 {
        2880
    } else {
        3 * hh
    };
    let pad_top: i64 = if h <= 1152 {
        4608
    } else {
        4 * hh
    };
    let font = match parse_f(&s.size) {
        Some(d) => d,
        None => Dec { num: 16, scale: 0 },
    };
    let align = match align_num(&s.align) {
        Some(a) => a,
        None => 2,
    };
    let margin: i64 = match parse_f(&s.margin) {
        Some(d) => {
            let den = dec_den(d);
            let m = trunc_div_exec(d.num, den);
            assert(-1_000_000_000_000_000 < m < 1_000_000_000_000_000) by {
                if d.num >= 0 {
                    assert(d.num / den <= d.num) by (nonlinear_arith)
                        requires d.num >= 0, den >= 1;
                } else {
                    assert((-(d.num as int)) / (den as int) <= -(d.num as int)) by (nonlinear_arith)
                        requires d.num < 0, den >= 1;
                }
            }
            m
        },
        None => 24,
    };
    BandLayout {
        play_x: play_x as i64,
        side: side as i64,
        g: 2 * hh,
        pad_x,
        pad_top,
        pad_bot: pad_x,
        font,
        bold: s.bold,
        align,
        margin_v: margin,
    }
}

/// The widest box, in script units: the width less the side margins.
pub open spec fn max_box_w(l: BandLayout) -> int {
    l.play_x - 2 * l.side
}

/// The widest text line, as a numerator over `g`: the widest box less the pads.
pub open spec fn max_text_num(l: BandLayout) -> int {
    max_box_w(l) * l.g - 2 * l.pad_x
}

/// The width numerator (over `font.den() * 10000`) of the widest of `lines`,
/// at least 0.
pub open spec fn max_width_num(l: BandLayout, lines: Seq<Seq<char>>) -> int
    decreases lines.len(),
{
    if lines.len() == 0 {
        0
    } else {
        let prev = max_width_num(l, lines.drop_last());
        let w = l.font.num * text_units(lines.last(), l.bold);
        if w > prev {
            w
        } else {
            prev
        }
    }
}

/// The box width numerator over `font.den() * 10000 * g`: text plus pads,
/// at most the widest box.
pub open spec fn box_num(l: BandLayout, lines: Seq<Seq<char>>) -> int {
    let wd = l.font.den() * 10000;
    let b = max_width_num(l, lines) * l.g + 2 * l.pad_x * wd;
    let m = max_box_w(l) * wd * l.g;
    if b < m {
        b
    } else {
        m
    }
}

/// The box's left and right edges, centred and rounded (halves to even).
pub open spec fn box_x(l: BandLayout, lines: Seq<Seq<char>>) -> (int, int) {
    let d = l.font.den() * 10000 * l.g;
    let b = box_num(l, lines);
    let x1 = round_half_even(l.play_x * d - b, 2 * d);
    let x2 = round_half_even(x1 * d + b, d);
    (x1, x2)
}

/// The box's top and bottom edges for `n` lines, by alignment, rounded
/// (halves to even). Lines are 1.22 font sizes high.
pub open spec fn box_y(l: BandLayout, n: int) -> (int, int) {
    let den = l.font.den();
    let y = 200 * den * l.g;
    let bn = n * l.font.num * 122;
    let bh = bn * 2 * l.g;
    let pt = l.pad_top * 200 * den;
    let pb = l.pad_bot * 200 * den;
    let m = l.margin_v * y;
    let (y1, y2) = if l.align == 8 {
        (m - pt, m + bh + pb)
    } else if l.align == 5 {
        (144 * y - bn * l.g - pt, 144 * y + bn * l.g + pb)
    } else {
        ((288 - l.margin_v) * y - bh - pt, (288 - l.margin_v) * y + pb)
    };
    (round_half_even(y1, y), round_half_even(y2, y))
}

fn max_width_exec(l: &BandLayout, pg: &[Vec<char>]) -> (r: i128)
    requires
        layout_ok(*l),
        forall|i: int| 0 <= i < pg@.len() ==> (#[trigger] pg@[i])@.len() <= 0x1000_0000,
    ensures
        r == max_width_num(*l, views(pg@)),
        0 <= r <= 1_000_000_000_000_000 * 6240 * 0x1000_0000,
{
    let mut r: i128 = 0;
    let mut i: usize = 0;
    while i < pg.len()
        invariant
            i <= pg@.len(),
            layout_ok(*l),
            forall|k: int| 0 <= k < pg@.len() ==> (#[trigger] pg@[k])@.len() <= 0x1000_0000,
            r == max_width_num(*l, views(pg@.take(i as int))),
            0 <= r <= 1_000_000_000_000_000 * 6240 * 0x1000_0000,
        decreases pg.len() - i,
    {
        assert(views(pg@.take(i + 1)).drop_last() =~= views(pg@.take(i as int)));
        assert(views(pg@.take(i + 1)).last() == pg@[i as int]@);
        let ln = &pg[i];
        let u = text_units_exec(ln.as_slice(), l.bold);
        assert(-1_000_000_000_000_000 * 6240 * 0x1000_0000 <= l.font.num * u
            <= 1_000_000_000_000_000 * 6240 * 0x1000_0000) by (nonlinear_arith)
            requires
                -1_000_000_000_000_000 < l.font.num < 1_000_000_000_000_000,
                0 <= u <= 6240 * 0x1000_0000;
        let w: i128 = l.font.num as i128 * u as i128;
        if w > r {
            r = w;
        }
        i += 1;
    }
    assert(pg@.take(pg@.len() as int) =~= pg@);
    r
}

/// Rounding `n / d` halves to even exceeds it by at most a half.
proof fn lemma_rhe_upper(n: int, d: int)
    requires
        d > 0,
    ensures
        2 * (round_half_even(n, d) * d) <= 2 * n + d,
{
    vstd::arithmetic::div_mod::lemma_fundamental_div_mod(n, d);
    vstd::arithmetic::div_mod::lemma_mod_bound(n, d);
    let q = n / d;
    let r = n % d;
    assert(2 * (q * d) <= 2 * n + d) by (nonlinear_arith)
        requires n == d * q + r, 0 <= r < d;
    assert(2 * r >= d ==> 2 * ((q + 1) * d) <= 2 * n + d) by (nonlinear_arith)
        requires n == d * q + r, 0 <= r < d;
}

fn box_x_exec(l: &BandLayout, pg: &[Vec<char>]) -> (r: (i64, i64))
    requires
        layout_ok(*l),
        forall|i: int| 0 <= i < pg@.len() ==> (#[trigger] pg@[i])@.len() <= 0x1000_0000,
    ensures
        (r.0 as int, r.1 as int) == box_x(*l, views(pg@)),
{
    let den = dec_den(l.font) as i128;
    let g = l.g as i128;
    let wd = den * 10000;
    let mw = max_width_exec(l, pg);
    assert(0 <= mw * g <= 1_000_000_000_000_000 * 6240 * 0x1000_0000 * 2304) by (nonlinear_arith)
        requires 0 <= mw <= 1_000_000_000_000_000 * 6240 * 0x1000_0000, 2 <= g <= 2304;
    assert(0 <= 2 * l.pad_x * wd <= 2 * 3456 * 10_000_000_000) by (nonlinear_arith)
        requires 0 <= l.pad_x <= 3456, 10000 <= wd <= 10_000_000_000;
    let b0 = mw * g + 2 * l.pad_x as i128 * wd;
    let mbw = (l.play_x - 2 * l.side) as i128;
    assert(0 < mbw * wd <= 0x8000_0000_0000_0000 * 10_000_000_000) by (nonlinear_arith)
        requires 0 < mbw <= 0x8000_0000_0000_0000, 10000 <= wd <= 10_000_000_000;
    assert(mbw * wd * g <= 0x8000_0000_0000_0000 * 10_000_000_000 * 2304) by (nonlinear_arith)
        requires 0 < mbw * wd <= 0x8000_0000_0000_0000 * 10_000_000_000, 2 <= g <= 2304;
    let m = mbw * wd * g;
    let b = if b0 < m {
        b0
    } else {
        m
    };
    assert(0 < wd * g <= 10_000_000_000 * 2304) by (nonlinear_arith)
        requires 10000 <= wd <= 10_000_000_000, 2 <= g <= 2304;
    let d = wd * g;
    let px = l.play_x as i128;
    assert(mbw * wd * g == mbw * d) by (nonlinear_arith)
        requires d == wd * g;
    assert(px * d <= 0x8000_0000_0000_0000 * 10_000_000_000 * 2304) by (nonlinear_arith)
        requires 0 < px <= 0x8000_0000_0000_0000, 0 < d <= 10_000_000_000 * 2304;
    assert(0 <= px * d - b <= px * (2 * d)) by (nonlinear_arith)
        requires 0 <= b <= mbw * d, mbw == px - 2 * l.side, l.side >= 10, d > 0, px > 0;
    let x1 = round_half_even_exec(px * d - b, 2 * d);
    proof {
        crate::num::lemma_round_half_even_between(px * d - b, 2 * d, 0, px as int);
    }
    assert(0 <= x1 * d <= px * d) by (nonlinear_arith)
        requires 0 <= x1 <= px, d > 0;
    proof {
        lemma_rhe_upper(px * d - b, 2 * d);
    }
    assert(0 <= x1 * d + b <= px * d) by (nonlinear_arith)
        requires
            0 <= x1,
            2 * (x1 * (2 * d)) <= 2 * (px * d - b) + 2 * d,
            0 <= b <= mbw * d,
            mbw == px - 2 * l.side,
            l.side >= 10,
            d > 0;
    let x2 = round_half_even_exec(x1 * d + b, d);
    proof {
        crate::num::lemma_round_half_even_between(x1 * d + b, d as int, 0, px as int);
    }
    (x1 as i64, x2 as i64)
}

fn box_y_exec(l: &BandLayout, n: usize) -> (r: (i64, i64))
    requires
        layout_ok(*l),
        1 <= n <= 2,
    ensures
        (r.0 as int, r.1 as int) == box_y(*l, n as int),
{
    let den = dec_den(l.font) as i128;
    let g = l.g as i128;
    assert(400 <= 200 * den * g <= 200 * 1_000_000 * 2304) by (nonlinear_arith)
        requires 1 <= den <= 1_000_000, 2 <= g <= 2304;
    let y = 200 * den * g;
    let num = l.font.num as i128;
    let bn: i128 = if n == 1 {
        num * 122
    } else {
        2 * num * 122
    };
    assert(bn == n * l.font.num * 122) by (nonlinear_arith)
        requires (n == 1 && bn == num * 122) || (n == 2 && bn == 2 * num * 122), num == l.font.num;
    let k: i128 = 1_220_000_000_000_000;
    assert(-k * y <= bn * g <= k * y) by (nonlinear_arith)
        requires
            -244_000_000_000_000_000 <= bn <= 244_000_000_000_000_000,
            y == 200 * den * g, den >= 1, g >= 2, k == 1_220_000_000_000_000;
    assert(-244_000_000_000_000_000 * 2304 <= bn * g <= 244_000_000_000_000_000 * 2304) by (nonlinear_arith)
        requires -244_000_000_000_000_000 <= bn <= 244_000_000_000_000_000, 2 <= g <= 2304;
    assert(bn * 2 * g == 2 * (bn * g)) by (nonlinear_arith);
    let bg = bn * g;
    let bh = bn * 2 * g;
    assert(bh == 2 * bg) by (nonlinear_arith)
        requires bh == bn * 2 * g, bg == bn * g;
    assert(0 <= l.pad_top * 200 * den <= 2304 * y) by (nonlinear_arith)
        requires 0 <= l.pad_top <= 4608, y == 200 * den * g, den >= 1, g >= 2;
    assert(0 <= l.pad_bot * 200 * den <= 1728 * y) by (nonlinear_arith)
        requires 0 <= l.pad_bot <= 3456, y == 200 * den * g, den >= 1, g >= 2;
    let pt = l.pad_top as i128 * 200 * den;
    let pb = l.pad_bot as i128 * 200 * den;
    let mv = l.margin_v as i128;
    let c: i128 = 1_000_000_000_000_000;
    assert(-c * y <= mv * y <= c * y) by (nonlinear_arith)
        requires -1_000_000_000_000_000 < mv < 1_000_000_000_000_000, y > 0, c == 1_000_000_000_000_000;
    assert(-(c + 288) * y <= (288 - mv) * y <= (c + 288) * y) by (nonlinear_arith)
        requires -1_000_000_000_000_000 < mv < 1_000_000_000_000_000, y > 0, c == 1_000_000_000_000_000;
    assert(-1_000_000_000_000_288 * 460_800_000_000 <= (288 - mv) * y <= 1_000_000_000_000_288 * 460_800_000_000) by (nonlinear_arith)
        requires -1_000_000_000_000_000 < mv < 1_000_000_000_000_000, 0 < y <= 460_800_000_000;
    assert(-c * (200 * 1_000_000 * 2304) <= mv * y <= c * (200 * 1_000_000 * 2304)) by (nonlinear_arith)
        requires -1_000_000_000_000_000 < mv < 1_000_000_000_000_000, 0 < y <= 200 * 1_000_000 * 2304, c == 1_000_000_000_000_000;
    let m = mv * y;
    let ym = (288 - mv) * y;
    let y1: i128;
    let y2: i128;
    if l.align == 8 {
        y1 = m - pt;
        y2 = m + bh + pb;
    } else if l.align == 5 {
        y1 = 144 * y - bg - pt;
        y2 = 144 * y + bg + pb;
    } else {
        y1 = ym - bh - pt;
        y2 = ym + pb;
    }
    let lim: i128 = 4_000_000_000_000_000;
    assert(-lim * y <= y1 <= lim * y && -lim * y <= y2 <= lim * y) by (nonlinear_arith)
        requires
            -k * y <= bg <= k * y, bh == 2 * bg, 0 <= pt <= 2304 * y, 0 <= pb <= 1728 * y,
            -c * y <= m <= c * y, -(c + 288) * y <= ym <= (c + 288) * y, y > 0,
            k == 1_220_000_000_000_000, c == 1_000_000_000_000_000, lim == 4_000_000_000_000_000,
            (y1 == m - pt && y2 == m + bh + pb) || (y1 == 144 * y - bg - pt && y2 == 144 * y + bg + pb)
                || (y1 == ym - bh - pt && y2 == ym + pb);
    let r1 = round_half_even_exec(y1, y);
    let r2 = round_half_even_exec(y2, y);
    proof {
        crate::num::lemma_round_half_even_between(y1 as int, y as int, -lim, lim as int);
        crate::num::lemma_round_half_even_between(y2 as int, y as int, -lim, lim as int);
    }
    (r1 as i64, r2 as i64)
}

// ------------------------------------------------------------------ pages and events

/// How many pages of two lines `lines` fill.
pub open spec fn page_count(lines: Seq<Seq<char>>) -> int {
    (lines.len() as int + 1) / 2
}

/// Page `k`: lines `2k` and `2k + 1`; the last page may hold one line.
pub open spec fn page(lines: Seq<Seq<char>>, k: int) -> Seq<Seq<char>> {
    lines.subrange(
        2 * k,
        if 2 * k + 2 <= lines.len() {
            2 * k + 2
        } else {
            lines.len() as int
        },
    )
}

/// The number of characters in `ls`, over all its lines.
pub open spec fn lens_sum(ls: Seq<Seq<char>>) -> int
    decreases ls.len(),
{
    if ls.len() == 0 {
        0
    } else {
        lens_sum(ls.drop_last()) + ls.last().len()
    }
}

/// A page's share of its cue's time: its number of characters, at least 1.
pub open spec fn page_weight(pg: Seq<Seq<char>>) -> int {
    if lens_sum(pg) == 0 {
        1
    } else {
        lens_sum(pg)
    }
}

/// The summed weight of the pages before page `k`.
pub open spec fn weight_before(lines: Seq<Seq<char>>, k: int) -> int
    decreases k,
{
    if k <= 0 {
        0
    } else {
        weight_before(lines, k - 1) + page_weight(page(lines, k - 1))
    }
}

/// When page `k` of a cue shows, as a fraction `(num, den)` of milliseconds:
/// the cue's start plus the share of its duration (taken as 0 when negative)
/// that the pages before it weigh.
pub open spec fn page_start(c: CueView, lines: Seq<Seq<char>>, k: int) -> (int, int) {
    let total = weight_before(lines, page_count(lines));
    let dur = if c.1 - c.0 < 0 {
        0
    } else {
        c.1 - c.0
    };
    (c.0 * total + dur * weight_before(lines, k), total)
}

/// When page `k` ends: where the next page starts, or the cue's end for the
/// last page.
pub open spec fn page_end(c: CueView, lines: Seq<Seq<char>>, k: int) -> (int, int) {
    if k == page_count(lines) - 1 {
        (c.1, 1)
    } else {
        page_start(c, lines, k + 1)
    }
}

/// The time fields of an event shown from `st` to `en`, with the `Text`
/// style and zero margins after them.
pub open spec fn event_times(st: (int, int), en: (int, int)) -> Seq<char> {
    ass_time_spec(st.0, st.1) + seq![','] + ass_time_spec(en.0, en.1) + ",Text,,0,0,0,,"@
}

/// The drawing of a filled box from `(x.0, y.0)` to `(x.1, y.1)` in the band
/// colour and alpha.
pub open spec fn band_body(bgr: Seq<char>, alpha: Seq<char>, x: (int, int), y: (int, int)) -> Seq<char> {
    "{\\p1\\an7\\pos(0,0)\\1c"@ + bgr + "\\1a"@ + alpha + "\\bord0\\shad0}m "@ + int_str(x.0) + seq![' ']
        + int_str(y.0) + " l "@ + int_str(x.1) + seq![' '] + int_str(y.0) + seq![' '] + int_str(x.1)
        + seq![' '] + int_str(y.1) + seq![' '] + int_str(x.0) + seq![' '] + int_str(y.1) + "{\\p0}"@
}

/// The two events of one page shown from `st` to `en`: its box on layer 0,
/// its lines joined by `\N` on layer 1.
pub open spec fn page_pair(
    l: BandLayout,
    bgr: Seq<char>,
    alpha: Seq<char>,
    pg: Seq<Seq<char>>,
    st: (int, int),
    en: (int, int),
) -> Seq<Seq<char>> {
    let t = event_times(st, en);
    seq![
        "Dialogue: 0,"@ + t + band_body(bgr, alpha, box_x(l, pg), box_y(l, pg.len() as int)),
        "Dialogue: 1,"@ + t + join(pg, "\\N"@),
    ]
}

fn push_int(v: &mut Vec<char>, i: i64)
    ensures
        final(v)@ == old(v)@ + int_str(i as int),
{
    let d = fmt_i64(i);
    push_all(v, d.as_slice());
}

fn band_body_exec(bgr: &[char], alpha: &[char], x: (i64, i64), y: (i64, i64)) -> (r: Vec<char>)
    ensures
        r@ == band_body(bgr@, alpha@, (x.0 as int, x.1 as int), (y.0 as int, y.1 as int)),
{
    let mut v: Vec<char> = Vec::new();
    push_str(&mut v, "{\\p1\\an7\\pos(0,0)\\1c");
    push_all(&mut v, bgr);
    push_str(&mut v, "\\1a");
    push_all(&mut v, alpha);
    push_str(&mut v, "\\bord0\\shad0}m ");
    push_int(&mut v, x.0);
    v.push(' ');
    push_int(&mut v, y.0);
    push_str(&mut v, " l ");
    push_int(&mut v, x.1);
    v.push(' ');
    push_int(&mut v, y.0);
    v.push(' ');
    push_int(&mut v, x.1);
    v.push(' ');
    push_int(&mut v, y.1);
    v.push(' ');
    push_int(&mut v, x.0);
    v.push(' ');
    push_int(&mut v, y.1);
    push_str(&mut v, "{\\p0}");
    assert(v@ =~= band_body(bgr@, alpha@, (x.0 as int, x.1 as int), (y.0 as int, y.1 as int)));
    v
}

/// What the time arithmetic of a page needs of a fraction.
pub open spec fn time_ok(t: (int, int)) -> bool {
    &&& 1 <= t.1 < 0x1_0000_0000_0000_0000_0000
    &&& -0x1000_0000_0000_0000_0000_0000_0000 < t.0 < 0x1000_0000_0000_0000_0000_0000_0000
    &&& t.0 < t.1 * 0x1_0000_0000_0000_0000
}

fn event_times_exec(st: (i128, i128), en: (i128, i128)) -> (r: Vec<char>)
    requires
        time_ok((st.0 as int, st.1 as int)),
        time_ok((en.0 as int, en.1 as int)),
    ensures
        r@ == event_times((st.0 as int, st.1 as int), (en.0 as int, en.1 as int)),
{
    let mut v: Vec<char> = Vec::new();
    ass_time_frac(&mut v, st.0, st.1);
    v.push(',');
    ass_time_frac(&mut v, en.0, en.1);
    push_str(&mut v, ",Text,,0,0,0,,");
    assert(v@ =~= event_times((st.0 as int, st.1 as int), (en.0 as int, en.1 as int)));
    v
}

fn box_event(l: &BandLayout, bgr: &[char], alpha: &[char], pg: &[Vec<char>], times: &[char]) -> (r: Vec<char>)
    requires
        layout_ok(*l),
        1 <= pg@.len() <= 2,
        forall|i: int| 0 <= i < pg@.len() ==> (#[trigger] pg@[i])@.len() <= 0x1000_0000,
    ensures
        r@ == "Dialogue: 0,"@ + times@ + band_body(bgr@, alpha@, box_x(*l, views(pg@)), box_y(*l, views(pg@).len() as int)),
{
    let x = box_x_exec(l, pg);
    let y = box_y_exec(l, pg.len());
    let body = band_body_exec(bgr, alpha, x, y);
    let mut d: Vec<char> = Vec::new();
    push_str(&mut d, "Dialogue: 0,");
    push_all(&mut d, times);
    push_all(&mut d, body.as_slice());
    d
}

fn text_event(pg: &[Vec<char>], times: &[char]) -> (r: Vec<char>)
    ensures
        r@ == "Dialogue: 1,"@ + times@ + join(views(pg@), "\\N"@),
{
    let sep: Vec<char> = vec!['\\', 'N'];
    assert(sep@ =~= "\\N"@) by {
        reveal_strlit("\\N");
    }
    let text = crate::text::join_chars(pg, sep.as_slice());
    let mut d: Vec<char> = Vec::new();
    push_str(&mut d, "Dialogue: 1,");
    push_all(&mut d, times);
    push_all(&mut d, text.as_slice());
    d
}

fn push_page(
    out: &mut Vec<Vec<char>>,
    l: &BandLayout,
    bgr: &[char],
    alpha: &[char],
    pg: &[Vec<char>],
    st: (i128, i128),
    en: (i128, i128),
)
    requires
        layout_ok(*l),
        1 <= pg@.len() <= 2,
        forall|i: int| 0 <= i < pg@.len() ==> (#[trigger] pg@[i])@.len() <= 0x1000_0000,
        time_ok((st.0 as int, st.1 as int)),
        time_ok((en.0 as int, en.1 as int)),
    ensures
        views(final(out)@) == views(old(out)@) + page_pair(
            *l,
            bgr@,
            alpha@,
            views(pg@),
            (st.0 as int, st.1 as int),
            (en.0 as int, en.1 as int),
        ),
{
    let times = event_times_exec(st, en);
    let d0 = box_event(l, bgr, alpha, pg, times.as_slice());
    let d1 = text_event(pg, times.as_slice());
    let ghost before = views(out@);
    out.push(d0);
    out.push(d1);
    assert(views(out@) =~= before + page_pair(*l, bgr@, alpha@, views(pg@), (st.0 as int, st.1 as int), (en.0 as int, en.1 as int)));
}

// ------------------------------------------------------------------ cues

/// The events of the first `k` pages of a cue wrapped to `lines`, in order.
pub open spec fn events_upto(
    l: BandLayout,
    bgr: Seq<char>,
    alpha: Seq<char>,
    c: CueView,
    lines: Seq<Seq<char>>,
    k: int,
) -> Seq<Seq<char>>
    decreases k,
{
    if k <= 0 {
        seq![]
    } else {
        events_upto(l, bgr, alpha, c, lines, k - 1) + page_pair(
            l,
            bgr,
            alpha,
            page(lines, k - 1),
            page_start(c, lines, k - 1),
            page_end(c, lines, k - 1),
        )
    }
}

/// A cue's text with braces turned into parentheses, so that it holds no
/// override tags.
pub open spec fn cue_text(c: CueView) -> Seq<char> {
    replace_char(replace_char(c.2, '{', seq!['(']), '}', seq![')'])
}

/// A cue's text wrapped to the widest text line of the layout.
pub open spec fn cue_wrap(l: BandLayout, c: CueView) -> Seq<Seq<char>> {
    wrap_spec(cue_text(c), l.font, l.bold, max_text_num(l), l.g as int)
}

/// The events of one cue: two for each of its pages.
pub open spec fn cue_events(l: BandLayout, bgr: Seq<char>, alpha: Seq<char>, c: CueView) -> Seq<Seq<char>> {
    let lines = cue_wrap(l, c);
    events_upto(l, bgr, alpha, c, lines, page_count(lines))
}

pub proof fn lemma_replace_char_len(s: Seq<char>, c: char, r: Seq<char>)
    requires
        r.len() == 1,
    ensures
        replace_char(s, c, r).len() == s.len(),
    decreases s.len(),
{
    if s.len() > 0 {
        lemma_replace_char_len(s.drop_last(), c, r);
    }
}

pub proof fn lemma_sum_lens_plus_ge(ls: Seq<Seq<char>>)
    ensures
        forall|i: int| 0 <= i < ls.len() ==> (#[trigger] ls[i]).len() + 1 <= sum_lens_plus(ls),
        ls.len() <= sum_lens_plus(ls),
    decreases ls.len(),
{
    if ls.len() > 0 {
        lemma_sum_lens_plus_ge(ls.drop_last());
        assert forall|i: int| 0 <= i < ls.len() implies (#[trigger] ls[i]).len() + 1 <= sum_lens_plus(ls) by {
            if i < ls.len() - 1 {
                assert(ls[i] == ls.drop_last()[i]);
            }
        }
    }
}

pub proof fn lemma_sum_lens_plus_concat(a: Seq<Seq<char>>, b: Seq<Seq<char>>)
    ensures
        sum_lens_plus(a + b) == sum_lens_plus(a) + sum_lens_plus(b),
    decreases b.len(),
{
    if b.len() == 0 {
        assert(a + b =~= a);
    } else {
        lemma_sum_lens_plus_concat(a, b.drop_last());
        assert((a + b).drop_last() =~= a + b.drop_last());
        assert((a + b).last() == b.last());
    }
}

pub proof fn lemma_lens_sum_plus(ls: Seq<Seq<char>>)
    ensures
        sum_lens_plus(ls) == lens_sum(ls) + ls.len(),
        lens_sum(ls) >= 0,
    decreases ls.len(),
{
    if ls.len() > 0 {
        lemma_lens_sum_plus(ls.drop_last());
    }
}

pub proof fn lemma_weight_mono(lines: Seq<Seq<char>>, j: int, k: int)
    requires
        0 <= j <= k,
    ensures
        weight_before(lines, j) + (k - j) <= weight_before(lines, k),
    decreases k,
{
    if j < k {
        lemma_weight_mono(lines, j, k - 1);
        lemma_lens_sum_plus(page(lines, k - 1));
    }
}

pub proof fn lemma_weight_bound(lines: Seq<Seq<char>>, k: int)
    requires
        0 <= k <= page_count(lines),
    ensures
        weight_before(lines, k) <= sum_lens_plus(lines.take(if 2 * k <= lines.len() { 2 * k } else { lines.len() as int })),
    decreases k,
{
    if k > 0 {
        lemma_weight_bound(lines, k - 1);
        let a = 2 * (k - 1);
        let b = if 2 * k <= lines.len() {
            2 * k
        } else {
            lines.len() as int
        };
        let pg = page(lines, k - 1);
        assert(lines.take(b) =~= lines.take(a) + pg);
        lemma_sum_lens_plus_concat(lines.take(a), pg);
        lemma_lens_sum_plus(pg);
    } else {
        assert(lines.take(0) =~= Seq::<Seq<char>>::empty());
    }
}

pub proof fn lemma_time_ok(start: int, end: int, total: int, w: int)
    requires
        -0x8000_0000_0000_0000 <= start < 0x8000_0000_0000_0000,
        -0x8000_0000_0000_0000 <= end < 0x8000_0000_0000_0000,
        1 <= total <= 0x1000_0001,
        0 <= w <= total,
    ensures
        time_ok(
            (start * total + (if end - start < 0 {
                0
            } else {
                end - start
            }) * w, total),
        ),
{
    let dur = if end - start < 0 {
        0
    } else {
        end - start
    };
    assert(-0x8000_0000_0000_0000 * 0x1000_0001 <= start * total < 0x8000_0000_0000_0000 * 0x1000_0001) by (nonlinear_arith)
        requires -0x8000_0000_0000_0000 <= start < 0x8000_0000_0000_0000, 1 <= total <= 0x1000_0001;
    assert(0 <= dur * w <= 0x1_0000_0000_0000_0000 * 0x1000_0001) by (nonlinear_arith)
        requires 0 <= dur <= 0x1_0000_0000_0000_0000, 0 <= w <= 0x1000_0001;
    assert(start * total + dur * w < total * 0x1_0000_0000_0000_0000) by (nonlinear_arith)
        requires
            -0x8000_0000_0000_0000 <= start < 0x8000_0000_0000_0000,
            -0x8000_0000_0000_0000 <= end < 0x8000_0000_0000_0000,
            1 <= total, 0 <= w <= total, dur >= 0,
            dur == 0 || dur == end - start;
}

fn page_weight_exec(pg: &[Vec<char>]) -> (r: u64)
    requires
        pg@.len() <= 2,
        forall|i: int| 0 <= i < pg@.len() ==> (#[trigger] pg@[i])@.len() <= 0x1000_0000,
    ensures
        r == page_weight(views(pg@)),
{
    let mut n: u64 = 0;
    let mut i: usize = 0;
    while i < pg.len()
        invariant
            i <= pg@.len() <= 2,
            forall|k: int| 0 <= k < pg@.len() ==> (#[trigger] pg@[k])@.len() <= 0x1000_0000,
            n == lens_sum(views(pg@.take(i as int))),
            n <= i * 0x1000_0000,
        decreases pg.len() - i,
    {
        assert(views(pg@.take(i + 1)).drop_last() =~= views(pg@.take(i as int)));
        assert(views(pg@.take(i + 1)).last() == pg@[i as int]@);
        n = n + pg[i].len() as u64;
        i += 1;
    }
    assert(pg@.take(pg@.len() as int) =~= pg@);
    if n == 0 {
        1
    } else {
        n
    }
}

fn push_cue(out: &mut Vec<Vec<char>>, l: &BandLayout, bgr: &[char], alpha: &[char], c: &Cue)
    requires
        layout_ok(*l),
        c.text@.len() < 0x1000_0000,
    ensures
        views(final(out)@) == views(old(out)@) + cue_events(*l, bgr@, alpha@, c@),
{
    let t0 = to_chars(c.text.as_str());
    let lp: Vec<char> = vec!['('];
    let rp: Vec<char> = vec![')'];
    assert(lp@ =~= seq!['('] && rp@ =~= seq![')']);
    let t1 = replace_char_exec(t0.as_slice(), '{', lp.as_slice());
    let t2 = replace_char_exec(t1.as_slice(), '}', rp.as_slice());
    proof {
        lemma_replace_char_len(c.text@, '{', seq!['(']);
        lemma_replace_char_len(t1@, '}', seq![')']);
    }
    let mbw = (l.play_x - 2 * l.side) as i128;
    let g = l.g as i128;
    assert(0 < mbw * g <= 0x8000_0000_0000_0000 * 2304) by (nonlinear_arith)
        requires 0 < mbw <= 0x8000_0000_0000_0000, 2 <= g <= 2304;
    let mt = mbw * g - 2 * l.pad_x as i128;
    let lines = wrap_width(t2.as_slice(), l.font, l.bold, mt, g);
    let ghost ls = views(lines@);
    assert(ls == cue_wrap(*l, c@));
    proof {
        lemma_sum_lens_plus_ge(ls);
    }
    assert forall|i: int| 0 <= i < lines@.len() implies (#[trigger] lines@[i])@.len() <= 0x1000_0000 by {
        assert(ls[i] == lines@[i]@);
    }
    let n = lines.len();
    let np = (n + 1) / 2;
    assert(np == page_count(ls));
    assert(n <= 0x1000_0000);
    let mut total: u64 = 0;
    let mut k: usize = 0;
    while k < np
        invariant
            k <= np,
            np == page_count(ls),
            n == ls.len(),
            n <= 0x1000_0000,
            ls == views(lines@),
            sum_lens_plus(ls) <= 0x1000_0000,
            forall|i: int| 0 <= i < lines@.len() ==> (#[trigger] lines@[i])@.len() <= 0x1000_0000,
            total == weight_before(ls, k as int),
        decreases np - k,
    {
        proof {
            lemma_weight_bound(ls, k + 1);
            let b = if 2 * (k + 1) <= n { 2 * (k + 1) } else { n as int };
            crate::text::lemma_sum_lens_plus_prefix(ls, b);
        }
        let a = 2 * k;
        let b = if a + 2 <= n {
            a + 2
        } else {
            n
        };
        let pg = vstd::slice::slice_subrange(lines.as_slice(), a, b);
        assert(views(pg@) =~= page(ls, k as int));
        let pw = page_weight_exec(pg);
        total = total + pw;
        k += 1;
    }
    proof {
        lemma_weight_bound(ls, np as int);
        assert(ls.take(n as int) =~= ls);
        lemma_weight_mono(ls, 0, np as int);
    }
    let tt = total as i128;
    let mut w: u64 = 0;
    k = 0;
    while k < np
        invariant
            k <= np,
            np == page_count(ls),
            np >= 1,
            n == ls.len(),
            n <= 0x1000_0000,
            ls == views(lines@),
            ls == cue_wrap(*l, c@),
            layout_ok(*l),
            forall|i: int| 0 <= i < lines@.len() ==> (#[trigger] lines@[i])@.len() <= 0x1000_0000,
            tt == weight_before(ls, np as int),
            1 <= tt <= 0x1000_0000,
            w == weight_before(ls, k as int),
            views(out@) == views(old(out)@) + events_upto(*l, bgr@, alpha@, c@, ls, k as int),
        decreases np - k,
    {
        let pw = push_nth_page(out, l, bgr, alpha, c, &lines, k, w, tt);
        proof {
            lemma_weight_mono(ls, k + 1, np as int);
        }
        w = w + pw;
        k += 1;
    }
}

fn push_nth_page(
    out: &mut Vec<Vec<char>>,
    l: &BandLayout,
    bgr: &[char],
    alpha: &[char],
    c: &Cue,
    lines: &Vec<Vec<char>>,
    k: usize,
    w: u64,
    tt: i128,
) -> (pw: u64)
    requires
        layout_ok(*l),
        k < page_count(views(lines@)),
        lines@.len() <= 0x1000_0000,
        forall|i: int| 0 <= i < lines@.len() ==> (#[trigger] lines@[i])@.len() <= 0x1000_0000,
        tt == weight_before(views(lines@), page_count(views(lines@))),
        1 <= tt <= 0x1000_0000,
        w == weight_before(views(lines@), k as int),
    ensures
        pw == page_weight(page(views(lines@), k as int)),
        views(final(out)@) == views(old(out)@) + page_pair(
            *l,
            bgr@,
            alpha@,
            page(views(lines@), k as int),
            page_start(c@, views(lines@), k as int),
            page_end(c@, views(lines@), k as int),
        ),
{
    let ghost ls = views(lines@);
    let n = lines.len();
    let np = (n + 1) / 2;
    let a = 2 * k;
    let b = if a + 2 <= n {
        a + 2
    } else {
        n
    };
    let pg = vstd::slice::slice_subrange(lines.as_slice(), a, b);
    assert(views(pg@) =~= page(ls, k as int));
    let pw = page_weight_exec(pg);
    proof {
        lemma_weight_mono(ls, k + 1, np as int);
        lemma_weight_mono(ls, k as int, k + 1);
        lemma_time_ok(c.start as int, c.end as int, tt as int, w as int);
        lemma_time_ok(c.start as int, c.end as int, tt as int, (w + pw) as int);
    }
    let start = c.start as i128;
    let end = c.end as i128;
    let dur: i128 = if end - start < 0 {
        0
    } else {
        end - start
    };
    assert(-0x8000_0000_0000_0000 * 0x1000_0000 <= start * tt <= 0x8000_0000_0000_0000 * 0x1000_0000) by (nonlinear_arith)
        requires -0x8000_0000_0000_0000 <= start < 0x8000_0000_0000_0000, 1 <= tt <= 0x1000_0000;
    assert(0 <= dur * (w as i128) <= 0x1_0000_0000_0000_0000 * 0x1000_0000) by (nonlinear_arith)
        requires 0 <= dur <= 0x1_0000_0000_0000_0000, 0 <= w <= 0x1000_0000;
    assert(0 <= dur * ((w + pw) as i128) <= 0x1_0000_0000_0000_0000 * 0x1000_0000) by (nonlinear_arith)
        requires 0 <= dur <= 0x1_0000_0000_0000_0000, 0 <= w + pw <= 0x1000_0000;
    let st: (i128, i128) = (start * tt + dur * (w as i128), tt);
    let en: (i128, i128) = if k + 1 == np {
        (end, 1)
    } else {
        (start * tt + dur * ((w + pw) as i128), tt)
    };
    assert((st.0 as int, st.1 as int) == page_start(c@, ls, k as int));
    assert((en.0 as int, en.1 as int) == page_end(c@, ls, k as int));
    push_page(out, l, bgr, alpha, pg, st, en);
    pw
}

// ------------------------------------------------------------------ the file

/// The events of all cues, in order.
pub open spec fn all_events(l: BandLayout, bgr: Seq<char>, alpha: Seq<char>, cs: Seq<CueView>) -> Seq<Seq<char>>
    decreases cs.len(),
{
    if cs.len() == 0 {
        seq![]
    } else {
        all_events(l, bgr, alpha, cs.drop_last()) + cue_events(l, bgr, alpha, cs.last())
    }
}

/// `-1` for a set flag and `0` otherwise, as ASS writes booleans.
pub open spec fn flag(b: bool) -> Seq<char> {
    if b {
        "-1"@
    } else {
        "0"@
    }
}

/// The font: the style's when it is given and not empty, else `UTM Avo`.
pub open spec fn font_name(s: Style) -> Seq<char> {
    match s.font {
        Some(f) => if f@.len() > 0 {
            f@
        } else {
            "UTM Avo"@
        },
        None => "UTM Avo"@,
    }
}

/// The outline width the style gives, 0 when it gives none.
pub open spec fn outline_width(s: Style) -> Dec {
    match parse_f_spec(s.outline) {
        Some(d) => d,
        None => dec_zero(),
    }
}

/// The band's colour and alpha: the box colour (black by default) and the
/// box opacity (opaque by default).
pub open spec fn band_colors(s: Style) -> (Seq<char>, Seq<char>) {
    (
        ass_bgr_spec(or_default(s.box_color, "#000000"@)),
        ass_alpha_spec(
            match parse_f_spec(s.box_opacity) {
                Some(d) => d,
                None => dec_one(),
            },
        ),
    )
}

/// The `[Script Info]` section and the head of the styles section.
pub open spec fn script_info(l: BandLayout) -> Seq<char> {
    "[Script Info]\nScriptType: v4.00+\nPlayResX: "@ + int_str(l.play_x as int)
        + "\nPlayResY: 288\nWrapStyle: 2\nScaledBorderAndShadow: yes\n\n[V4+ Styles]\nFormat: Name, Fontname, Fontsize, PrimaryColour, SecondaryColour, OutlineColour, BackColour, Bold, Italic, Underline, StrikeOut, ScaleX, ScaleY, Spacing, Angle, BorderStyle, Outline, Shadow, Alignment, MarginL, MarginR, MarginV, Encoding\n"@
}

/// The colour fields of the `Text` style: fill (white by default) and
/// outline colour (black by default), both opaque.
pub open spec fn style_colors(s: Style) -> Seq<char> {
    hex_to_ass_spec(or_default(s.fill, "#ffffff"@), dec_zero()) + ",&H000000FF,"@ + hex_to_ass_spec(
        or_default(s.outline_color, "#000000"@),
        dec_zero(),
    ) + ",&H00000000,"@
}

/// The start of the `Text` style line: name, font and size.
pub open spec fn style_head(s: Style, l: BandLayout) -> Seq<char> {
    "Style: Text,"@ + font_name(s) + seq![','] + fmt_g_spec(l.font) + seq![',']
}

/// The rest of the `Text` style line: weight, slant, outline, alignment and
/// margins.
pub open spec fn style_tail(s: Style, l: BandLayout) -> Seq<char> {
    flag(s.bold) + seq![','] + flag(s.italic) + ",0,0,100,100,0,0,1,"@ + fmt_g_spec(outline_width(s))
        + ",0,"@ + int_str(l.align as int) + seq![','] + int_str(l.side as int) + seq![',']
        + int_str(l.side as int) + seq![','] + int_str(l.margin_v as int) + ",1\n\n"@
}

/// The `Text` style line.
pub open spec fn style_line(s: Style, l: BandLayout) -> Seq<char> {
    style_head(s, l) + style_colors(s) + style_tail(s, l)
}

/// The head of the `[Events]` section.
pub open spec fn events_head() -> Seq<char> {
    "[Events]\nFormat: Layer, Start, End, Style, Name, MarginL, MarginR, MarginV, Effect, Text\n"@
}

/// The boxed-band file for `cs` on a `width` x `height` video: header, then
/// the events one per line, then a line break.
pub open spec fn band_ass_spec(cs: Seq<CueView>, s: Style, width: int, height: int) -> Seq<char> {
    let l = layout_spec(s, width, height);
    let (bgr, alpha) = band_colors(s);
    script_info(l) + style_line(s, l) + events_head() + join(all_events(l, bgr, alpha, cs), seq!['\n'])
        + seq!['\n']
}

/// What the band file needs of a style: the colours it renders can be cut
/// into digit pairs.
pub open spec fn band_style_ok(s: Style) -> bool {
    &&& color_or_ok(s.fill)
    &&& color_or_ok(s.outline_color)
    &&& color_or_ok(s.box_color)
}

/// Whether the band file can be written with a style, see [`band_style_ok`].
pub fn band_style_usable(s: &Style) -> (r: bool)
    ensures
        r == band_style_ok(*s),
{
    crate::ass::color_or_usable(&s.fill) && crate::ass::color_or_usable(&s.outline_color)
        && crate::ass::color_or_usable(&s.box_color)
}

proof fn lemma_default_colors()
    ensures
        hex_ok("#ffffff"@),
        hex_ok("#000000"@),
        "#ffffff"@.len() == 7,
        "#000000"@.len() == 7,
{
    reveal_strlit("#ffffff");
    reveal_strlit("#000000");
    lemma_hex_ok_plain("#ffffff"@);
    lemma_hex_ok_plain("#000000"@);
}

fn color_or(o: &Option<String>, d: &str, t: Dec) -> (r: String)
    requires
        color_or_ok(*o),
        d@.len() < 0x1000_0000_0000_0000,
        hex_ok(d@),
        crate::ass::dec_fits(t),
    ensures
        r@ == hex_to_ass_spec(or_default(*o, d@), t),
{
    match o {
        Some(c) => hex_to_ass(c.as_str(), t),
        None => hex_to_ass(d, t),
    }
}

fn style_head_exec(s: &Style, l: &BandLayout) -> (r: Vec<char>)
    requires
        layout_ok(*l),
    ensures
        r@ == style_head(*s, *l),
{
    let mut v: Vec<char> = Vec::new();
    push_str(&mut v, "Style: Text,");
    let f: Vec<char> = match &s.font {
        Some(f) => to_chars(f.as_str()),
        None => Vec::new(),
    };
    if f.len() > 0 {
        push_all(&mut v, f.as_slice());
    } else {
        push_str(&mut v, "UTM Avo");
    }
    v.push(',');
    let fs = fmt_g(l.font);
    push_all(&mut v, fs.as_slice());
    v.push(',');
    assert(v@ =~= style_head(*s, *l));
    v
}

fn style_colors_exec(s: &Style) -> (r: Vec<char>)
    requires
        band_style_ok(*s),
    ensures
        r@ == style_colors(*s),
{
    proof {
        lemma_default_colors();
    }
    let zero = Dec { num: 0, scale: 0 };
    let p = color_or(&s.fill, "#ffffff", zero);
    let oc = color_or(&s.outline_color, "#000000", zero);
    let mut v: Vec<char> = Vec::new();
    push_str(&mut v, p.as_str());
    push_str(&mut v, ",&H000000FF,");
    push_str(&mut v, oc.as_str());
    push_str(&mut v, ",&H00000000,");
    assert(v@ =~= style_colors(*s));
    v
}

fn style_tail_exec(s: &Style, l: &BandLayout) -> (r: Vec<char>)
    ensures
        r@ == style_tail(*s, *l),
{
    let mut v: Vec<char> = Vec::new();
    if s.bold {
        push_str(&mut v, "-1");
    } else {
        push_str(&mut v, "0");
    }
    v.push(',');
    if s.italic {
        push_str(&mut v, "-1");
    } else {
        push_str(&mut v, "0");
    }
    push_str(&mut v, ",0,0,100,100,0,0,1,");
    let ow = match parse_f(&s.outline) {
        Some(d) => d,
        None => Dec { num: 0, scale: 0 },
    };
    let os = fmt_g(ow);
    push_all(&mut v, os.as_slice());
    push_str(&mut v, ",0,");
    push_int(&mut v, l.align);
    v.push(',');
    push_int(&mut v, l.side);
    v.push(',');
    push_int(&mut v, l.side);
    v.push(',');
    push_int(&mut v, l.margin_v);
    push_str(&mut v, ",1\n\n");
    assert(v@ =~= style_tail(*s, *l));
    v
}

fn band_colors_exec(s: &Style) -> (r: (Vec<char>, Vec<char>))
    requires
        band_style_ok(*s),
    ensures
        (r.0@, r.1@) == band_colors(*s),
{
    proof {
        lemma_default_colors();
    }
    let bgr = match &s.box_color {
        Some(c) => ass_bgr(c.as_str()),
        None => ass_bgr("#000000"),
    };
    let op = match parse_f(&s.box_opacity) {
        Some(d) => d,
        None => Dec { num: 1, scale: 0 },
    };
    let alpha = ass_alpha(op);
    (to_chars(bgr.as_str()), to_chars(alpha.as_str()))
}

/// The boxed-band subtitle file for `cues` on a `width` x `height` video, see
/// [`band_ass_spec`]: each page of at most two wrapped lines gets a filled box
/// sized to its text and the text over it, and shows for a share of its cue's
/// time proportional to its characters.
pub fn write_band_ass_str(cues: &[Cue], style: &Style, width: i64, height: i64) -> (r: String)
    requires
        band_style_ok(*style),
        forall|i: int| 0 <= i < cues@.len() ==> (#[trigger] cues@[i]).text@.len() < 0x1000_0000,
    ensures
        r@ == band_ass_spec(cue_views(cues@), *style, width as int, height as int),
{
    let l = layout(style, width, height);
    let (bgr, alpha) = band_colors_exec(style);
    let mut evs: Vec<Vec<char>> = Vec::new();
    let mut i: usize = 0;
    while i < cues.len()
        invariant
            i <= cues@.len(),
            layout_ok(l),
            forall|k: int| 0 <= k < cues@.len() ==> (#[trigger] cues@[k]).text@.len() < 0x1000_0000,
            views(evs@) == all_events(l, bgr@, alpha@, cue_views(cues@.take(i as int))),
        decreases cues.len() - i,
    {
        assert(cue_views(cues@.take(i + 1)).drop_last() =~= cue_views(cues@.take(i as int)));
        assert(cue_views(cues@.take(i + 1)).last() == cues@[i as int]@);
        push_cue(&mut evs, &l, bgr.as_slice(), alpha.as_slice(), &cues[i]);
        i += 1;
    }
    assert(cues@.take(cues@.len() as int) =~= cues@);
    let mut out: Vec<char> = Vec::new();
    push_str(&mut out, "[Script Info]\nScriptType: v4.00+\nPlayResX: ");
    push_int(&mut out, l.play_x);
    push_str(&mut out, "\nPlayResY: 288\nWrapStyle: 2\nScaledBorderAndShadow: yes\n\n[V4+ Styles]\nFormat: Name, Fontname, Fontsize, PrimaryColour, SecondaryColour, OutlineColour, BackColour, Bold, Italic, Underline, StrikeOut, ScaleX, ScaleY, Spacing, Angle, BorderStyle, Outline, Shadow, Alignment, MarginL, MarginR, MarginV, Encoding\n");
    assert(out@ =~= script_info(l));
    let h = style_head_exec(style, &l);
    let c = style_colors_exec(style);
    let t = style_tail_exec(style, &l);
    push_all(&mut out, h.as_slice());
    push_all(&mut out, c.as_slice());
    push_all(&mut out, t.as_slice());
    push_str(&mut out, "[Events]\nFormat: Layer, Start, End, Style, Name, MarginL, MarginR, MarginV, Effect, Text\n");
    let nl: Vec<char> = vec!['\n'];
    assert(nl@ =~= seq!['\n']);
    let body = join_chars(evs.as_slice(), nl.as_slice());
    push_all(&mut out, body.as_slice());
    out.push('\n');
    assert(out@ =~= band_ass_spec(cue_views(cues@), *style, width as int, height as int));
    from_chars(out.as_slice())
}

// ------------------------------------------------------------------ laws

/// The pages of a cue share out its time without gaps: the first page
/// starts at the cue's start, each page ends where the next one starts, the
/// last one ends at the cue's end, and (for a cue that does not end before
/// it starts) every page starts within the cue.
pub proof fn law_band_pages_cover(c: CueView, lines: Seq<Seq<char>>)
    requires
        lines.len() >= 1,
    ensures
        ({
            let n = page_count(lines);
            let total = page_start(c, lines, 0).1;
            &&& total >= 1
            &&& page_start(c, lines, 0) == (c.0 * total, total)
            &&& page_end(c, lines, n - 1) == (c.1, 1int)
            &&& forall|k: int| 0 <= k < n - 1 ==> #[trigger] page_end(c, lines, k) == page_start(c, lines, k + 1)
            &&& c.0 <= c.1 ==> forall|k: int|
                0 <= k < n ==> c.0 * total <= #[trigger] page_start(c, lines, k).0 <= c.1 * total
        }),
{
    let n = page_count(lines);
    let total = weight_before(lines, n);
    lemma_weight_mono(lines, 0, n);
    assert forall|k: int| 0 <= k < n implies c.0 <= c.1 ==> c.0 * total <= #[trigger] page_start(c, lines, k).0
        <= c.1 * total by {
        lemma_weight_mono(lines, k, n);
        lemma_weight_mono(lines, 0, k);
        let w = weight_before(lines, k);
        if c.0 <= c.1 {
            let dur = c.1 - c.0;
            assert(0 <= dur * w <= dur * total) by (nonlinear_arith)
                requires dur >= 0, 0 <= w <= total;
            assert(c.0 * total + dur * total == c.1 * total) by (nonlinear_arith)
                requires dur == c.1 - c.0;
        }
    }
}

/// Scaling both sides of a division leaves its rounding unchanged.
proof fn lemma_rhe_scale(a: int, b: int, c: int)
    requires
        b > 0,
        c > 0,
    ensures
        round_half_even(c * a, c * b) == round_half_even(a, b),
{
    vstd::arithmetic::div_mod::lemma_fundamental_div_mod(a, b);
    vstd::arithmetic::div_mod::lemma_mod_bound(a, b);
    let q = a / b;
    let r = a % b;
    assert(c * a == q * (c * b) + c * r) by (nonlinear_arith)
        requires a == b * q + r;
    assert(0 <= c * r < c * b) by (nonlinear_arith)
        requires 0 <= r < b, c > 0;
    assert((2 * (c * r) < c * b) == (2 * r < b)) by (nonlinear_arith)
        requires c > 0;
    assert((2 * (c * r) > c * b) == (2 * r > b)) by (nonlinear_arith)
        requires c > 0;
    crate::float::lemma_rhe_parts(q, r, b);
    crate::float::lemma_rhe_parts(q, c * r, c * b);
    assert(q * b + r == a) by (nonlinear_arith)
        requires a == b * q + r;
}

/// A band for a top-aligned style hangs from the top margin: for a page of
/// `n` lines its box runs from `pad_top` above the margin line (the pads
/// are in units of `1/g`) to `pad_bot` below the block of `n` lines, each
/// 1.22 font sizes high, both rounded halves to even; and the style line
/// carries the same alignment (8).
pub proof fn law_band_top(s: Style, width: int, height: int, n: int)
    requires
        s.align matches Some(a) && a@ == "top"@,
    ensures
        ({
            let l = layout_spec(s, width, height);
            let den = l.font.den();
            &&& l.align == 8
            &&& box_y(l, n).0 == round_half_even(l.margin_v * l.g - l.pad_top, l.g as int)
            &&& box_y(l, n).1 == round_half_even(
                100 * den * l.g * l.margin_v + 122 * n * l.font.num * l.g + 100 * den * l.pad_bot,
                100 * den * l.g,
            )
        }),
{
    reveal_strlit("top");
    reveal_strlit("bottom");
    reveal_strlit("middle");
    let a = s.align->0;
    assert("top"@.len() == 3 && "bottom"@.len() == 6 && "middle"@.len() == 6);
    assert(a@ == "top"@);
    assert(a@.len() == 3);
    assert(a@ != "bottom"@ && a@ != "middle"@);
    assert(align_num_spec(s.align) == Some(8int));
    let l = layout_spec(s, width, height);
    assert(l.align == 8);
    let den = l.font.den();
    crate::num::lemma_pow10_pos(l.font.scale as nat);
    let g = l.g as int;
    assert(g >= 2);
    let y = 200 * den * g;
    let bn = n * l.font.num * 122;
    let bh = bn * 2 * g;
    let pt = l.pad_top * 200 * den;
    let pb = l.pad_bot * 200 * den;
    let m = l.margin_v * y;
    assert(m - pt == (200 * den) * (l.margin_v * g - l.pad_top)) by (nonlinear_arith)
        requires m == l.margin_v * y, y == 200 * den * g, pt == l.pad_top * 200 * den;
    assert(y == (200 * den) * g) by (nonlinear_arith)
        requires y == 200 * den * g;
    lemma_rhe_scale(l.margin_v * g - l.pad_top, g, 200 * den);
    let top2 = 100 * den * g * l.margin_v + 122 * n * l.font.num * g + 100 * den * l.pad_bot;
    assert(m + bh + pb == 2 * top2) by (nonlinear_arith)
        requires
            m == l.margin_v * y,
            y == 200 * den * g,
            bh == bn * 2 * g,
            bn == n * l.font.num * 122,
            pb == l.pad_bot * 200 * den,
            top2 == 100 * den * g * l.margin_v + 122 * n * l.font.num * g + 100 * den * l.pad_bot;
    assert(y == 2 * (100 * den * g)) by (nonlinear_arith)
        requires y == 200 * den * g;
    assert(100 * den * g > 0) by (nonlinear_arith)
        requires den >= 1, g >= 2;
    lemma_rhe_scale(top2, 100 * den * g, 2);
}

} // verus!
