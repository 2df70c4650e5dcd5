//! SubRip (`.srt`) cues: timestamps, reading, writing, shifting and hiding.
//!
//! Times are held as whole milliseconds, the resolution of the format.
use vstd::prelude::*;
use crate::num::{
    digit_char, digit_val, fmt_u64, is_digit, nat_str, pad_zeros,
    pad_zeros_exec,
};
use crate::text::{
    find_seq, find_seq_exec, from_chars, is_whitespace, is_ws, join,
    join_chars, lemma_find_seq_props, lines, lines_of, occurs_at, push_all, push_str, slice_chars,
    to_chars, trim, trim_bounds, trim_chars, views,
};

verus! {

/// One subtitle: shown from `start` to `end` (milliseconds) with `text`.
#[derive(Debug, Clone, PartialEq)]
pub struct Cue {
    pub start: i64,
    pub end: i64,
    pub text: String,
}

/// A cue as values: start and end in milliseconds, and the text's characters.
pub type CueView = (int, int, Seq<char>);

impl View for Cue {
    type V = CueView;

    open spec fn view(&self) -> CueView {
        (self.start as int, self.end as int, self.text@)
    }
}

/// The views of a sequence of cues.
pub open spec fn cue_views(cs: Seq<Cue>) -> Seq<CueView> {
    cs.map_values(|c: Cue| c@)
}

// ------------------------------------------------------------------ timestamps

/// `t` milliseconds (negative taken as 0) as `HH:MM:SS,mmm`; hours take as
/// many digits as they need, at least two.
#[verifier::opaque]
pub open spec fn ts_str(t: int) -> Seq<char> {
    let ms = if t < 0 {
        0
    } else {
        t
    };
    let h = ms / 3_600_000;
    let mi = (ms % 3_600_000) / 60_000;
    let se = (ms % 60_000) / 1000;
    let mm = ms % 1000;
    pad_zeros(nat_str(h as nat), 2) + seq![':'] + pad_zeros(nat_str(mi as nat), 2) + seq![':']
        + pad_zeros(nat_str(se as nat), 2) + seq![','] + pad_zeros(nat_str(mm as nat), 3)
}

/// Renders a timestamp of `t` milliseconds into `out`.
fn push_ts(out: &mut Vec<char>, t: i64)
    ensures
        final(out)@ == old(out)@ + ts_str(t as int),
{
    let ms: u64 = if t < 0 {
        0
    } else {
        t as u64
    };
    let h = ms / 3_600_000;
    let mi = (ms % 3_600_000) / 60_000;
    let se = (ms % 60_000) / 1000;
    let mm = ms % 1000;
    let a = pad_zeros_exec(fmt_u64(h).as_slice(), 2);
    let b = pad_zeros_exec(fmt_u64(mi).as_slice(), 2);
    let c = pad_zeros_exec(fmt_u64(se).as_slice(), 2);
    let d = pad_zeros_exec(fmt_u64(mm).as_slice(), 3);
    push_all(out, a.as_slice());
    out.push(':');
    push_all(out, b.as_slice());
    out.push(':');
    push_all(out, c.as_slice());
    out.push(',');
    push_all(out, d.as_slice());
    reveal(ts_str);
    assert(final(out)@ =~= old(out)@ + ts_str(t as int));
}

/// `t` milliseconds (negative taken as 0) as an SRT timestamp `HH:MM:SS,mmm`.
pub fn format_ts(t: i64) -> (s: String)
    ensures
        s@ == ts_str(t as int),
{
    let mut v: Vec<char> = Vec::new();
    push_ts(&mut v, t);
    assert(v@ =~= ts_str(t as int));
    from_chars(v.as_slice())
}

/// Whether `s` holds `DD:DD:DD,DDD` (or `.` before the milliseconds) at `p`.
pub open spec fn ts_at(s: Seq<char>, p: int) -> bool {
    &&& 0 <= p
    &&& p + 12 <= s.len()
    &&& is_digit(s[p]) && is_digit(s[p + 1]) && s[p + 2] == ':'
    &&& is_digit(s[p + 3]) && is_digit(s[p + 4]) && s[p + 5] == ':'
    &&& is_digit(s[p + 6]) && is_digit(s[p + 7]) && (s[p + 8] == ',' || s[p + 8] == '.')
    &&& is_digit(s[p + 9]) && is_digit(s[p + 10]) && is_digit(s[p + 11])
}

/// The milliseconds that the timestamp at `p` stands for.
pub open spec fn ts_value(s: Seq<char>, p: int) -> int {
    (digit_val(s[p]) * 10 + digit_val(s[p + 1])) * 3_600_000 + (digit_val(s[p + 3]) * 10
        + digit_val(s[p + 4])) * 60_000 + (digit_val(s[p + 6]) * 10 + digit_val(s[p + 7])) * 1000
        + digit_val(s[p + 9]) * 100 + digit_val(s[p + 10]) * 10 + digit_val(s[p + 11])
}

/// Position of the leftmost timestamp in `s` at or after `from`, or `s.len()`.
pub open spec fn first_ts_from(s: Seq<char>, from: int) -> int
    decreases s.len() - from,
{
    if from < 0 || from >= s.len() {
        s.len() as int
    } else if ts_at(s, from) {
        from
    } else {
        first_ts_from(s, from + 1)
    }
}

/// The leftmost timestamp of `s` in milliseconds, if there is one.
pub open spec fn first_ts(s: Seq<char>) -> Option<int> {
    let p = first_ts_from(s, 0);
    if p < s.len() {
        Some(ts_value(s, p))
    } else {
        None
    }
}

pub proof fn lemma_first_ts_from(s: Seq<char>, from: int, k: int)
    requires
        0 <= from <= k <= s.len(),
        forall|j: int| from <= j < k ==> !#[trigger] ts_at(s, j),
        k == s.len() || ts_at(s, k),
    ensures
        first_ts_from(s, from) == k,
    decreases k - from,
{
    if from < k {
        lemma_first_ts_from(s, from + 1, k);
    }
}

fn is_ascii_digit(c: char) -> (r: bool)
    ensures
        r == is_digit(c),
{
    (c as u32) >= 48 && (c as u32) <= 57
}

fn dv(c: char) -> (r: i64)
    requires
        is_digit(c),
    ensures
        r == digit_val(c),
        0 <= r <= 9,
{
    (c as u32 - 48) as i64
}

fn ts_at_exec(v: &[char], p: usize) -> (r: bool)
    ensures
        r == ts_at(v@, p as int),
{
    if p > v.len() || v.len() - p < 12 {
        return false;
    }
    is_ascii_digit(v[p]) && is_ascii_digit(v[p + 1]) && v[p + 2] == ':' && is_ascii_digit(v[p + 3])
        && is_ascii_digit(v[p + 4]) && v[p + 5] == ':' && is_ascii_digit(v[p + 6])
        && is_ascii_digit(v[p + 7]) && (v[p + 8] == ',' || v[p + 8] == '.') && is_ascii_digit(
        v[p + 9],
    ) && is_ascii_digit(v[p + 10]) && is_ascii_digit(v[p + 11])
}

/// The leftmost timestamp of `v`, in milliseconds. Only ASCII digits are
/// read: a run of other decimal digits in the timestamp's place was never
/// readable as a number.
fn first_ts_exec(v: &[char]) -> (r: Option<i64>)
    ensures
        r matches Some(x) ==> first_ts(v@) == Some(x as int),
        r is None ==> first_ts(v@) is None,
{
    let mut p: usize = 0;
    while p < v.len() && !ts_at_exec(v, p)
        invariant
            p <= v@.len(),
            forall|j: int| 0 <= j < p ==> !#[trigger] ts_at(v@, j),
        decreases v.len() - p,
    {
        p += 1;
    }
    proof {
        lemma_first_ts_from(v@, 0, p as int);
    }
    if p == v.len() {
        return None;
    }
    let x = (dv(v[p]) * 10 + dv(v[p + 1])) * 3_600_000 + (dv(v[p + 3]) * 10 + dv(v[p + 4]))
        * 60_000 + (dv(v[p + 6]) * 10 + dv(v[p + 7])) * 1000 + dv(v[p + 9]) * 100 + dv(v[p + 10])
        * 10 + dv(v[p + 11]);
    Some(x)
}


// ------------------------------------------------------------------ blocks

/// `s` without its leading byte-order marks.
pub open spec fn strip_bom(s: Seq<char>) -> Seq<char>
    decreases s.len(),
{
    if s.len() > 0 && s[0] == '\u{feff}' {
        strip_bom(s.drop_first())
    } else {
        s
    }
}

/// One past the end of the run of whitespace in `s` that starts at `i`.
pub open spec fn ws_run_end(s: Seq<char>, i: int) -> int
    decreases s.len() - i,
{
    if 0 <= i < s.len() && is_ws(s[i]) {
        ws_run_end(s, i + 1)
    } else {
        i
    }
}

/// The largest `k` in `lo..hi` with `s[k] == '\n'`, or `lo - 1` when there is none.
pub open spec fn last_nl(s: Seq<char>, lo: int, hi: int) -> int
    decreases hi - lo,
{
    if hi <= lo {
        lo - 1
    } else if s[hi - 1] == '\n' {
        hi - 1
    } else {
        last_nl(s, lo, hi - 1)
    }
}

/// The end of the blank-line separator (`\n`, whitespace, `\n`, as long as
/// possible) that starts at `p`, or 0 when none starts there.
pub open spec fn sep_end(s: Seq<char>, p: int) -> int {
    if 0 <= p < s.len() && s[p] == '\n' {
        let k = last_nl(s, p + 1, ws_run_end(s, p + 1));
        if k >= p + 1 {
            k + 1
        } else {
            0
        }
    } else {
        0
    }
}

/// The first position at or after `i` where a separator starts, or `s.len()`.
pub open spec fn first_sep_from(s: Seq<char>, i: int) -> int
    decreases s.len() - i,
{
    if i < 0 || i >= s.len() {
        s.len() as int
    } else if sep_end(s, i) > 0 {
        i
    } else {
        first_sep_from(s, i + 1)
    }
}

pub proof fn lemma_ws_run_end_bounds(s: Seq<char>, i: int)
    requires
        0 <= i <= s.len(),
    ensures
        i <= ws_run_end(s, i) <= s.len(),
        forall|j: int| i <= j < ws_run_end(s, i) ==> is_ws(#[trigger] s[j]),
    decreases s.len() - i,
{
    if i < s.len() && is_ws(s[i]) {
        lemma_ws_run_end_bounds(s, i + 1);
    }
}

pub proof fn lemma_last_nl_bounds(s: Seq<char>, lo: int, hi: int)
    ensures
        hi <= lo ==> last_nl(s, lo, hi) == lo - 1,
        hi > lo ==> lo - 1 <= last_nl(s, lo, hi) < hi,
        last_nl(s, lo, hi) >= lo ==> s[last_nl(s, lo, hi)] == '\n',
    decreases hi - lo,
{
    if hi > lo && s[hi - 1] != '\n' {
        lemma_last_nl_bounds(s, lo, hi - 1);
    }
}

pub proof fn lemma_sep_end_bounds(s: Seq<char>, p: int)
    ensures
        sep_end(s, p) > 0 ==> 0 <= p < sep_end(s, p) <= s.len(),
{
    if 0 <= p < s.len() && s[p] == '\n' {
        lemma_ws_run_end_bounds(s, p + 1);
        lemma_last_nl_bounds(s, p + 1, ws_run_end(s, p + 1));
    }
}

pub proof fn lemma_first_sep_bounds(s: Seq<char>, i: int)
    requires
        0 <= i,
    ensures
        first_sep_from(s, i) == s.len() || (i <= first_sep_from(s, i) < s.len() && sep_end(
            s,
            first_sep_from(s, i),
        ) > 0),
    decreases s.len() - i,
{
    if i < s.len() && sep_end(s, i) <= 0 {
        lemma_first_sep_bounds(s, i + 1);
    }
}

/// The pieces of `s[pos..]` between blank-line separators, leftmost first.
pub open spec fn blocks_from(s: Seq<char>, pos: int) -> Seq<Seq<char>>
    decreases s.len() - pos,
{
    if pos < 0 || pos > s.len() {
        seq![]
    } else {
        let p = first_sep_from(s, pos);
        proof {
            lemma_first_sep_bounds(s, pos);
            lemma_sep_end_bounds(s, p);
        }
        if p >= s.len() {
            seq![s.subrange(pos, s.len() as int)]
        } else {
            seq![s.subrange(pos, p)] + blocks_from(s, sep_end(s, p))
        }
    }
}

/// The pieces of `s` between blank-line separators (`\n\s*\n`).
pub open spec fn blocks(s: Seq<char>) -> Seq<Seq<char>> {
    blocks_from(s, 0)
}

pub proof fn lemma_ws_run_end_at(s: Seq<char>, i: int, j: int)
    requires
        0 <= i <= j <= s.len(),
        forall|k: int| i <= k < j ==> is_ws(#[trigger] s[k]),
        j == s.len() || !is_ws(s[j]),
    ensures
        ws_run_end(s, i) == j,
    decreases j - i,
{
    if i < j {
        lemma_ws_run_end_at(s, i + 1, j);
    }
}

fn sep_end_exec(v: &[char], p: usize) -> (r: usize)
    requires
        p < v@.len(),
    ensures
        r == sep_end(v@, p as int),
{
    if v[p] != '\n' {
        return 0;
    }
    let n = v.len();
    let mut j = p + 1;
    while j < n && is_whitespace(v[j])
        invariant
            p + 1 <= j <= n == v@.len(),
            forall|k: int| p + 1 <= k < j ==> is_ws(#[trigger] v@[k]),
        decreases n - j,
    {
        j += 1;
    }
    proof {
        lemma_ws_run_end_at(v@, p + 1, j as int);
    }
    let mut k = j;
    while k > p + 1 && v[k - 1] != '\n'
        invariant
            p + 1 <= k <= j <= n == v@.len(),
            last_nl(v@, p + 1, j as int) == last_nl(v@, p + 1, k as int),
        decreases k,
    {
        k -= 1;
    }
    if k > p + 1 {
        k
    } else {
        0
    }
}

/// The blank-line separated pieces of `v`, see [`blocks`].
fn blocks_of(v: &[char]) -> (r: Vec<Vec<char>>)
    ensures
        views(r@) == blocks(v@),
{
    let n = v.len();
    let ghost s = v@;
    let mut r: Vec<Vec<char>> = Vec::new();
    let mut pos: usize = 0;
    let mut i: usize = 0;
    proof {
        assert(views(r@) + blocks_from(s, 0) =~= blocks_from(s, 0));
    }
    while i < n
        invariant
            pos <= i <= n == s.len(),
            s == v@,
            blocks(s) == views(r@) + blocks_from(s, pos as int),
            first_sep_from(s, pos as int) == first_sep_from(s, i as int),
        decreases n - i,
    {
        let e = sep_end_exec(v, i);
        if e > 0 {
            proof {
                lemma_sep_end_bounds(s, i as int);
                assert(blocks_from(s, pos as int) == seq![s.subrange(pos as int, i as int)]
                    + blocks_from(s, e as int));
            }
            let piece = slice_chars(v, pos, i);
            let ghost before = views(r@);
            r.push(piece);
            proof {
                assert(views(r@) =~= before.push(piece@));
                assert(views(r@) + blocks_from(s, e as int) =~= before + blocks_from(
                    s,
                    pos as int,
                ));
            }
            pos = e;
            i = e;
        } else {
            i += 1;
        }
    }
    proof {
        assert(blocks_from(s, pos as int) == seq![s.subrange(pos as int, n as int)]);
    }
    let piece = slice_chars(v, pos, n);
    let ghost before = views(r@);
    r.push(piece);
    proof {
        assert(views(r@) =~= before.push(piece@));
        assert(views(r@) =~= before + blocks_from(s, pos as int));
    }
    r
}

// ------------------------------------------------------------------ reading

/// The lines of `ls` that hold something other than whitespace.
pub open spec fn nonblank(ls: Seq<Seq<char>>) -> Seq<Seq<char>>
    decreases ls.len(),
{
    if ls.len() == 0 {
        seq![]
    } else {
        nonblank(ls.drop_last()) + (if trim(ls.last()).len() > 0 {
            seq![ls.last()]
        } else {
            seq![]
        })
    }
}

/// The characters `-->`.
pub open spec fn arrow() -> Seq<char> {
    seq!['-', '-', '>']
}

/// The first index at or after `i` of a line of `ls` holding `-->`, or `ls.len()`.
pub open spec fn arrow_line_from(ls: Seq<Seq<char>>, i: int) -> int
    decreases ls.len() - i,
{
    if i < 0 || i >= ls.len() {
        ls.len() as int
    } else if find_seq(ls[i], arrow()) < ls[i].len() {
        i
    } else {
        arrow_line_from(ls, i + 1)
    }
}

/// The cue that one block holds, if it holds one: its non-blank lines, the
/// first of them holding `-->` with a timestamp on each side, and the text
/// made of the lines after it.
pub open spec fn parse_block(b: Seq<char>) -> Option<CueView> {
    let ls = nonblank(lines(b));
    if ls.len() < 2 {
        None
    } else {
        let k = arrow_line_from(ls, 0);
        if k < 0 || k >= ls.len() {
            None
        } else {
            let l = ls[k];
            let p = find_seq(l, arrow());
            match (first_ts(l.take(p)), first_ts(l.skip(p + 3))) {
                (Some(x), Some(y)) => Some((x, y, trim(join(ls.skip(k + 1), seq!['\n'])))),
                _ => None,
            }
        }
    }
}

/// The cues of the blocks, in order, skipping blocks that hold none.
pub open spec fn parse_blocks(bs: Seq<Seq<char>>) -> Seq<CueView>
    decreases bs.len(),
{
    if bs.len() == 0 {
        seq![]
    } else {
        parse_blocks(bs.drop_last()) + match parse_block(bs.last()) {
            Some(c) => seq![c],
            None => seq![],
        }
    }
}

/// The cues that the SRT text `raw` holds.
pub open spec fn parse_srt(raw: Seq<char>) -> Seq<CueView> {
    parse_blocks(blocks(trim(strip_bom(raw))))
}


pub proof fn lemma_strip_bom_at(s: Seq<char>, k: int)
    requires
        0 <= k <= s.len(),
        forall|j: int| 0 <= j < k ==> #[trigger] s[j] == '\u{feff}',
        k == s.len() || s[k] != '\u{feff}',
    ensures
        strip_bom(s) == s.subrange(k, s.len() as int),
    decreases k,
{
    if k == 0 {
        assert(s.subrange(0, s.len() as int) =~= s);
    } else {
        let t = s.drop_first();
        assert forall|j: int| 0 <= j < k - 1 implies #[trigger] t[j] == '\u{feff}' by {
            assert(t[j] == s[j + 1]);
        }
        lemma_strip_bom_at(t, k - 1);
        assert(t.subrange(k - 1, t.len() as int) =~= s.subrange(k, s.len() as int));
    }
}

/// The non-blank lines of `ls`, see [`nonblank`].
fn nonblank_of(ls: &Vec<Vec<char>>) -> (r: Vec<Vec<char>>)
    ensures
        views(r@) == nonblank(views(ls@)),
{
    let mut r: Vec<Vec<char>> = Vec::new();
    let mut i: usize = 0;
    while i < ls.len()
        invariant
            i <= ls@.len(),
            views(r@) == nonblank(views(ls@).take(i as int)),
        decreases ls.len() - i,
    {
        let l = &ls[i];
        let (lo, hi) = trim_bounds(l.as_slice());
        proof {
            assert(views(ls@).take(i + 1).drop_last() =~= views(ls@).take(i as int));
            assert(views(ls@).take(i + 1).last() == l@);
        }
        if hi > lo {
            let c = slice_chars(l.as_slice(), 0, l.len());
            assert(c@ =~= l@);
            let ghost before = views(r@);
            r.push(c);
            assert(views(r@) =~= before + seq![l@]);
        } else {
            assert(nonblank(views(ls@).take(i + 1)) =~= nonblank(views(ls@).take(i as int)));
        }
        i += 1;
    }
    assert(views(ls@).take(ls@.len() as int) =~= views(ls@));
    r
}

fn has_arrow(l: &[char]) -> (r: bool)
    ensures
        r == (find_seq(l@, arrow()) < l@.len()),
{
    let arrow_v: Vec<char> = vec!['-', '-', '>'];
    assert(arrow_v@ =~= arrow());
    let f = find_seq_exec(l, arrow_v.as_slice(), 0);
    assert(l@.subrange(0, l@.len() as int) =~= l@);
    f < l.len()
}

/// The cue that the block `b` holds, see [`parse_block`].
fn parse_block_exec(b: &[char]) -> (r: Option<Cue>)
    ensures
        r matches Some(c) ==> parse_block(b@) == Some(c@),
        r is None ==> parse_block(b@) is None,
{
    let all = lines_of(b);
    let ls = nonblank_of(&all);
    let ghost gls = views(ls@);
    assert(gls == nonblank(lines(b@)));
    if ls.len() < 2 {
        return None;
    }
    let arrow_v: Vec<char> = vec!['-', '-', '>'];
    assert(arrow_v@ =~= arrow());
    let mut k: usize = 0;
    let mut found = false;
    while k < ls.len() && !found
        invariant
            k <= ls@.len(),
            gls == views(ls@),
            arrow_v@ == arrow(),
            found ==> k < ls@.len() && arrow_line_from(gls, 0) == k && find_seq(gls[k as int], arrow()) < gls[k as int].len(),
            !found ==> arrow_line_from(gls, 0) == arrow_line_from(gls, k as int),
        decreases ls.len() - k + (if found {
            0int
        } else {
            1int
        }),
    {
        assert(gls[k as int] == ls@[k as int]@);
        if has_arrow(ls[k].as_slice()) {
            found = true;
        } else {
            k += 1;
        }
    }
    if !found {
        return None;
    }
    assert(gls[k as int] == ls@[k as int]@);
    let l = &ls[k];
    assert(gls[k as int] == l@);
    let p = find_seq_exec(l.as_slice(), arrow_v.as_slice(), 0);
    proof {
        assert(l@.subrange(0, l@.len() as int) =~= l@);
        lemma_find_seq_props(l@, arrow());
        assert(arrow().len() == 3);
        assert(occurs_at(l@, arrow(), p as int));
        assert(p + 3 <= l@.len());
    }
    assert(p + 3 <= l.len());
    let a = slice_chars(l.as_slice(), 0, p);
    let z = slice_chars(l.as_slice(), p + 3, l.len());
    assert(a@ =~= l@.take(p as int));
    assert(z@ =~= l@.skip(p + 3));
    let x = first_ts_exec(a.as_slice());
    let y = first_ts_exec(z.as_slice());
    match (x, y) {
        (Some(x), Some(y)) => {
            let mut rest: Vec<Vec<char>> = Vec::new();
            let mut j = k + 1;
            while j < ls.len()
                invariant
                    k + 1 <= j <= ls@.len(),
                    gls == views(ls@),
                    views(rest@) == gls.subrange(k + 1, j as int),
                decreases ls.len() - j,
            {
                let c = slice_chars(ls[j].as_slice(), 0, ls[j].len());
                assert(c@ =~= gls[j as int]);
                let ghost before = views(rest@);
                rest.push(c);
                assert(views(rest@) =~= before.push(c@));
                assert(views(rest@) =~= gls.subrange(k + 1, j + 1));
                j += 1;
            }
            assert(views(rest@) =~= gls.skip(k + 1));
            let nl: Vec<char> = vec!['\n'];
            assert(nl@ =~= seq!['\n']);
            let joined = join_chars(rest.as_slice(), nl.as_slice());
            let t = trim_chars(joined.as_slice());
            let text = from_chars(t.as_slice());
            assert(first_ts(l@.take(p as int)) == Some(x as int));
            assert(first_ts(l@.skip(p + 3)) == Some(y as int));
            assert(text@ == trim(join(gls.skip(k + 1), seq!['\n'])));
            assert(parse_block(b@) == Some((x as int, y as int, text@)));
            Some(Cue { start: x, end: y, text })
        },
        _ => None,
    }
}

/// The cues of an SRT file's text: blocks separated by blank lines, each
/// holding a `start --> end` line and the text lines after it; blocks without
/// them are skipped. A leading byte-order mark is ignored.
pub fn parse_srt_str(raw: &str) -> (r: Vec<Cue>)
    ensures
        cue_views(r@) == parse_srt(raw@),
{
    let v = to_chars(raw);
    let mut k: usize = 0;
    while k < v.len() && v[k] == '\u{feff}'
        invariant
            k <= v@.len(),
            forall|j: int| 0 <= j < k ==> #[trigger] v@[j] == '\u{feff}',
        decreases v.len() - k,
    {
        k += 1;
    }
    proof {
        lemma_strip_bom_at(v@, k as int);
    }
    let body = slice_chars(v.as_slice(), k, v.len());
    let t = trim_chars(body.as_slice());
    let bs = blocks_of(t.as_slice());
    let mut r: Vec<Cue> = Vec::new();
    let mut i: usize = 0;
    while i < bs.len()
        invariant
            i <= bs@.len(),
            views(bs@) == blocks(t@),
            t@ == trim(strip_bom(raw@)),
            cue_views(r@) == parse_blocks(views(bs@).take(i as int)),
        decreases bs.len() - i,
    {
        let c = parse_block_exec(bs[i].as_slice());
        proof {
            assert(views(bs@).take(i + 1).drop_last() =~= views(bs@).take(i as int));
            assert(views(bs@).take(i + 1).last() == bs@[i as int]@);
        }
        match c {
            Some(c) => {
                let ghost before = cue_views(r@);
                r.push(c);
                assert(cue_views(r@) =~= before + seq![c@]);
            },
            None => {
                assert(parse_blocks(views(bs@).take(i + 1)) =~= parse_blocks(
                    views(bs@).take(i as int),
                ));
            },
        }
        i += 1;
    }
    assert(views(bs@).take(bs@.len() as int) =~= views(bs@));
    r
}

// ------------------------------------------------------------------ writing

/// The SRT entry for the cue at index `i`: its number, times and text.
pub open spec fn srt_entry(i: int, c: CueView) -> Seq<char> {
    nat_str((i + 1) as nat) + seq!['\n'] + ts_str(c.0) + seq![' ', '-', '-', '>', ' '] + ts_str(
        c.1,
    ) + seq!['\n'] + c.2 + seq!['\n', '\n']
}

/// The SRT text of the cues, numbered from 1.
pub open spec fn srt_text(cs: Seq<CueView>) -> Seq<char>
    decreases cs.len(),
{
    if cs.len() == 0 {
        seq![]
    } else {
        srt_text(cs.drop_last()) + srt_entry(cs.len() - 1, cs.last())
    }
}

fn push_entry(out: &mut Vec<char>, i: u64, c: &Cue)
    requires
        i < u64::MAX,
    ensures
        final(out)@ == old(out)@ + srt_entry(i as int, c@),
{
    let ghost o = out@;
    let num = fmt_u64(i + 1);
    push_all(out, num.as_slice());
    out.push('\n');
    push_ts(out, c.start);
    let ghost o1 = out@;
    assert(o1 =~= o + nat_str((i + 1) as nat) + seq!['\n'] + ts_str(c.start as int));
    out.push(' ');
    out.push('-');
    out.push('-');
    out.push('>');
    out.push(' ');
    push_ts(out, c.end);
    out.push('\n');
    let ghost o2 = out@;
    assert(o2 =~= o1 + seq![' ', '-', '-', '>', ' '] + ts_str(c.end as int) + seq!['\n']);
    push_str(out, c.text.as_str());
    out.push('\n');
    out.push('\n');
    assert(out@ =~= o2 + c.text@ + seq!['\n', '\n']);
    assert(out@ =~= o + srt_entry(i as int, c@));
}

/// The SRT file text of the cues.
pub fn write_srt_str(cues: &[Cue]) -> (s: String)
    ensures
        s@ == srt_text(cue_views(cues@)),
{
    let mut out: Vec<char> = Vec::new();
    let mut i: usize = 0;
    let n = cues.len();
    while i < n
        invariant
            i <= n,
            n == cues@.len(),
            out@ == srt_text(cue_views(cues@).take(i as int)),
        decreases cues.len() - i,
    {
        let c = &cues[i];
        push_entry(&mut out, i as u64, c);
        proof {
            assert(cue_views(cues@).take(i + 1).drop_last() =~= cue_views(cues@).take(i as int));
            assert(cue_views(cues@).take(i + 1).last() == c@);
        }
        i += 1;
    }
    assert(cue_views(cues@).take(cues@.len() as int) =~= cue_views(cues@));
    from_chars(out.as_slice())
}

// ------------------------------------------------------------------ shifting

/// A cue moved by `offset` milliseconds, times held at 0 or later.
pub open spec fn shift_cue(c: CueView, offset: int) -> CueView {
    (
        if c.0 + offset < 0 {
            0
        } else {
            c.0 + offset
        },
        if c.1 + offset < 0 {
            0
        } else {
            c.1 + offset
        },
        c.2,
    )
}

/// Every cue moved by `offset` milliseconds.
pub open spec fn shift_spec(cs: Seq<CueView>, offset: int) -> Seq<CueView> {
    cs.map_values(|c: CueView| shift_cue(c, offset))
}

/// The cues moved by `offset` milliseconds (negative moves earlier); a time
/// that would fall before 0 becomes 0.
pub fn shift(cues: &[Cue], offset: i64) -> (r: Vec<Cue>)
    requires
        forall|i: int|
            0 <= i < cues@.len() ==> i64::MIN <= #[trigger] cues@[i].start + offset <= i64::MAX
                && i64::MIN <= cues@[i].end + offset <= i64::MAX,
    ensures
        cue_views(r@) == shift_spec(cue_views(cues@), offset as int),
{
    let mut r: Vec<Cue> = Vec::new();
    let mut i: usize = 0;
    while i < cues.len()
        invariant
            i <= cues@.len(),
            forall|j: int|
                0 <= j < cues@.len() ==> i64::MIN <= #[trigger] cues@[j].start + offset <= i64::MAX
                    && i64::MIN <= cues@[j].end + offset <= i64::MAX,
            cue_views(r@) == shift_spec(cue_views(cues@.take(i as int)), offset as int),
        decreases cues.len() - i,
    {
        let c = &cues[i];
        assert(i64::MIN <= cues@[i as int].start + offset <= i64::MAX);
        let s0 = c.start + offset;
        let e0 = c.end + offset;
        let start = if s0 < 0 {
            0
        } else {
            s0
        };
        let end = if e0 < 0 {
            0
        } else {
            e0
        };
        let text = c.text.clone();
        let ghost before = cue_views(r@);
        r.push(Cue { start, end, text });
        assert(cue_views(r@) =~= shift_spec(cue_views(cues@.take(i + 1)), offset as int)) by {
            assert(cues@.take(i + 1) =~= cues@.take(i as int).push(*c));
            assert(cue_views(r@) =~= before.push((start as int, end as int, text@)));
        }
        i += 1;
    }
    assert(cues@.take(cues@.len() as int) =~= cues@);
    r
}

/// The cues still shown at `t`: with `t > 0`, cues that end at or before `t`
/// are dropped and the others start at `t` at the earliest.
pub open spec fn hide_spec(cs: Seq<CueView>, t: int) -> Seq<CueView>
    decreases cs.len(),
{
    if t <= 0 {
        cs
    } else if cs.len() == 0 {
        seq![]
    } else {
        let c = cs.last();
        hide_spec(cs.drop_last(), t) + if c.1 > t {
            seq![
                (if c.0 < t {
                    t
                } else {
                    c.0
                }, c.1, c.2),
            ]
        } else {
            seq![]
        }
    }
}

/// Hides what is shown before `t` milliseconds: cues ending by then are
/// dropped, the others start at `t` at the earliest. `t <= 0` keeps all.
pub fn hide_before(cues: &[Cue], t: i64) -> (r: Vec<Cue>)
    ensures
        cue_views(r@) == hide_spec(cue_views(cues@), t as int),
{
    let mut r: Vec<Cue> = Vec::new();
    let mut i: usize = 0;
    while i < cues.len()
        invariant
            i <= cues@.len(),
            cue_views(r@) == hide_spec(cue_views(cues@.take(i as int)), t as int),
        decreases cues.len() - i,
    {
        let c = &cues[i];
        let ghost before = cue_views(r@);
        proof {
            assert(cues@.take(i + 1) =~= cues@.take(i as int).push(*c));
            assert(cue_views(cues@.take(i + 1)).drop_last() =~= cue_views(cues@.take(i as int)));
            assert(cue_views(cues@.take(i + 1)).last() == c@);
        }
        if t <= 0 || c.end > t {
            let start = if t > 0 && c.start < t {
                t
            } else {
                c.start
            };
            r.push(Cue { start, end: c.end, text: c.text.clone() });
            assert(cue_views(r@) =~= before.push((start as int, c.end as int, c.text@)));
            proof {
                if t <= 0 {
                    assert(cue_views(cues@.take(i + 1)) =~= cue_views(cues@.take(i as int)).push(
                        c@,
                    ));
                }
            }
        }
        i += 1;
    }
    assert(cues@.take(cues@.len() as int) =~= cues@);
    r
}

// ------------------------------------------------------------------ laws

pub proof fn lemma_digit(d: int)
    requires
        0 <= d < 10,
    ensures
        is_digit(digit_char(d)),
        digit_val(digit_char(d)) == d,
{
}

proof fn lemma_pad2(n: nat)
    requires
        n < 100,
    ensures
        pad_zeros(nat_str(n), 2) == seq![digit_char((n / 10) as int), digit_char((n % 10) as int)],
{
    if n < 10 {
        assert(nat_str(n) == seq![digit_char(n as int)]);
        assert(digit_char(0) == '0');
        assert(pad_zeros(nat_str(n), 2) =~= seq![digit_char((n / 10) as int), digit_char((n % 10) as int)]);
    } else {
        assert(nat_str(n / 10) == seq![digit_char((n / 10) as int)]);
        assert(nat_str(n) =~= seq![digit_char((n / 10) as int), digit_char((n % 10) as int)]);
    }
}

proof fn lemma_pad3(n: nat)
    requires
        n < 1000,
    ensures
        pad_zeros(nat_str(n), 3) == seq![
            digit_char((n / 100) as int),
            digit_char(((n / 10) % 10) as int),
            digit_char((n % 10) as int),
        ],
{
    assert(digit_char(0) == '0');
    if n < 10 {
        assert(nat_str(n) == seq![digit_char(n as int)]);
        assert(pad_zeros(nat_str(n), 3) =~= seq![
            digit_char((n / 100) as int),
            digit_char(((n / 10) % 10) as int),
            digit_char((n % 10) as int),
        ]);
    } else if n < 100 {
        assert(nat_str(n / 10) == seq![digit_char((n / 10) as int)]);
        assert(nat_str(n) =~= seq![digit_char((n / 10) as int), digit_char((n % 10) as int)]);
        assert(pad_zeros(nat_str(n), 3) =~= seq![
            digit_char((n / 100) as int),
            digit_char(((n / 10) % 10) as int),
            digit_char((n % 10) as int),
        ]);
    } else {
        assert(nat_str(n / 100) == seq![digit_char((n / 100) as int)]);
        assert((n / 10) / 10 == n / 100);
        assert(nat_str(n / 10) =~= seq![digit_char((n / 100) as int), digit_char(((n / 10) % 10) as int)]);
        assert(nat_str(n) =~= seq![
            digit_char((n / 100) as int),
            digit_char(((n / 10) % 10) as int),
            digit_char((n % 10) as int),
        ]);
    }
}

pub proof fn lemma_ts_value_digits(s: Seq<char>, d: Seq<int>)
    requires
        d.len() == 9,
        forall|i: int| 0 <= i < 9 ==> 0 <= #[trigger] d[i] < 10,
        s == seq![
            digit_char(d[0]), digit_char(d[1]), ':',
            digit_char(d[2]), digit_char(d[3]), ':',
            digit_char(d[4]), digit_char(d[5]), ',',
            digit_char(d[6]), digit_char(d[7]), digit_char(d[8]),
        ],
    ensures
        ts_at(s, 0),
        ts_value(s, 0) == (d[0] * 10 + d[1]) * 3_600_000 + (d[2] * 10 + d[3]) * 60_000 + (d[4] * 10
            + d[5]) * 1000 + d[6] * 100 + d[7] * 10 + d[8],
{
    assert(0 <= d[0] < 10 && 0 <= d[1] < 10 && 0 <= d[2] < 10 && 0 <= d[3] < 10 && 0 <= d[4] < 10);
    assert(0 <= d[5] < 10 && 0 <= d[6] < 10 && 0 <= d[7] < 10 && 0 <= d[8] < 10);
    lemma_digit(d[0]);
    lemma_digit(d[1]);
    lemma_digit(d[2]);
    lemma_digit(d[3]);
    lemma_digit(d[4]);
    lemma_digit(d[5]);
    lemma_digit(d[6]);
    lemma_digit(d[7]);
    lemma_digit(d[8]);
}

pub proof fn lemma_ms_parts(ms: int)
    requires
        0 <= ms < 360_000_000,
    ensures
        ({
            let h = ms / 3_600_000;
            let mi = (ms % 3_600_000) / 60_000;
            let se = (ms % 60_000) / 1000;
            let mm = ms % 1000;
            &&& 0 <= h < 100 && 0 <= mi < 60 && 0 <= se < 60 && 0 <= mm < 1000
            &&& h * 3_600_000 + mi * 60_000 + se * 1000 + mm == ms
        }),
{
    let h = ms / 3_600_000;
    let r1 = ms % 3_600_000;
    let mi = r1 / 60_000;
    let r2 = r1 % 60_000;
    assert(ms == h * 3_600_000 + r1 && 0 <= r1 < 3_600_000);
    assert(r1 == mi * 60_000 + r2 && 0 <= r2 < 60_000);
    assert(ms % 60_000 == r2) by {
        vstd::arithmetic::div_mod::lemma_fundamental_div_mod_converse(ms, 60_000, h * 60 + mi, r2);
    }
    assert(ms % 1000 == r2 % 1000) by {
        vstd::arithmetic::div_mod::lemma_fundamental_div_mod_converse(ms, 1000, h * 3600 + mi * 60 + r2 / 1000, r2 % 1000);
    }
}

pub proof fn lemma_ts_str_chars(t: int)
    requires
        t < 360_000_000,
    ensures
        ({
            let ms = if t < 0 { 0 } else { t };
            let h = ms / 3_600_000;
            let mi = (ms % 3_600_000) / 60_000;
            let se = (ms % 60_000) / 1000;
            let mm = ms % 1000;
            ts_str(t) == seq![
                digit_char(h / 10), digit_char(h % 10), ':',
                digit_char(mi / 10), digit_char(mi % 10), ':',
                digit_char(se / 10), digit_char(se % 10), ',',
                digit_char(mm / 100), digit_char((mm / 10) % 10), digit_char(mm % 10),
            ]
        }),
{
    let ms = if t < 0 {
        0
    } else {
        t
    };
    let h = ms / 3_600_000;
    let mi = (ms % 3_600_000) / 60_000;
    let se = (ms % 60_000) / 1000;
    let mm = ms % 1000;
    lemma_ms_parts(ms);
    lemma_pad2(h as nat);
    lemma_pad2(mi as nat);
    lemma_pad2(se as nat);
    lemma_pad3(mm as nat);
    reveal(ts_str);
    assert(ts_str(t) =~= seq![
        digit_char(h / 10), digit_char(h % 10), ':',
        digit_char(mi / 10), digit_char(mi % 10), ':',
        digit_char(se / 10), digit_char(se % 10), ',',
        digit_char(mm / 100), digit_char((mm / 10) % 10), digit_char(mm % 10),
    ]);
}

/// A timestamp written for `t` milliseconds, with `t` under 100 hours, reads
/// back as `t` (as 0 when `t` is negative).
pub proof fn law_timestamp_roundtrip(t: int)
    requires
        t < 360_000_000,
    ensures
        first_ts(ts_str(t)) == Some(if t < 0 {
            0
        } else {
            t
        }),
{
    let ms = if t < 0 {
        0
    } else {
        t
    };
    let h = ms / 3_600_000;
    let mi = (ms % 3_600_000) / 60_000;
    let se = (ms % 60_000) / 1000;
    let mm = ms % 1000;
    lemma_ms_parts(ms);
    lemma_ts_str_chars(t);
    let s = ts_str(t);
    let d = seq![h / 10, h % 10, mi / 10, mi % 10, se / 10, se % 10, mm / 100, (mm / 10) % 10, mm % 10];
    assert(s == seq![
        digit_char(d[0]), digit_char(d[1]), ':',
        digit_char(d[2]), digit_char(d[3]), ':',
        digit_char(d[4]), digit_char(d[5]), ',',
        digit_char(d[6]), digit_char(d[7]), digit_char(d[8]),
    ]);
    lemma_ts_value_digits(s, d);
    assert(h / 10 * 10 + h % 10 == h);
    assert(mi / 10 * 10 + mi % 10 == mi);
    assert(se / 10 * 10 + se % 10 == se);
    assert(mm / 100 * 100 + (mm / 10) % 10 * 10 + mm % 10 == mm);
    lemma_first_ts_from(s, 0, 0);
}

/// Moving cues earlier twice moves them earlier by the sum of the offsets.
pub proof fn law_shift_earlier_compose(cs: Seq<CueView>, a: int, b: int)
    requires
        a <= 0,
        b <= 0,
    ensures
        shift_spec(shift_spec(cs, a), b) == shift_spec(cs, a + b),
{
    assert(shift_spec(shift_spec(cs, a), b) =~= shift_spec(cs, a + b));
}

/// Cues at 0 or later.
pub open spec fn times_nonneg(cs: Seq<CueView>) -> bool {
    forall|i: int| 0 <= i < cs.len() ==> #[trigger] cs[i].0 >= 0 && cs[i].1 >= 0
}

/// Moving cues at 0 or later later twice moves them later by the sum of the
/// offsets.
pub proof fn law_shift_later_compose(cs: Seq<CueView>, a: int, b: int)
    requires
        a >= 0,
        b >= 0,
        times_nonneg(cs),
    ensures
        shift_spec(shift_spec(cs, a), b) == shift_spec(cs, a + b),
{
    assert forall|i: int| 0 <= i < cs.len() implies shift_spec(shift_spec(cs, a), b)[i] == shift_spec(cs, a + b)[i] by {
        assert(cs[i].0 >= 0 && cs[i].1 >= 0);
    }
    assert(shift_spec(shift_spec(cs, a), b) =~= shift_spec(cs, a + b));
}

/// Moving cues at 0 or later by `a >= 0` and then back by `-a` gives them
/// back unchanged; so does moving them by 0.
pub proof fn law_shift_undo(cs: Seq<CueView>, a: int)
    requires
        a >= 0,
        times_nonneg(cs),
    ensures
        shift_spec(shift_spec(cs, a), -a) == cs,
        shift_spec(cs, 0) == cs,
{
    assert forall|i: int| 0 <= i < cs.len() implies shift_spec(shift_spec(cs, a), -a)[i] == cs[i] by {
        assert(cs[i].0 >= 0 && cs[i].1 >= 0);
    }
    assert forall|i: int| 0 <= i < cs.len() implies shift_spec(cs, 0)[i] == cs[i] by {
        assert(cs[i].0 >= 0 && cs[i].1 >= 0);
    }
    assert(shift_spec(shift_spec(cs, a), -a) =~= cs);
    assert(shift_spec(cs, 0) =~= cs);
}

/// Hiding what comes before `t` a second time changes nothing.
pub proof fn law_hide_idempotent(cs: Seq<CueView>, t: int)
    ensures
        hide_spec(hide_spec(cs, t), t) == hide_spec(cs, t),
    decreases cs.len(),
{
    if t > 0 && cs.len() > 0 {
        law_hide_idempotent(cs.drop_last(), t);
        let h = hide_spec(cs.drop_last(), t);
        let c = cs.last();
        if c.1 > t {
            let c2 = (if c.0 < t { t } else { c.0 }, c.1, c.2);
            let x = h + seq![c2];
            assert(x.drop_last() =~= h);
            assert(x.last() == c2);
        } else {
            assert(hide_spec(cs, t) == h);
        }
    }
}

/// After hiding what comes before `t > 0`, every cue starts at `t` or later
/// and ends after `t`; no cue that ended by `t` is left.
pub proof fn law_hide_after(cs: Seq<CueView>, t: int)
    requires
        t > 0,
    ensures
        forall|i: int| 0 <= i < hide_spec(cs, t).len() ==> #[trigger] hide_spec(cs, t)[i].0 >= t
            && hide_spec(cs, t)[i].1 > t,
        hide_spec(cs, t).len() <= cs.len(),
    decreases cs.len(),
{
    if cs.len() > 0 {
        law_hide_after(cs.drop_last(), t);
        let h = hide_spec(cs.drop_last(), t);
        assert forall|i: int| 0 <= i < hide_spec(cs, t).len() implies #[trigger] hide_spec(cs, t)[i].0 >= t
            && hide_spec(cs, t)[i].1 > t by {
            if i < h.len() {
                assert(hide_spec(cs, t)[i] == h[i]);
            }
        }
    }
}

} // verus!
