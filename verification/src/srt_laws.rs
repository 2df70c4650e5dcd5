//! What reading gives back of writing: an SRT file written for cues reads
//! back as the same cues, for every cue that the format can carry.
use vstd::prelude::*;
use crate::num::{digit_char, is_digit, nat_str};
use crate::srt::{
    arrow, first_ts, last_nl, lemma_digit, lemma_first_ts_from, lemma_last_nl_bounds,
    lemma_ms_parts, lemma_ts_str_chars, lemma_ts_value_digits, lemma_ws_run_end_bounds, sep_end,
    ts_at, ts_str, ts_value, ws_run_end, CueView,
};
use crate::text::{
    find_seq, index_of, is_ws, join, lemma_find_seq, lemma_index_of, lines, occurs_at, strip_cr,
    trim, trim_end, trim_start,
};

verus! {

/// The timestamps line of a cue: start, ` --> `, end.
pub open spec fn ts_line(c: CueView) -> Seq<char> {
    ts_str(c.0) + seq![' ', '-', '-', '>', ' '] + ts_str(c.1)
}

pub proof fn lemma_nat_str_digits(n: nat)
    ensures
        nat_str(n).len() >= 1,
        forall|j: int| 0 <= j < nat_str(n).len() ==> is_digit(#[trigger] nat_str(n)[j]),
    decreases n,
{
    if n < 10 {
        lemma_digit(n as int);
    } else {
        lemma_nat_str_digits(n / 10);
        lemma_digit((n % 10) as int);
        let s = nat_str(n);
        assert forall|j: int| 0 <= j < s.len() implies is_digit(#[trigger] s[j]) by {
            if j < s.len() - 1 {
                assert(s[j] == nat_str(n / 10)[j]);
            }
        }
    }
}

proof fn lemma_ts_digits(t: int)
    requires
        0 <= t < 360_000_000,
    ensures
        ts_str(t).len() == 12,
        ts_at(ts_str(t), 0),
        ts_value(ts_str(t), 0) == t,
        forall|j: int|
            0 <= j < 12 ==> (is_digit(#[trigger] ts_str(t)[j]) || ts_str(t)[j] == ':' || ts_str(t)[j] == ','),
        is_digit(ts_str(t)[0]),
        is_digit(ts_str(t)[11]),
{
    let ms = t;
    let h = ms / 3_600_000;
    let mi = (ms % 3_600_000) / 60_000;
    let se = (ms % 60_000) / 1000;
    let mm = ms % 1000;
    lemma_ms_parts(ms);
    lemma_ts_str_chars(t);
    let s = ts_str(t);
    let d = seq![h / 10, h % 10, mi / 10, mi % 10, se / 10, se % 10, mm / 100, (mm / 10) % 10, mm % 10];
    assert(s == seq![
        digit_char(d[0]), digit_char(d[1]), ':',
        digit_char(d[2]), digit_char(d[3]), ':',
        digit_char(d[4]), digit_char(d[5]), ',',
        digit_char(d[6]), digit_char(d[7]), digit_char(d[8]),
    ]);
    lemma_ts_value_digits(s, d);
    assert(h / 10 * 10 + h % 10 == h);
    assert(mi / 10 * 10 + mi % 10 == mi);
    assert(se / 10 * 10 + se % 10 == se);
    assert(mm / 100 * 100 + (mm / 10) % 10 * 10 + mm % 10 == mm);
}

proof fn lemma_first_ts_prefix(s: Seq<char>, t: int)
    requires
        0 <= t < 360_000_000,
        s.len() >= 12,
        s.take(12) == ts_str(t),
    ensures
        first_ts(s) == Some(t),
{
    lemma_ts_digits(t);
    let u = ts_str(t);
    assert forall|j: int| 0 <= j < 12 implies #[trigger] s[j] == u[j] by {
        assert(s.take(12)[j] == s[j]);
    }
    assert(ts_at(s, 0));
    assert(ts_value(s, 0) == ts_value(u, 0));
    lemma_first_ts_from(s, 0, 0);
}

proof fn lemma_first_ts_after_space(s: Seq<char>, t: int)
    requires
        0 <= t < 360_000_000,
        s.len() == 13,
        s[0] == ' ',
        s.skip(1) == ts_str(t),
    ensures
        first_ts(s) == Some(t),
{
    lemma_ts_digits(t);
    let u = ts_str(t);
    assert forall|j: int| 0 <= j < 12 implies #[trigger] s[j + 1] == u[j] by {
        assert(s.skip(1)[j] == s[j + 1]);
    }
    assert(!ts_at(s, 0));
    assert(ts_at(s, 1));
    assert(ts_value(s, 1) == ts_value(u, 0));
    lemma_first_ts_from(s, 0, 1);
}

/// The facts of a timestamps line that reading relies on.
pub proof fn lemma_ts_line(c: CueView)
    requires
        0 <= c.0 < 360_000_000,
        0 <= c.1 < 360_000_000,
    ensures
        ts_line(c).len() == 29,
        forall|j: int| 0 <= j < 29 ==> #[trigger] ts_line(c)[j] != '\n' && ts_line(c)[j] != '\r',
        is_digit(ts_line(c)[0]),
        is_digit(ts_line(c)[28]),
        find_seq(ts_line(c), arrow()) == 13,
        first_ts(ts_line(c).take(13)) == Some(c.0),
        first_ts(ts_line(c).skip(16)) == Some(c.1),
        trim(ts_line(c)) == ts_line(c),
{
    lemma_ts_digits(c.0);
    lemma_ts_digits(c.1);
    let l = ts_line(c);
    let a = ts_str(c.0);
    let b = ts_str(c.1);
    assert forall|j: int| 0 <= j < 12 implies #[trigger] l[j] == a[j] by {}
    assert forall|j: int| 0 <= j < 12 implies #[trigger] l[j + 17] == b[j] by {}
    assert forall|j: int| 0 <= j < 29 implies #[trigger] l[j] != '\n' && l[j] != '\r' by {
        if j < 12 {
            assert(l[j] == a[j]);
        } else if j >= 17 {
            assert(l[j] == b[j - 17]);
        }
    }
    assert(l[13] == '-' && l[14] == '-' && l[15] == '>');
    assert forall|j: int| 0 <= j < 13 implies !#[trigger] occurs_at(l, arrow(), j) by {
        if j < 12 {
            assert(l[j] == a[j]);
            assert(l.subrange(j, j + 3)[0] == l[j]);
        } else {
            assert(l.subrange(j, j + 3)[0] == l[j]);
        }
    }
    assert(l.subrange(13, 16) =~= arrow());
    lemma_find_seq(l, arrow(), 13);
    assert(l.take(13).take(12) =~= a);
    lemma_first_ts_prefix(l.take(13), c.0);
    assert(l.skip(16).skip(1) =~= b);
    lemma_first_ts_after_space(l.skip(16), c.1);
    assert(!is_ws(l[0]));
    assert(!is_ws(l[28]));
    crate::text::lemma_trim_start_at(l, 0);
    assert(l.subrange(0, 29) =~= l);
    crate::text::lemma_trim_end_at(l, 29);
}

// ------------------------------------------------------------------ separators

/// `w` sits in `s` at `off`.
pub open spec fn window(s: Seq<char>, w: Seq<char>, off: int) -> bool {
    0 <= off && off + w.len() <= s.len() && s.subrange(off, off + w.len()) == w
}

proof fn lemma_window_at(s: Seq<char>, w: Seq<char>, off: int, j: int)
    requires
        window(s, w, off),
        0 <= j < w.len(),
    ensures
        s[off + j] == w[j],
{
    assert(s.subrange(off, off + w.len())[j] == s[off + j]);
}

proof fn lemma_ws_run_window(s: Seq<char>, w: Seq<char>, off: int, q: int)
    requires
        window(s, w, off),
        0 <= q <= w.len(),
        ws_run_end(w, q) < w.len(),
    ensures
        ws_run_end(s, off + q) == off + ws_run_end(w, q),
    decreases w.len() - q,
{
    if q < w.len() {
        lemma_window_at(s, w, off, q);
        if is_ws(w[q]) {
            lemma_ws_run_window(s, w, off, q + 1);
        }
    }
}

proof fn lemma_last_nl_window(s: Seq<char>, w: Seq<char>, off: int, lo: int, hi: int)
    requires
        window(s, w, off),
        0 <= lo,
        hi <= w.len(),
    ensures
        last_nl(s, off + lo, off + hi) == off + last_nl(w, lo, hi),
    decreases hi - lo,
{
    if hi > lo {
        lemma_window_at(s, w, off, hi - 1);
        if w[hi - 1] != '\n' {
            lemma_last_nl_window(s, w, off, lo, hi - 1);
        }
    }
}

proof fn lemma_ws_run_before_end(w: Seq<char>, i: int)
    requires
        0 <= i < w.len(),
        !is_ws(w.last()),
    ensures
        ws_run_end(w, i) < w.len(),
{
    lemma_ws_run_end_bounds(w, i);
    if ws_run_end(w, i) == w.len() {
        assert(is_ws(w[w.len() - 1]));
    }
}

/// Where a piece `w` ending in a non-whitespace character sits in `s`, the
/// separators that start inside it are its own.
pub proof fn lemma_sep_end_window(s: Seq<char>, w: Seq<char>, off: int, p: int)
    requires
        window(s, w, off),
        0 <= p < w.len(),
        !is_ws(w.last()),
    ensures
        sep_end(s, off + p) == (if sep_end(w, p) > 0 {
            off + sep_end(w, p)
        } else {
            0
        }),
{
    lemma_window_at(s, w, off, p);
    if w[p] == '\n' {
        assert(is_ws('\n'));
        assert(p < w.len() - 1);
        lemma_ws_run_before_end(w, p + 1);
        lemma_ws_run_window(s, w, off, p + 1);
        let e = ws_run_end(w, p + 1);
        lemma_last_nl_window(s, w, off, p + 1, e);
    }
}

/// Every line of `t` holds something other than whitespace.
pub open spec fn lines_nonblank(t: Seq<char>) -> bool {
    forall|i: int| 0 <= i < lines(t).len() ==> trim(#[trigger] lines(t)[i]).len() > 0
}

proof fn lemma_trim_nonempty_has(l: Seq<char>) -> (j: int)
    requires
        trim(l).len() > 0,
    ensures
        0 <= j < l.len(),
        !is_ws(l[j]),
{
    crate::text::lemma_trim_ends(l);
    let t0 = trim_start(l);
    if forall|k: int| 0 <= k < l.len() ==> is_ws(#[trigger] l[k]) {
        crate::text::lemma_trim_start_at(l, l.len() as int);
        assert(t0.len() == 0);
        assert(trim_end(t0) =~= Seq::<char>::empty());
        assert(false);
    }
    choose|j: int| 0 <= j < l.len() && !is_ws(l[j])
}

/// A text whose lines all hold something, ending in a non-whitespace
/// character, holds no blank-line separator.
pub proof fn lemma_no_sep(t: Seq<char>)
    requires
        t.len() > 0,
        !is_ws(t.last()),
        lines_nonblank(t),
    ensures
        forall|p: int| 0 <= p < t.len() ==> #[trigger] sep_end(t, p) == 0,
    decreases t.len(),
{
    let k = index_of(t, '\n');
    crate::text::lemma_index_of_props(t, '\n');
    if k >= t.len() {
        assert forall|p: int| 0 <= p < t.len() implies #[trigger] sep_end(t, p) == 0 by {
            assert(t[p] != '\n');
        }
    } else {
        let a = t.take(k);
        let r = t.skip(k + 1);
        assert(lines(t) == seq![strip_cr(a)] + lines(r));
        assert(r.len() > 0) by {
            if r.len() == 0 {
                assert(t.last() == t[k]);
                assert(is_ws('\n'));
            }
        }
        assert(r.last() == t.last());
        assert forall|i: int| 0 <= i < lines(r).len() implies trim(#[trigger] lines(r)[i]).len() > 0 by {
            assert(lines(r)[i] == lines(t)[i + 1]);
        }
        lemma_no_sep(r);
        assert(window(t, r, k + 1)) by {
            assert(t.subrange(k + 1, k + 1 + r.len()) =~= r);
        }
        // the first line of `r` holds a non-whitespace character
        let kr = index_of(r, '\n');
        crate::text::lemma_index_of_props(r, '\n');
        assert(lines(r)[0] == strip_cr(if kr >= r.len() { r } else { r.take(kr) }));
        assert(trim(lines(r)[0]).len() > 0);
        let j0 = lemma_trim_nonempty_has(lines(r)[0]);
        assert(r[j0] == lines(r)[0][j0]) by {
            if kr < r.len() {
                assert(r.take(kr)[j0] == r[j0]);
            }
        }
        assert(j0 < kr || kr >= r.len());
        assert forall|p: int| 0 <= p < t.len() implies #[trigger] sep_end(t, p) == 0 by {
            if p < k {
                assert(t[p] != '\n');
            } else if p == k {
                lemma_ws_run_end_bounds(t, k + 1);
                let e = ws_run_end(t, k + 1);
                lemma_window_at(t, r, k + 1, j0);
                assert(e <= k + 1 + j0) by {
                    if e > k + 1 + j0 {
                        assert(is_ws(t[k + 1 + j0]));
                    }
                }
                assert forall|q: int| k + 1 <= q < e implies t[q] != '\n' by {
                    lemma_window_at(t, r, k + 1, q - k - 1);
                    if t[q] == '\n' {
                        assert(q - k - 1 < j0);
                        assert(r[q - k - 1] == '\n');
                        if kr < r.len() {
                            crate::text::lemma_index_of(r, '\n', kr);
                        }
                    }
                }
                lemma_last_nl_bounds(t, k + 1, e);
            } else {
                lemma_sep_end_window(t, r, k + 1, p - k - 1);
            }
        }
    }
}

// ------------------------------------------------------------------ lines

/// No carriage return stands right before a line feed in `t`.
pub open spec fn no_crlf(t: Seq<char>) -> bool {
    forall|p: int| 0 < p < t.len() && #[trigger] t[p] == '\n' ==> t[p - 1] != '\r'
}

proof fn lemma_lines_cons(a: Seq<char>, b: Seq<char>)
    requires
        forall|j: int| 0 <= j < a.len() ==> #[trigger] a[j] != '\n',
        a.len() == 0 || a.last() != '\r',
    ensures
        lines(a + seq!['\n'] + b) == seq![a] + lines(b),
{
    let s = a + seq!['\n'] + b;
    assert forall|j: int| 0 <= j < a.len() implies #[trigger] s[j] != '\n' by {
        assert(s[j] == a[j]);
    }
    lemma_index_of(s, '\n', a.len() as int);
    assert(s.take(a.len() as int) =~= a);
    assert(s.skip(a.len() as int + 1) =~= b);
}

proof fn lemma_lines_single(a: Seq<char>)
    requires
        a.len() > 0,
        forall|j: int| 0 <= j < a.len() ==> #[trigger] a[j] != '\n',
    ensures
        lines(a) == seq![a],
{
    lemma_index_of(a, '\n', a.len() as int);
}

proof fn lemma_join_cons(x: Seq<char>, l: Seq<Seq<char>>, sep: Seq<char>)
    requires
        l.len() > 0,
    ensures
        join(seq![x] + l, sep) == x + sep + join(l, sep),
    decreases l.len(),
{
    if l.len() == 1 {
        assert((seq![x] + l).drop_last() =~= seq![x]);
        assert((seq![x] + l).last() == l[0]);
        assert(join(seq![x], sep) == x);
        assert(join(l, sep) == l[0]);
    } else {
        lemma_join_cons(x, l.drop_last(), sep);
        assert((seq![x] + l).drop_last() =~= seq![x] + l.drop_last());
        assert((seq![x] + l).last() == l.last());
    }
}

/// A text not ending in a line break and without `\r\n` is its lines
/// joined with line breaks.
pub proof fn lemma_lines_join(t: Seq<char>)
    requires
        t.len() > 0,
        t.last() != '\n',
        no_crlf(t),
    ensures
        join(lines(t), seq!['\n']) == t,
    decreases t.len(),
{
    let k = index_of(t, '\n');
    crate::text::lemma_index_of_props(t, '\n');
    if k >= t.len() {
        assert(lines(t) == seq![t]);
    } else {
        let a = t.take(k);
        let r = t.skip(k + 1);
        assert(r.len() > 0) by {
            if r.len() == 0 {
                assert(t.last() == t[k]);
            }
        }
        assert(strip_cr(a) == a) by {
            if a.len() > 0 {
                assert(a.last() == t[k - 1]);
            }
        }
        assert(r.last() == t.last());
        assert forall|p: int| 0 < p < r.len() && #[trigger] r[p] == '\n' implies r[p - 1] != '\r' by {
            assert(r[p] == t[p + k + 1]);
            assert(r[p - 1] == t[p + k]);
        }
        lemma_lines_join(r);
        assert(lines(t) == seq![a] + lines(r));
        lemma_join_cons(a, lines(r), seq!['\n']);
        assert(a + seq!['\n'] + r =~= t);
    }
}

/// The non-blank lines of a concatenation are those of each part.
proof fn lemma_nonblank_concat(x: Seq<Seq<char>>, y: Seq<Seq<char>>)
    ensures
        crate::srt::nonblank(x + y) == crate::srt::nonblank(x) + crate::srt::nonblank(y),
    decreases y.len(),
{
    if y.len() == 0 {
        assert(x + y =~= x);
        assert(crate::srt::nonblank(x) + crate::srt::nonblank(y) =~= crate::srt::nonblank(x));
    } else {
        lemma_nonblank_concat(x, y.drop_last());
        assert((x + y).drop_last() =~= x + y.drop_last());
        assert((x + y).last() == y.last());
        assert(crate::srt::nonblank(x) + crate::srt::nonblank(y) =~= crate::srt::nonblank(x)
            + crate::srt::nonblank(y.drop_last()) + (if trim(y.last()).len() > 0 {
            seq![y.last()]
        } else {
            seq![]
        }));
    }
}

/// Lines that all hold something are all kept.
proof fn lemma_nonblank_all(l: Seq<Seq<char>>)
    requires
        forall|i: int| 0 <= i < l.len() ==> trim(#[trigger] l[i]).len() > 0,
    ensures
        crate::srt::nonblank(l) == l,
    decreases l.len(),
{
    if l.len() > 0 {
        let p = l.drop_last();
        assert forall|i: int| 0 <= i < p.len() implies trim(#[trigger] p[i]).len() > 0 by {
            assert(p[i] == l[i]);
        }
        lemma_nonblank_all(p);
        assert(trim(l.last()).len() > 0) by {
            assert(l.last() == l[l.len() - 1]);
        }
        assert(p.push(l.last()) =~= l);
    }
}

// ------------------------------------------------------------------ one cue

/// What a cue must be for the SRT format to carry it unchanged: times from
/// 0 to under 100 hours, and a text that is trimmed, has no blank line and
/// no `\r` right before a line break.
pub open spec fn cue_writable(c: CueView) -> bool {
    &&& 0 <= c.0 < 360_000_000
    &&& 0 <= c.1 < 360_000_000
    &&& trim(c.2) == c.2
    &&& no_crlf(c.2)
    &&& lines_nonblank(c.2)
}

/// The block a written cue leaves between separators: its number, its
/// timestamps line and, when it has one, its text.
pub open spec fn block_of(i: int, c: CueView) -> Seq<char> {
    nat_str((i + 1) as nat) + seq!['\n'] + ts_line(c) + (if c.2.len() > 0 {
        seq!['\n'] + c.2
    } else {
        seq![]
    })
}

proof fn lemma_block_lines(i: int, c: CueView)
    requires
        i >= 0,
        cue_writable(c),
    ensures
        lines(block_of(i, c)) == seq![nat_str((i + 1) as nat), ts_line(c)] + lines(c.2),
{
    let n = nat_str((i + 1) as nat);
    lemma_nat_str_digits((i + 1) as nat);
    lemma_ts_line(c);
    assert forall|j: int| 0 <= j < n.len() implies #[trigger] n[j] != '\n' by {
        assert(is_digit(n[j]));
    }
    assert(is_digit(n.last())) by {
        assert(n.last() == n[n.len() - 1]);
    }
    let l = ts_line(c);
    assert forall|j: int| 0 <= j < l.len() implies #[trigger] l[j] != '\n' by {}
    let rest = l + (if c.2.len() > 0 {
        seq!['\n'] + c.2
    } else {
        seq![]
    });
    assert(block_of(i, c) =~= n + seq!['\n'] + rest);
    lemma_lines_cons(n, rest);
    if c.2.len() > 0 {
        assert(rest =~= l + seq!['\n'] + c.2);
        assert(l.last() == l[28]);
        lemma_lines_cons(l, c.2);
        assert(seq![n] + (seq![l] + lines(c.2)) =~= seq![n, l] + lines(c.2));
    } else {
        assert(rest =~= l);
        lemma_lines_single(l);
        assert(lines(c.2) =~= Seq::<Seq<char>>::empty()) by {
            assert(c.2 =~= Seq::<char>::empty());
        }
        assert(seq![n] + seq![l] =~= seq![n, l] + lines(c.2));
    }
}

/// A written cue's block reads back as the cue.
pub proof fn lemma_parse_block_of(i: int, c: CueView)
    requires
        i >= 0,
        cue_writable(c),
    ensures
        crate::srt::parse_block(block_of(i, c)) == Some(c),
{
    let n = nat_str((i + 1) as nat);
    let l = ts_line(c);
    lemma_nat_str_digits((i + 1) as nat);
    lemma_ts_line(c);
    lemma_block_lines(i, c);
    let ls0 = lines(block_of(i, c));
    assert(trim(n).len() > 0) by {
        assert(!is_ws(n[0]));
        crate::text::lemma_trim_start_at(n, 0);
        assert(n.subrange(0, n.len() as int) =~= n);
        crate::text::lemma_trim_end_prefix(n);
    }
    assert forall|k: int| 0 <= k < ls0.len() implies trim(#[trigger] ls0[k]).len() > 0 by {
        if k == 0 {
            assert(ls0[0] == n);
        } else if k == 1 {
            assert(ls0[1] == l);
        } else {
            assert(ls0[k] == lines(c.2)[k - 2]);
        }
    }
    lemma_nonblank_all(ls0);
    let ls = crate::srt::nonblank(ls0);
    assert(ls == ls0);
    assert(ls[0] == n);
    assert(ls[1] == l);
    assert(find_seq(n, arrow()) == n.len()) by {
        assert forall|j: int| 0 <= j < n.len() implies !#[trigger] occurs_at(n, arrow(), j) by {
            if occurs_at(n, arrow(), j) {
                assert(n.subrange(j, j + 3)[0] == n[j]);
                assert(is_digit(n[j]));
            }
        }
        lemma_find_seq(n, arrow(), n.len() as int);
    }
    assert(crate::srt::arrow_line_from(ls, 1) == 1);
    assert(crate::srt::arrow_line_from(ls, 0) == 1);
    assert(ls.skip(2) =~= lines(c.2));
    if c.2.len() > 0 {
        assert(!is_ws(c.2.last())) by {
            crate::text::lemma_trim_ends(c.2);
        }
        lemma_lines_join(c.2);
    } else {
        assert(lines(c.2) =~= Seq::<Seq<char>>::empty()) by {
            assert(c.2 =~= Seq::<char>::empty());
        }
        assert(join(Seq::<Seq<char>>::empty(), seq!['\n']) =~= Seq::<char>::empty());
        assert(trim(Seq::<char>::empty()) =~= Seq::<char>::empty());
        assert(c.2 =~= Seq::<char>::empty());
    }
}

// ------------------------------------------------------------------ the file

/// The line breaks a written cue leaves after its block: two, or three when
/// its text is empty.
pub open spec fn gap_of(c: CueView) -> Seq<char> {
    if c.2.len() > 0 {
        seq!['\n', '\n']
    } else {
        seq!['\n', '\n', '\n']
    }
}

proof fn lemma_entry_split(i: int, c: CueView)
    ensures
        crate::srt::srt_entry(i, c) == block_of(i, c) + gap_of(c),
{
    assert(crate::srt::srt_entry(i, c) =~= block_of(i, c) + gap_of(c));
}

/// Where entry `k` starts in the written text.
pub open spec fn entry_start(cs: Seq<CueView>, k: int) -> int {
    crate::srt::srt_text(cs.take(k)).len() as int
}

proof fn lemma_srt_text_step(cs: Seq<CueView>, k: int)
    requires
        0 <= k < cs.len(),
    ensures
        crate::srt::srt_text(cs.take(k + 1)) == crate::srt::srt_text(cs.take(k)) + crate::srt::srt_entry(
            k,
            cs[k],
        ),
{
    assert(cs.take(k + 1).drop_last() =~= cs.take(k));
    assert(cs.take(k + 1).last() == cs[k]);
}

proof fn lemma_srt_text_prefix(cs: Seq<CueView>, k: int)
    requires
        0 <= k <= cs.len(),
    ensures
        entry_start(cs, k) <= crate::srt::srt_text(cs).len(),
        crate::srt::srt_text(cs).take(entry_start(cs, k)) == crate::srt::srt_text(cs.take(k)),
    decreases cs.len() - k,
{
    let w = crate::srt::srt_text(cs);
    if k == cs.len() {
        assert(cs.take(k) =~= cs);
        assert(w.take(w.len() as int) =~= w);
    } else {
        lemma_srt_text_prefix(cs, k + 1);
        lemma_srt_text_step(cs, k);
        let a = crate::srt::srt_text(cs.take(k));
        assert(w.take(entry_start(cs, k)) =~= w.take(entry_start(cs, k + 1)).take(a.len() as int));
        assert((a + crate::srt::srt_entry(k, cs[k])).take(a.len() as int) =~= a);
    }
}

proof fn lemma_entry_window(cs: Seq<CueView>, k: int)
    requires
        0 <= k < cs.len(),
    ensures
        window(crate::srt::srt_text(cs), crate::srt::srt_entry(k, cs[k]), entry_start(cs, k)),
        entry_start(cs, k + 1) == entry_start(cs, k) + crate::srt::srt_entry(k, cs[k]).len(),
{
    lemma_srt_text_prefix(cs, k + 1);
    lemma_srt_text_step(cs, k);
    let w = crate::srt::srt_text(cs);
    let a = crate::srt::srt_text(cs.take(k));
    let e = crate::srt::srt_entry(k, cs[k]);
    assert(w.subrange(entry_start(cs, k), entry_start(cs, k) + e.len()) =~= w.take(
        entry_start(cs, k + 1),
    ).subrange(a.len() as int, (a.len() + e.len()) as int));
    assert((a + e).subrange(a.len() as int, (a.len() + e.len()) as int) =~= e);
}

/// A written cue's block holds no separator and ends in a non-whitespace
/// character; it starts with a digit.
proof fn lemma_block_facts(i: int, c: CueView)
    requires
        i >= 0,
        cue_writable(c),
    ensures
        block_of(i, c).len() > 0,
        !is_ws(block_of(i, c).last()),
        is_digit(block_of(i, c)[0]),
        forall|p: int| 0 <= p < block_of(i, c).len() ==> #[trigger] sep_end(block_of(i, c), p) == 0,
{
    let b = block_of(i, c);
    let n = nat_str((i + 1) as nat);
    lemma_nat_str_digits((i + 1) as nat);
    lemma_ts_line(c);
    lemma_block_lines(i, c);
    assert(b[0] == n[0]);
    assert(trim(n).len() > 0) by {
        assert(!is_ws(n[0]));
        crate::text::lemma_trim_start_at(n, 0);
        assert(n.subrange(0, n.len() as int) =~= n);
        crate::text::lemma_trim_end_prefix(n);
    }
    if c.2.len() > 0 {
        crate::text::lemma_trim_ends(c.2);
        assert(b.last() == c.2.last());
    } else {
        assert(b.last() == ts_line(c)[28]);
    }
    let ls = lines(b);
    assert forall|k: int| 0 <= k < ls.len() implies trim(#[trigger] ls[k]).len() > 0 by {
        if k == 0 {
            assert(ls[0] == n);
        } else if k == 1 {
            assert(ls[1] == ts_line(c));
        } else {
            assert(ls[k] == lines(c.2)[k - 2]);
        }
    }
    lemma_no_sep(b);
}

proof fn lemma_first_sep_at(s: Seq<char>, from: int, k: int)
    requires
        0 <= from <= k <= s.len(),
        forall|j: int| from <= j < k ==> #[trigger] sep_end(s, j) == 0,
        k == s.len() || sep_end(s, k) > 0,
    ensures
        crate::srt::first_sep_from(s, from) == k,
    decreases k - from,
{
    if from < k {
        lemma_first_sep_at(s, from + 1, k);
    }
}

proof fn lemma_entry_start_mono(cs: Seq<CueView>, a: int, b: int)
    requires
        0 <= a <= b <= cs.len(),
    ensures
        entry_start(cs, a) <= entry_start(cs, b),
    decreases b - a,
{
    if a < b {
        lemma_entry_start_mono(cs, a, b - 1);
        lemma_entry_window(cs, b - 1);
    }
}

/// The written text without the line breaks after its last cue.
pub open spec fn written_trimmed(cs: Seq<CueView>) -> Seq<char> {
    let w = crate::srt::srt_text(cs);
    w.take(w.len() - gap_of(cs.last()).len())
}

/// Every cue of `cs` can be written unchanged.
pub open spec fn all_writable(cs: Seq<CueView>) -> bool {
    forall|i: int| 0 <= i < cs.len() ==> cue_writable(#[trigger] cs[i])
}

proof fn lemma_last_block_end(cs: Seq<CueView>)
    requires
        cs.len() >= 1,
        all_writable(cs),
    ensures
        entry_start(cs, cs.len() - 1) + block_of(cs.len() - 1, cs.last()).len() == written_trimmed(cs).len(),
        written_trimmed(cs).len() + gap_of(cs.last()).len() == crate::srt::srt_text(cs).len(),
{
    let n = cs.len() as int;
    lemma_entry_window(cs, n - 1);
    lemma_entry_split(n - 1, cs[n - 1]);
    assert(cs.take(n) =~= cs);
    assert(cs.last() == cs[n - 1]);
}

proof fn lemma_blocks_written(cs: Seq<CueView>, k: int)
    requires
        cs.len() >= 1,
        all_writable(cs),
        0 <= k < cs.len(),
    ensures
        crate::srt::blocks_from(written_trimmed(cs), entry_start(cs, k)) == Seq::new(
            (cs.len() - k) as nat,
            |j: int| block_of(k + j, cs[k + j]),
        ),
    decreases cs.len() - k,
{
    let n = cs.len() as int;
    let w = crate::srt::srt_text(cs);
    let t = written_trimmed(cs);
    let pos = entry_start(cs, k);
    let c = cs[k];
    let b = block_of(k, c);
    let e = crate::srt::srt_entry(k, c);
    assert(cue_writable(c));
    lemma_entry_window(cs, k);
    lemma_entry_split(k, c);
    lemma_last_block_end(cs);
    if k < n - 1 {
        lemma_entry_start_mono(cs, k + 1, n - 1);
    }
    lemma_block_facts(k, c);
    assert(cue_writable(cs[n - 1]));
    lemma_block_facts(n - 1, cs[n - 1]);
    let q = pos + b.len();
    assert(q <= t.len()) by {
        if k < n - 1 {
            assert(entry_start(cs, k + 1) == pos + e.len());
        }
    }
    assert(window(t, b, pos)) by {
        assert forall|j: int| 0 <= j < b.len() implies #[trigger] t.subrange(pos, q)[j] == b[j] by {
            lemma_window_at(w, e, pos, j);
            assert(e[j] == b[j]);
        }
        assert(t.subrange(pos, q) =~= b);
    }
    assert forall|p: int| pos <= p < q implies #[trigger] sep_end(t, p) == 0 by {
        lemma_sep_end_window(t, b, pos, p - pos);
    }
    let result = Seq::new((n - k) as nat, |j: int| block_of(k + j, cs[k + j]));
    if k == n - 1 {
        assert(q == t.len());
        lemma_first_sep_at(t, pos, q);
        assert(t.subrange(pos, t.len() as int) =~= b);
        assert(crate::srt::blocks_from(t, pos) =~= seq![b]);
        assert(result =~= seq![b]);
    } else {
        let next = entry_start(cs, k + 1);
        let g = gap_of(c);
        assert(next == q + g.len());
        let c1 = cs[k + 1];
        assert(cue_writable(c1));
        lemma_block_facts(k + 1, c1);
        lemma_entry_window(cs, k + 1);
        lemma_entry_split(k + 1, c1);
        assert(next < t.len());
        assert forall|j: int| q <= j < next implies #[trigger] t[j] == '\n' by {
            lemma_window_at(w, e, pos, j - pos);
            assert(e[j - pos] == g[j - pos - b.len()]);
        }
        assert(t[next] == block_of(k + 1, c1)[0]) by {
            lemma_window_at(w, crate::srt::srt_entry(k + 1, c1), next, 0);
        }
        assert(!is_ws(t[next]));
        assert forall|j: int| q + 1 <= j < next implies is_ws(#[trigger] t[j]) by {
            assert(t[j] == '\n');
        }
        crate::srt::lemma_ws_run_end_at(t, q + 1, next);
        assert(t[next - 1] == '\n');
        assert(last_nl(t, q + 1, next) == next - 1);
        assert(sep_end(t, q) == next);
        lemma_first_sep_at(t, pos, q);
        lemma_blocks_written(cs, k + 1);
        assert(t.subrange(pos, q) =~= b);
        let rest = Seq::new((n - k - 1) as nat, |j: int| block_of(k + 1 + j, cs[k + 1 + j]));
        assert(crate::srt::blocks_from(t, pos) == seq![b] + rest);
        assert(result =~= seq![b] + rest);
    }
}

proof fn lemma_parse_blocks_written(cs: Seq<CueView>, m: int)
    requires
        all_writable(cs),
        0 <= m <= cs.len(),
    ensures
        crate::srt::parse_blocks(Seq::new(m as nat, |j: int| block_of(j, cs[j]))) == cs.take(m),
    decreases m,
{
    let bs = Seq::new(m as nat, |j: int| block_of(j, cs[j]));
    if m > 0 {
        lemma_parse_blocks_written(cs, m - 1);
        assert(bs.drop_last() =~= Seq::new((m - 1) as nat, |j: int| block_of(j, cs[j])));
        assert(cue_writable(cs[m - 1]));
        lemma_parse_block_of(m - 1, cs[m - 1]);
        assert(cs.take(m) =~= cs.take(m - 1).push(cs[m - 1]));
    } else {
        assert(cs.take(0) =~= Seq::<CueView>::empty());
    }
}

/// An SRT text written for cues reads back as the same cues, for cues with
/// times from 0 to under 100 hours and texts that are trimmed, have no blank
/// line and no `\r` right before a line break.
pub proof fn law_write_then_parse(cs: Seq<CueView>)
    requires
        all_writable(cs),
    ensures
        crate::srt::parse_srt(crate::srt::srt_text(cs)) == cs,
{
    let w = crate::srt::srt_text(cs);
    let n = cs.len() as int;
    if n == 0 {
        assert(w =~= Seq::<char>::empty());
        assert(crate::srt::strip_bom(w) =~= w);
        assert(trim(w) =~= Seq::<char>::empty());
        let t = trim(crate::srt::strip_bom(w));
        assert(t.len() == 0);
        assert(crate::srt::first_sep_from(t, 0) == 0);
        assert(t.subrange(0, 0) =~= Seq::<char>::empty());
        assert(crate::srt::blocks_from(t, 0) =~= seq![Seq::<char>::empty()]);
        assert(crate::srt::blocks(t) =~= seq![Seq::<char>::empty()]);
        assert(lines(Seq::<char>::empty()) =~= Seq::<Seq<char>>::empty());
        assert(crate::srt::nonblank(Seq::<Seq<char>>::empty()) =~= Seq::<Seq<char>>::empty());
        assert(crate::srt::parse_block(Seq::<char>::empty()) is None);
        assert(crate::srt::parse_blocks(seq![Seq::<char>::empty()]) =~= Seq::<CueView>::empty()) by {
            assert(seq![Seq::<char>::empty()].drop_last() =~= Seq::<Seq<char>>::empty());
            assert(seq![Seq::<char>::empty()].last() =~= Seq::<char>::empty());
            assert(crate::srt::parse_blocks(Seq::<Seq<char>>::empty()) =~= Seq::<CueView>::empty());
        }
        assert(cs =~= Seq::<CueView>::empty());
    } else {
        let t = written_trimmed(cs);
        lemma_last_block_end(cs);
        assert(cue_writable(cs[0]));
        lemma_block_facts(0, cs[0]);
        lemma_entry_window(cs, 0);
        lemma_entry_split(0, cs[0]);
        assert(entry_start(cs, 0) == 0) by {
            assert(cs.take(0) =~= Seq::<CueView>::empty());
        }
        assert(w[0] == block_of(0, cs[0])[0]) by {
            lemma_window_at(w, crate::srt::srt_entry(0, cs[0]), 0, 0);
        }
        assert(!is_ws(w[0]));
        crate::srt::lemma_strip_bom_at(w, 0);
        assert(w.subrange(0, w.len() as int) =~= w);
        crate::text::lemma_trim_start_at(w, 0);
        let en = t.len() as int;
        let last = cs[n - 1];
        assert(cue_writable(last));
        assert(cs.last() == last);
        lemma_block_facts(n - 1, last);
        lemma_entry_window(cs, n - 1);
        lemma_entry_split(n - 1, last);
        let pl = entry_start(cs, n - 1);
        let bl = block_of(n - 1, last);
        assert forall|j: int| en <= j < w.len() implies is_ws(#[trigger] w[j]) by {
            lemma_window_at(w, crate::srt::srt_entry(n - 1, last), pl, j - pl);
            assert(crate::srt::srt_entry(n - 1, last)[j - pl] == gap_of(last)[j - pl - bl.len()]);
        }
        assert(!is_ws(w[en - 1])) by {
            lemma_window_at(w, crate::srt::srt_entry(n - 1, last), pl, bl.len() - 1);
            assert(bl.last() == bl[bl.len() - 1]);
        }
        crate::text::lemma_trim_end_at(w, en);
        assert(trim(crate::srt::strip_bom(w)) =~= t);
        lemma_blocks_written(cs, 0);
        assert(Seq::new((n - 0) as nat, |j: int| block_of(0 + j, cs[0 + j])) =~= Seq::new(
            n as nat,
            |j: int| block_of(j, cs[j]),
        ));
        lemma_parse_blocks_written(cs, n);
        assert(cs.take(n) =~= cs);
    }
}

} // verus!
