//! Turning plain text into cue texts and aligning them with the words that
//! speech recognition timed: word merging, text extraction, segmentation,
//! sequence matching, interpolation and the alignment itself.
use vstd::prelude::*;
use std::collections::HashMap;
use crate::float::{lemma_read_scaled_bound, read_scaled, read_scaled_exec, ScaledRead};
use crate::json::{get, json_get, json_of, parse_json, Json};
use crate::matching::{block_in, block_views, matching_blocks, matching_blocks_spec, Block};
use crate::num::{lemma_round_half_even_between, round_half_even, round_half_even_shift};
use crate::srt::{cue_views, Cue, CueView, lemma_strip_bom_at, lemma_ws_run_end_bounds, strip_bom, ws_run_end};
use crate::unicode::{char_is_alphanumeric, is_alnum, lowercase_of, nfd, nfd_of, to_lowercase};
use crate::text::{
    find_char, find_seq, find_seq_exec, from_chars, index_of, is_whitespace, is_ws, join,
    join_chars, lemma_find_seq_props, lemma_index_of_props, lines, lines_of, occurs_at,
    occurs_at_exec, push_all, replace_seq, replace_seq_exec, slice_chars, to_chars, trim,
    trim_chars, views, words, words_of, trim_start, trim_end, no_ws, index_ws,
};

verus! {

// ------------------------------------------------------------------ word timings

/// One recognised token: its text and its time span in milliseconds.
#[derive(Debug, Clone)]
pub struct Token {
    pub text: String,
    pub from: i64,
    pub to: i64,
}

/// A word as values: text, start and end in milliseconds.
pub type WordView = (Seq<char>, int, int);

/// The state of word merging: finished words, the word being built, when it
/// started and when its last piece ended.
pub type MergeState = (Seq<WordView>, Seq<char>, Option<int>, int);

/// One token folded into the merge state. Tokens whose trimmed text starts
/// with `[` (markers) or is empty are skipped; a token starting with a space,
/// or the first one, starts a new word.
pub open spec fn merge_step(st: MergeState, text: Seq<char>, from: int, to: int) -> MergeState {
    let piece = trim(text);
    if piece.len() > 0 && piece[0] == '[' {
        st
    } else if piece.len() == 0 {
        st
    } else {
        let starts_word = (text.len() > 0 && text[0] == ' ') || st.2 is None;
        let st1: MergeState = if starts_word && st.1.len() > 0 {
            (st.0.push((st.1, st.2->0, st.3)), Seq::<char>::empty(), None, st.3)
        } else {
            st
        };
        let from1 = if st1.2 is None {
            Some(from)
        } else {
            st1.2
        };
        (st1.0, st1.1 + piece, from1, to)
    }
}

/// The merge state after the tokens `ts`, in order.
pub open spec fn merge_tokens(ts: Seq<(Seq<char>, int, int)>) -> MergeState
    decreases ts.len(),
{
    if ts.len() == 0 {
        (seq![], seq![], None, 0)
    } else {
        let t = ts.last();
        merge_step(merge_tokens(ts.drop_last()), t.0, t.1, t.2)
    }
}

/// The words that the tokens make: sub-word pieces joined, each word from
/// the start of its first piece to the end of its last.
pub open spec fn word_timings_spec(ts: Seq<(Seq<char>, int, int)>) -> Seq<WordView> {
    let st = merge_tokens(ts);
    if st.1.len() > 0 {
        st.0.push((st.1, st.2->0, st.3))
    } else {
        st.0
    }
}

/// The views of the tokens.
pub open spec fn token_views(ts: Seq<Token>) -> Seq<(Seq<char>, int, int)> {
    ts.map_values(|t: Token| (t.text@, t.from as int, t.to as int))
}

/// The views of timed words.
pub open spec fn word_views(ws: Seq<(String, i64, i64)>) -> Seq<WordView> {
    ws.map_values(|w: (String, i64, i64)| (w.0@, w.1 as int, w.2 as int))
}

/// Merges recognised sub-word tokens into timed words: a token whose text
/// starts with a space begins a new word, marker tokens (`[...]`) and empty
/// ones are skipped.
pub fn parse_word_timings(tokens: &[Token]) -> (r: Vec<(String, i64, i64)>)
    ensures
        word_views(r@) == word_timings_spec(token_views(tokens@)),
        forall|i: int| 0 <= i < r@.len() ==> (#[trigger] r@[i]).0@.len() > 0,
{
    let mut words: Vec<(String, i64, i64)> = Vec::new();
    let mut cur: Vec<char> = Vec::new();
    let mut cur_from: Option<i64> = None;
    let mut cur_to: i64 = 0;
    let mut i: usize = 0;
    while i < tokens.len()
        invariant
            i <= tokens@.len(),
            merge_tokens(token_views(tokens@).take(i as int)) == (
                word_views(words@),
                cur@,
                match cur_from {
                    Some(f) => Some(f as int),
                    None => None,
                },
                cur_to as int,
            ),
            cur@.len() > 0 ==> cur_from is Some,
            forall|j: int| 0 <= j < words@.len() ==> (#[trigger] words@[j]).0@.len() > 0,
        decreases tokens.len() - i,
    {
        let tok = &tokens[i];
        let raw = to_chars(tok.text.as_str());
        let piece = trim_chars(raw.as_slice());
        proof {
            assert(token_views(tokens@).take(i + 1).drop_last() =~= token_views(tokens@).take(
                i as int,
            ));
            assert(token_views(tokens@).take(i + 1).last() == (
                tok.text@,
                tok.from as int,
                tok.to as int,
            ));
        }
        if piece.len() > 0 && piece[0] == '[' {
        } else if piece.len() == 0 {
        } else {
            let starts_word = (raw.len() > 0 && raw[0] == ' ') || cur_from.is_none();
            if starts_word && cur.len() > 0 {
                let f = match cur_from {
                    Some(f) => f,
                    None => 0,
                };
                let ghost before = word_views(words@);
                words.push((from_chars(cur.as_slice()), f, cur_to));
                assert(word_views(words@) =~= before.push((cur@, f as int, cur_to as int)));
                cur = Vec::new();
                cur_from = None;
            }
            if cur_from.is_none() {
                cur_from = Some(tok.from);
            }
            push_all(&mut cur, piece.as_slice());
            cur_to = tok.to;
        }
        i += 1;
    }
    assert(token_views(tokens@).take(tokens@.len() as int) =~= token_views(tokens@));
    if cur.len() > 0 {
        let f = match cur_from {
            Some(f) => f,
            None => 0,
        };
        let ghost before = word_views(words@);
        words.push((from_chars(cur.as_slice()), f, cur_to));
        assert(word_views(words@) =~= before.push((cur@, f as int, cur_to as int)));
    }
    words
}


// ------------------------------------------------------------------ the recogniser's JSON

/// The largest token time held, in milliseconds; larger ones are held as
/// this with their sign.
pub const MAX_TOKEN_MS: i64 = 1_000_000_000_000_000;

/// The milliseconds an `offsets` entry gives: a number, read exactly and
/// rounded to an integer (halves to even), held within [`MAX_TOKEN_MS`];
/// 0 when absent or not a number.
pub open spec fn offset_ms(v: Option<Json>) -> int {
    match v {
        Some(Json::Num(n)) => match read_scaled(n@, 0, MAX_TOKEN_MS as nat) {
            ScaledRead::Val(x) => x as int,
            ScaledRead::Over(neg) => if neg {
                -(MAX_TOKEN_MS as int)
            } else {
                MAX_TOKEN_MS as int
            },
            _ => 0,
        },
        _ => 0,
    }
}

/// A token object as a token: its `text` (empty when absent or not text)
/// and its `offsets.from` and `offsets.to` (0 when absent).
pub open spec fn token_spec(t: Json) -> (Seq<char>, int, int) {
    let text = match get(t, "text"@) {
        Some(Json::Str(s)) => s@,
        _ => Seq::empty(),
    };
    match get(t, "offsets"@) {
        Some(o) => (text, offset_ms(get(o, "from"@)), offset_ms(get(o, "to"@))),
        None => (text, 0, 0),
    }
}

/// The tokens of one segment: its `tokens` array, none when it has none.
pub open spec fn seg_tokens(seg: Json) -> Seq<(Seq<char>, int, int)> {
    match get(seg, "tokens"@) {
        Some(Json::Arr(ts)) => ts@.map_values(|t: Json| token_spec(t)),
        _ => Seq::empty(),
    }
}

/// The tokens of the segments, in order.
pub open spec fn segs_tokens(segs: Seq<Json>) -> Seq<(Seq<char>, int, int)>
    decreases segs.len(),
{
    if segs.len() == 0 {
        Seq::empty()
    } else {
        segs_tokens(segs.drop_last()) + seg_tokens(segs.last())
    }
}

/// The tokens of the recogniser's JSON output: those of each segment of its
/// `transcription` array, in order.
pub open spec fn tokens_spec(j: Json) -> Seq<(Seq<char>, int, int)> {
    match get(j, "transcription"@) {
        Some(Json::Arr(segs)) => segs_tokens(segs@),
        _ => Seq::empty(),
    }
}

fn offset_ms_exec(v: Option<&Json>) -> (r: i64)
    ensures
        r == offset_ms(match v {
            Some(x) => Some(*x),
            None => None,
        }),
{
    match v {
        Some(Json::Num(n)) => {
            let c = to_chars(n.as_str());
            proof {
                lemma_read_scaled_bound(c@, 0, MAX_TOKEN_MS as nat);
            }
            match read_scaled_exec(c.as_slice(), 0, MAX_TOKEN_MS as u128) {
                ScaledRead::Val(x) => x as i64,
                ScaledRead::Over(neg) => {
                    if neg {
                        0 - MAX_TOKEN_MS
                    } else {
                        MAX_TOKEN_MS
                    }
                },
                _ => 0,
            }
        },
        _ => 0,
    }
}

fn token_of(t: &Json) -> (r: Token)
    ensures
        (r.text@, r.from as int, r.to as int) == token_spec(*t),
{
    let text = match json_get(t, "text") {
        Some(Json::Str(s)) => s.clone(),
        _ => String::new(),
    };
    match json_get(t, "offsets") {
        Some(o) => {
            let from = offset_ms_exec(json_get(o, "from"));
            let to = offset_ms_exec(json_get(o, "to"));
            Token { text, from, to }
        },
        None => Token { text, from: 0, to: 0 },
    }
}

/// The tokens of the recogniser's JSON output, see [`tokens_spec`].
pub fn tokens_of(j: &Json) -> (r: Vec<Token>)
    ensures
        token_views(r@) == tokens_spec(*j),
{
    let mut out: Vec<Token> = Vec::new();
    match json_get(j, "transcription") {
        Some(Json::Arr(segs)) => {
            let mut i: usize = 0;
            while i < segs.len()
                invariant
                    i <= segs@.len(),
                    token_views(out@) == segs_tokens(segs@.take(i as int)),
                decreases segs.len() - i,
            {
                assert(segs@.take(i + 1).drop_last() =~= segs@.take(i as int));
                assert(segs@.take(i + 1).last() == segs@[i as int]);
                let ghost before = token_views(out@);
                match json_get(&segs[i], "tokens") {
                    Some(Json::Arr(ts)) => {
                        let mut k: usize = 0;
                        while k < ts.len()
                            invariant
                                k <= ts@.len(),
                                token_views(out@) == before + ts@.take(k as int).map_values(|t: Json| token_spec(t)),
                            decreases ts.len() - k,
                        {
                            let tk = token_of(&ts[k]);
                            let ghost prev = out@;
                            let ghost tv = (tk.text@, tk.from as int, tk.to as int);
                            out.push(tk);
                            assert(token_views(out@) =~= token_views(prev).push(tv));
                            assert(ts@.take(k + 1).map_values(|t: Json| token_spec(t)) =~= ts@.take(k as int).map_values(
                                |t: Json| token_spec(t),
                            ).push(token_spec(ts@[k as int])));
                            assert(token_views(out@) =~= before + ts@.take(k + 1).map_values(|t: Json| token_spec(t)));
                            k += 1;
                        }
                        assert(ts@.take(ts@.len() as int) =~= ts@);
                    },
                    _ => {
                        assert(token_views(out@) =~= before + Seq::<(Seq<char>, int, int)>::empty());
                    },
                }
                i += 1;
            }
            assert(segs@.take(segs@.len() as int) =~= segs@);
        },
        _ => {
            assert(token_views(out@) =~= Seq::<(Seq<char>, int, int)>::empty());
        },
    }
    out
}

/// The timed words of the recogniser's JSON output `text`: its tokens, see
/// [`tokens_spec`], merged into words, see [`parse_word_timings`]; the
/// message of the reading error when `text` is not JSON.
pub fn word_timings_from_json(text: &str) -> (r: Result<Vec<(String, i64, i64)>, String>)
    ensures
        match json_of(text@) {
            Ok(j) => r matches Ok(ws) && word_views(ws@) == word_timings_spec(tokens_spec(j)),
            Err(e) => r matches Err(m) && m@ == e,
        },
{
    match parse_json(text) {
        Ok(j) => {
            let ts = tokens_of(&j);
            Ok(parse_word_timings(ts.as_slice()))
        },
        Err(e) => Err(e),
    }
}

// ------------------------------------------------------------------ text extraction

/// The views of a sequence of strings.
pub open spec fn string_views(v: Seq<String>) -> Seq<Seq<char>> {
    v.map_values(|x: String| x@)
}

/// Strings holding the given character vectors.
pub fn to_strings(v: &Vec<Vec<char>>) -> (r: Vec<String>)
    ensures
        string_views(r@) == views(v@),
{
    let mut r: Vec<String> = Vec::new();
    let mut i: usize = 0;
    while i < v.len()
        invariant
            i <= v@.len(),
            string_views(r@) == views(v@).take(i as int),
        decreases v.len() - i,
    {
        let ghost before = string_views(r@);
        let st = from_chars(v[i].as_slice());
        r.push(st);
        assert(string_views(r@) =~= before.push(v@[i as int]@));
        assert(string_views(r@) =~= views(v@).take(i + 1));
        i += 1;
    }
    assert(views(v@).take(v@.len() as int) =~= views(v@));
    r
}

/// The five XML entities that the document text may hold, read back.
pub open spec fn html_unescape_spec(s: Seq<char>) -> Seq<char> {
    let s1 = replace_seq(s, seq!['&', 'a', 'm', 'p', ';'], seq!['&']);
    let s2 = replace_seq(s1, seq!['&', 'l', 't', ';'], seq!['<']);
    let s3 = replace_seq(s2, seq!['&', 'g', 't', ';'], seq!['>']);
    let s4 = replace_seq(s3, seq!['&', 'q', 'u', 'o', 't', ';'], seq!['"']);
    let s5 = replace_seq(s4, seq!['&', '#', '3', '9', ';'], seq!['\'']);
    replace_seq(s5, seq!['&', 'a', 'p', 'o', 's', ';'], seq!['\''])
}

/// Replaces the entities `&amp;`, `&lt;`, `&gt;`, `&quot;`, `&#39;` and
/// `&apos;`, in that order.
pub fn html_unescape(v: &[char]) -> (r: Vec<char>)
    ensures
        r@ == html_unescape_spec(v@),
{
    let p1: Vec<char> = vec!['&', 'a', 'm', 'p', ';'];
    let r1: Vec<char> = vec!['&'];
    let p2: Vec<char> = vec!['&', 'l', 't', ';'];
    let r2: Vec<char> = vec!['<'];
    let p3: Vec<char> = vec!['&', 'g', 't', ';'];
    let r3: Vec<char> = vec!['>'];
    let p4: Vec<char> = vec!['&', 'q', 'u', 'o', 't', ';'];
    let r4: Vec<char> = vec!['"'];
    let p5: Vec<char> = vec!['&', '#', '3', '9', ';'];
    let r5: Vec<char> = vec!['\''];
    let p6: Vec<char> = vec!['&', 'a', 'p', 'o', 's', ';'];
    assert(p1@ =~= seq!['&', 'a', 'm', 'p', ';'] && r1@ =~= seq!['&']);
    assert(p2@ =~= seq!['&', 'l', 't', ';'] && r2@ =~= seq!['<']);
    assert(p3@ =~= seq!['&', 'g', 't', ';'] && r3@ =~= seq!['>']);
    assert(p4@ =~= seq!['&', 'q', 'u', 'o', 't', ';'] && r4@ =~= seq!['"']);
    assert(p5@ =~= seq!['&', '#', '3', '9', ';'] && r5@ =~= seq!['\'']);
    assert(p6@ =~= seq!['&', 'a', 'p', 'o', 's', ';']);
    let s1 = replace_seq_exec(v, p1.as_slice(), r1.as_slice());
    let s2 = replace_seq_exec(s1.as_slice(), p2.as_slice(), r2.as_slice());
    let s3 = replace_seq_exec(s2.as_slice(), p3.as_slice(), r3.as_slice());
    let s4 = replace_seq_exec(s3.as_slice(), p4.as_slice(), r4.as_slice());
    let s5 = replace_seq_exec(s4.as_slice(), p5.as_slice(), r5.as_slice());
    replace_seq_exec(s5.as_slice(), p6.as_slice(), r5.as_slice())
}

/// The pieces of `s[pos..]` between occurrences of the non-empty `pat`, as `str::split`.
pub open spec fn split_from(s: Seq<char>, pat: Seq<char>, pos: int) -> Seq<Seq<char>>
    decreases s.len() - pos,
{
    if pos < 0 || pos > s.len() || pat.len() == 0 {
        seq![]
    } else {
        let f = pos + find_seq(s.subrange(pos, s.len() as int), pat);
        proof {
            lemma_find_seq_props(s.subrange(pos, s.len() as int), pat);
        }
        if f >= s.len() {
            seq![s.subrange(pos, s.len() as int)]
        } else {
            seq![s.subrange(pos, f)] + split_from(s, pat, f + pat.len())
        }
    }
}

/// `str::split` with a non-empty string pattern.
pub fn split_on(v: &[char], pat: &[char]) -> (r: Vec<Vec<char>>)
    requires
        pat@.len() > 0,
    ensures
        views(r@) == split_from(v@, pat@, 0),
{
    let n = v.len();
    let mut r: Vec<Vec<char>> = Vec::new();
    let mut pos: usize = 0;
    assert(views(r@) + split_from(v@, pat@, 0) =~= split_from(v@, pat@, 0));
    loop
        invariant
            pos <= n == v@.len(),
            pat@.len() > 0,
            split_from(v@, pat@, 0) == views(r@) + split_from(v@, pat@, pos as int),
        decreases n - pos,
    {
        let f = find_seq_exec(v, pat, pos);
        proof {
            lemma_find_seq_props(v@.subrange(pos as int, n as int), pat@);
        }
        let piece = slice_chars(v, pos, f);
        let ghost before = views(r@);
        r.push(piece);
        assert(views(r@) =~= before.push(piece@));
        if f == n {
            assert(split_from(v@, pat@, pos as int) == seq![v@.subrange(pos as int, n as int)]);
            assert(views(r@) =~= before + split_from(v@, pat@, pos as int));
            return r;
        }
        proof {
            let t = v@.subrange(pos as int, n as int);
            assert(t.subrange(f - pos, f - pos + pat@.len()) =~= v@.subrange(f as int, f + pat@.len()));
        }
        assert(views(r@) + split_from(v@, pat@, f + pat@.len()) =~= before + split_from(
            v@,
            pat@,
            pos as int,
        ));
        pos = f + pat.len();
    }
}

/// The characters `<w:t`, which start a text run (and, as written, any
/// element whose name starts with `t`).
pub open spec fn run_open() -> Seq<char> {
    seq!['<', 'w', ':', 't']
}

/// The characters `</w:t>`, which end a text run.
pub open spec fn run_close() -> Seq<char> {
    seq!['<', '/', 'w', ':', 't', '>']
}

/// The text run starting at `p`, if one does: `<w:t`, attributes up to the
/// first `>`, then the content up to the first `</w:t>`. Gives the content's
/// bounds and the end of the run.
pub open spec fn run_at(s: Seq<char>, p: int) -> Option<(int, int, int)> {
    if occurs_at(s, run_open(), p) {
        let q = p + 4 + index_of(s.subrange(p + 4, s.len() as int), '>');
        if q < s.len() {
            let c = q + 1 + find_seq(s.subrange(q + 1, s.len() as int), run_close());
            if c < s.len() {
                Some((q + 1, c, c + 6))
            } else {
                None
            }
        } else {
            None
        }
    } else {
        None
    }
}

pub proof fn lemma_run_at_bounds(s: Seq<char>, p: int)
    ensures
        run_at(s, p) matches Some((a, b, e)) ==> p < a <= b && b + 6 == e && e <= s.len()
            && occurs_at(s, run_close(), b),
{
    if occurs_at(s, run_open(), p) {
        lemma_index_of_props(s.subrange(p + 4, s.len() as int), '>');
        let q = p + 4 + index_of(s.subrange(p + 4, s.len() as int), '>');
        if q < s.len() {
            let t = s.subrange(q + 1, s.len() as int);
            lemma_find_seq_props(t, run_close());
            let c = q + 1 + find_seq(t, run_close());
            if c < s.len() {
                assert(occurs_at(t, run_close(), c - q - 1));
                assert(t.subrange(c - q - 1, c - q - 1 + 6) =~= s.subrange(c, c + 6));
            }
        }
    }
}

/// The contents of the text runs of `s[i..]`, leftmost first, concatenated.
pub open spec fn runs_from(s: Seq<char>, i: int) -> Seq<char>
    decreases s.len() - i,
{
    if i < 0 || i >= s.len() {
        seq![]
    } else {
        proof {
            lemma_run_at_bounds(s, i);
        }
        match run_at(s, i) {
            Some((a, b, e)) => s.subrange(a, b) + runs_from(s, e),
            None => runs_from(s, i + 1),
        }
    }
}

fn run_at_exec(v: &[char], p: usize) -> (r: Option<(usize, usize, usize)>)
    requires
        p < v@.len(),
    ensures
        match r {
            Some((a, b, e)) => run_at(v@, p as int) == Some((a as int, b as int, e as int)),
            None => run_at(v@, p as int) is None,
        },
{
    let open: Vec<char> = vec!['<', 'w', ':', 't'];
    let close: Vec<char> = vec!['<', '/', 'w', ':', 't', '>'];
    assert(open@ =~= run_open());
    assert(close@ =~= run_close());
    if !occurs_at_exec(v, open.as_slice(), p) {
        return None;
    }
    let n = v.len();
    let q = find_char(v, '>', p + 4);
    if q >= n {
        return None;
    }
    let c = find_seq_exec(v, close.as_slice(), q + 1);
    if c >= n {
        return None;
    }
    proof {
        lemma_run_at_bounds(v@, p as int);
    }
    Some((q + 1, c, c + 6))
}

/// The text of the runs in `v`, see [`runs_from`].
fn runs_of(v: &[char]) -> (r: Vec<char>)
    ensures
        r@ == runs_from(v@, 0),
{
    let n = v.len();
    let mut r: Vec<char> = Vec::new();
    let mut i: usize = 0;
    assert(r@ + runs_from(v@, 0) =~= runs_from(v@, 0));
    while i < n
        invariant
            i <= n == v@.len(),
            runs_from(v@, 0) == r@ + runs_from(v@, i as int),
        decreases n - i,
    {
        proof {
            lemma_run_at_bounds(v@, i as int);
        }
        match run_at_exec(v, i) {
            Some((a, b, e)) => {
                let ghost before = r@;
                let content = slice_chars(v, a, b);
                push_all(&mut r, content.as_slice());
                assert(before + runs_from(v@, i as int) =~= r@ + runs_from(v@, e as int));
                i = e;
            },
            None => {
                i += 1;
            },
        }
    }
    assert(runs_from(v@, i as int) =~= Seq::<char>::empty());
    assert(r@ + Seq::<char>::empty() =~= r@);
    r
}

/// The characters `</w:p>`, which end a paragraph.
pub open spec fn para_close() -> Seq<char> {
    seq!['<', '/', 'w', ':', 'p', '>']
}

/// The non-empty trimmed paragraph texts of `paras`, in order.
pub open spec fn para_lines(paras: Seq<Seq<char>>) -> Seq<Seq<char>>
    decreases paras.len(),
{
    if paras.len() == 0 {
        seq![]
    } else {
        let line = trim(html_unescape_spec(runs_from(paras.last(), 0)));
        para_lines(paras.drop_last()) + if line.len() > 0 {
            seq![line]
        } else {
            seq![]
        }
    }
}

/// The plain text of a Word document's `word/document.xml`: per paragraph
/// the text runs joined, entities read back, trimmed; empty paragraphs left
/// out; one line each.
pub open spec fn docx_text_spec(xml: Seq<char>) -> Seq<char> {
    join(para_lines(split_from(xml, para_close(), 0)), seq!['\n'])
}

/// The plain text of a Word document's `word/document.xml`, see [`docx_text_spec`].
pub fn docx_xml_text(xml: &str) -> (r: String)
    ensures
        r@ == docx_text_spec(xml@),
{
    let v = to_chars(xml);
    let close: Vec<char> = vec!['<', '/', 'w', ':', 'p', '>'];
    assert(close@ =~= para_close());
    let paras = split_on(v.as_slice(), close.as_slice());
    let mut out: Vec<Vec<char>> = Vec::new();
    let mut i: usize = 0;
    while i < paras.len()
        invariant
            i <= paras@.len(),
            views(out@) == para_lines(views(paras@).take(i as int)),
        decreases paras.len() - i,
    {
        let runs = runs_of(paras[i].as_slice());
        let un = html_unescape(runs.as_slice());
        let line = trim_chars(un.as_slice());
        proof {
            assert(views(paras@).take(i + 1).drop_last() =~= views(paras@).take(i as int));
            assert(views(paras@).take(i + 1).last() == paras@[i as int]@);
        }
        if line.len() > 0 {
            let ghost before = views(out@);
            out.push(line);
            assert(views(out@) =~= before + seq![line@]);
        } else {
            assert(para_lines(views(paras@).take(i + 1)) =~= para_lines(views(paras@).take(i as int)));
        }
        i += 1;
    }
    assert(views(paras@).take(paras@.len() as int) =~= views(paras@));
    let nl: Vec<char> = vec!['\n'];
    assert(nl@ =~= seq!['\n']);
    let joined = join_chars(out.as_slice(), nl.as_slice());
    from_chars(joined.as_slice())
}

/// Whether `s` ends with `suffix`.
pub open spec fn ends_with(s: Seq<char>, suffix: Seq<char>) -> bool {
    s.len() >= suffix.len() && s.skip(s.len() - suffix.len()) == suffix
}

/// Whether a path names a Word document: it ends with `.docx` in any case.
pub fn is_docx(path: &str) -> (r: bool)
    ensures
        r == ends_with(lowercase_of(path@), ".docx"@),
{
    let lower = to_lowercase(path);
    let v = to_chars(lower.as_str());
    let suf = to_chars(".docx");
    if v.len() < suf.len() {
        return false;
    }
    let tail = slice_chars(v.as_slice(), v.len() - suf.len(), v.len());
    assert(tail@ =~= v@.skip(v@.len() - suf@.len()));
    crate::text::chars_eq(tail.as_slice(), suf.as_slice())
}

/// What reading the entry `name` of the zip archive `bytes` as UTF-8 text
/// gives with the `zip` crate: the text, or the message of the error.
pub uninterp spec fn zip_entry_text(bytes: Seq<u8>, name: Seq<char>) -> Result<Seq<char>, Seq<char>>;

/// Opens `bytes` with `zip::ZipArchive::new`, finds `name` with `by_name`
/// and reads it with `read_to_string`; an error becomes its message. The
/// result is named [`zip_entry_text`].
#[verifier::external_body]
fn zip_entry(bytes: &[u8], name: &str) -> (r: Result<String, String>)
    ensures
        match r {
            Ok(t) => zip_entry_text(bytes@, name@) == Ok::<Seq<char>, Seq<char>>(t@),
            Err(e) => zip_entry_text(bytes@, name@) == Err::<Seq<char>, Seq<char>>(e@),
        },
{
    let mut z = zip::ZipArchive::new(std::io::Cursor::new(bytes)).map_err(|e| e.to_string())?;
    let mut f = z.by_name(name).map_err(|e| e.to_string())?;
    let mut text = String::new();
    std::io::Read::read_to_string(&mut f, &mut text).map_err(|e| e.to_string())?;
    Ok(text)
}

/// The plain text of a Word document given as its bytes: the text of its
/// `word/document.xml`, see [`docx_text_spec`]; the archive's error otherwise.
pub fn extract_docx(bytes: &[u8]) -> (r: Result<String, String>)
    ensures
        match zip_entry_text(bytes@, "word/document.xml"@) {
            Ok(xml) => r matches Ok(t) && t@ == docx_text_spec(xml),
            Err(e) => r matches Err(m) && m@ == e,
        },
{
    match zip_entry(bytes, "word/document.xml") {
        Ok(xml) => Ok(docx_xml_text(xml.as_str())),
        Err(e) => Err(e),
    }
}

/// The text of a plain-text file: leading byte-order marks removed, trimmed.
pub fn plain_text(raw: &str) -> (r: String)
    ensures
        r@ == trim(strip_bom(raw@)),
{
    let v = to_chars(raw);
    let mut k: usize = 0;
    while k < v.len() && v[k] == '\u{feff}'
        invariant
            k <= v@.len(),
            forall|j: int| 0 <= j < k ==> #[trigger] v@[j] == '\u{feff}',
        decreases v.len() - k,
    {
        k += 1;
    }
    proof {
        lemma_strip_bom_at(v@, k as int);
    }
    let body = slice_chars(v.as_slice(), k, v.len());
    let t = trim_chars(body.as_slice());
    from_chars(t.as_slice())
}


// ------------------------------------------------------------------ segmentation

/// Sentence-ending punctuation: `.`, `!`, `?` and `…`.
pub open spec fn is_sentence_end(c: char) -> bool {
    c == '.' || c == '!' || c == '?' || c == '\u{2026}'
}

/// The sentences of `s` from `i` on, the current one starting at `start`: a
/// sentence ends at punctuation followed by whitespace, and the whitespace
/// after it is dropped.
pub open spec fn sentences_from(s: Seq<char>, start: int, i: int) -> Seq<Seq<char>>
    decreases s.len() - i,
{
    if i < 0 || i >= s.len() {
        if 0 <= start < s.len() {
            seq![s.subrange(start, s.len() as int)]
        } else {
            seq![]
        }
    } else if is_sentence_end(s[i]) && i + 1 < s.len() && is_ws(s[i + 1]) {
        let k = ws_run_end(s, i + 1);
        proof {
            lemma_ws_run_end_bounds(s, i + 1);
        }
        seq![s.subrange(start, i + 1)] + sentences_from(s, k, k)
    } else {
        sentences_from(s, start, i + 1)
    }
}

/// The sentences of `s`; one empty sentence when there is none.
pub open spec fn sentences(s: Seq<char>) -> Seq<Seq<char>> {
    let r = sentences_from(s, 0, 0);
    if r.len() == 0 {
        seq![seq![]]
    } else {
        r
    }
}

/// Whether `c` is `.`, `!`, `?` or `…`.
pub open spec fn is_stop_mark(c: char) -> bool {
    c == '?' || c == '.' || c == '!' || c == '\u{2026}'
}

/// Whether `t` has a `.`, `!`, `?` or `…` with whitespace right after it.
pub open spec fn has_stop_then_space(t: Seq<char>) -> bool {
    exists|j: int| 0 <= j && j + 1 < t.len() && is_stop_mark(#[trigger] t[j]) && is_ws(t[j + 1])
}

proof fn lemma_sentences_from_no_stop(s: Seq<char>, start: int, i: int)
    requires
        0 <= start <= i,
        forall|j: int| start <= j < i ==> !(is_stop_mark(#[trigger] s[j]) && j + 1 < s.len() && is_ws(s[j + 1])),
    ensures
        forall|k: int| 0 <= k < sentences_from(s, start, i).len() ==> !has_stop_then_space(
            #[trigger] sentences_from(s, start, i)[k],
        ),
    decreases s.len() - i,
{
    if i >= s.len() {
        if start < s.len() {
            let t = s.subrange(start, s.len() as int);
            assert(sentences_from(s, start, i) == seq![t]);
            assert forall|j: int| 0 <= j && j + 1 < t.len() implies !(is_stop_mark(#[trigger] t[j]) && is_ws(t[j + 1])) by {
                assert(t[j] == s[start + j] && t[j + 1] == s[start + j + 1]);
            }
            assert(!has_stop_then_space(t));
            assert(sentences_from(s, start, i)[0] == t);
            assert(!has_stop_then_space(sentences_from(s, start, i)[0]));
        } else {
            assert(sentences_from(s, start, i).len() == 0);
        }
    } else if is_sentence_end(s[i]) && i + 1 < s.len() && is_ws(s[i + 1]) {
        let k = ws_run_end(s, i + 1);
        lemma_ws_run_end_bounds(s, i + 1);
        let t = s.subrange(start, i + 1);
        lemma_sentences_from_no_stop(s, k, k);
        assert(sentences_from(s, start, i) == seq![t] + sentences_from(s, k, k));
        assert forall|j: int| 0 <= j && j + 1 < t.len() implies !(is_stop_mark(#[trigger] t[j]) && is_ws(t[j + 1])) by {
            assert(t[j] == s[start + j] && t[j + 1] == s[start + j + 1]);
        }
        assert(!has_stop_then_space(t));
        assert forall|m: int| 0 <= m < sentences_from(s, start, i).len() implies !has_stop_then_space(
            #[trigger] sentences_from(s, start, i)[m],
        ) by {
            if m > 0 {
                assert(sentences_from(s, start, i)[m] == sentences_from(s, k, k)[m - 1]);
            }
        }
    } else {
        assert(!(is_stop_mark(s[i]) && i + 1 < s.len() && is_ws(s[i + 1])));
        lemma_sentences_from_no_stop(s, start, i + 1);
        assert(sentences_from(s, start, i) == sentences_from(s, start, i + 1));
    }
}

/// A sentence ends at every `.`, `!`, `?` or `…` that whitespace follows:
/// no sentence of a text holds such a mark with whitespace right after it.
pub proof fn law_sentences_end_at_marks(s: Seq<char>)
    ensures
        forall|k: int| 0 <= k < sentences(s).len() ==> !has_stop_then_space(#[trigger] sentences(s)[k]),
{
    lemma_sentences_from_no_stop(s, 0, 0);
    if sentences_from(s, 0, 0).len() == 0 {
        assert(sentences(s) == seq![Seq::<char>::empty()]);
        assert(!has_stop_then_space(Seq::<char>::empty()));
    }
}

fn sentences_of(v: &[char]) -> (r: Vec<Vec<char>>)
    ensures
        views(r@) == sentences(v@),
{
    let n = v.len();
    let ghost s = v@;
    let mut r: Vec<Vec<char>> = Vec::new();
    let mut start: usize = 0;
    let mut i: usize = 0;
    assert(views(r@) + sentences_from(s, 0, 0) =~= sentences_from(s, 0, 0));
    while i < n
        invariant
            start <= i <= n == s.len(),
            s == v@,
            sentences_from(s, 0, 0) == views(r@) + sentences_from(s, start as int, i as int),
        decreases n - i,
    {
        let c = v[i];
        if (c == '.' || c == '!' || c == '?' || c == '\u{2026}') && i + 1 < n && is_whitespace(
            v[i + 1],
        ) {
            let mut k = i + 1;
            while k < n && is_whitespace(v[k])
                invariant
                    i + 1 <= k <= n == s.len(),
                    s == v@,
                    ws_run_end(s, i + 1) == ws_run_end(s, k as int),
                decreases n - k,
            {
                k += 1;
            }
            let piece = slice_chars(v, start, i + 1);
            let ghost before = views(r@);
            r.push(piece);
            assert(views(r@) =~= before.push(piece@));
            assert(views(r@) + sentences_from(s, k as int, k as int) =~= before + sentences_from(
                s,
                start as int,
                i as int,
            ));
            start = k;
            i = k;
        } else {
            i += 1;
        }
    }
    if start < n {
        let piece = slice_chars(v, start, n);
        let ghost before = views(r@);
        r.push(piece);
        assert(views(r@) =~= before.push(piece@));
        assert(views(r@) =~= before + sentences_from(s, start as int, n as int));
    } else {
        assert(views(r@) =~= views(r@) + sentences_from(s, start as int, n as int));
    }
    if r.len() == 0 {
        r.push(Vec::new());
        assert(views(r@) =~= seq![Seq::<char>::empty()]);
    }
    r
}

/// The state of chunking: finished chunks and the chunk being built.
pub type ChunkState = (Seq<Seq<char>>, Seq<char>);

/// One word added to the chunk state: it joins the current chunk after a
/// space unless that would make it longer than `max` characters.
pub open spec fn chunk_step(st: ChunkState, w: Seq<char>, max: int) -> ChunkState {
    if st.1.len() > 0 && st.1.len() + 1 + w.len() > max {
        (st.0.push(st.1), w)
    } else if st.1.len() == 0 {
        (st.0, w)
    } else {
        (st.0, st.1 + seq![' '] + w)
    }
}

/// The chunk state after the words `ws`, in order.
pub open spec fn chunk_fold(ws: Seq<Seq<char>>, max: int) -> ChunkState
    decreases ws.len(),
{
    if ws.len() == 0 {
        (seq![], seq![])
    } else {
        chunk_step(chunk_fold(ws.drop_last(), max), ws.last(), max)
    }
}

/// The words of `s` packed greedily into chunks of at most `max` characters
/// (a longer word makes a chunk of its own), words joined by one space.
pub open spec fn chunks_spec(s: Seq<char>, max: int) -> Seq<Seq<char>> {
    let st = chunk_fold(words(s), max);
    if st.1.len() > 0 {
        st.0.push(st.1)
    } else {
        st.0
    }
}

fn chunk_by_length(v: &[char], max: usize) -> (r: Vec<Vec<char>>)
    ensures
        views(r@) == chunks_spec(v@, max as int),
{
    let ws = words_of(v);
    let mut chunks: Vec<Vec<char>> = Vec::new();
    let mut cur: Vec<char> = Vec::new();
    let mut i: usize = 0;
    while i < ws.len()
        invariant
            i <= ws@.len(),
            views(ws@) == words(v@),
            chunk_fold(views(ws@).take(i as int), max as int) == (views(chunks@), cur@),
        decreases ws.len() - i,
    {
        let w = &ws[i];
        proof {
            assert(views(ws@).take(i + 1).drop_last() =~= views(ws@).take(i as int));
            assert(views(ws@).take(i + 1).last() == w@);
        }
        if cur.len() > 0 && cur.len() as u128 + 1 + w.len() as u128 > max as u128 {
            let ghost before = views(chunks@);
            chunks.push(cur);
            assert(views(chunks@) =~= before.push(cur@));
            cur = slice_chars(w.as_slice(), 0, w.len());
            assert(cur@ =~= w@);
        } else if cur.len() == 0 {
            cur = slice_chars(w.as_slice(), 0, w.len());
            assert(cur@ =~= w@);
        } else {
            cur.push(' ');
            push_all(&mut cur, w.as_slice());
        }
        i += 1;
    }
    assert(views(ws@).take(ws@.len() as int) =~= views(ws@));
    if cur.len() > 0 {
        let ghost before = views(chunks@);
        chunks.push(cur);
        assert(views(chunks@) =~= before.push(cur@));
    }
    chunks
}

/// The cue texts of the sentences `ss`: each trimmed; empty ones left out;
/// one within `max` characters kept whole, a longer one chunked.
pub open spec fn sentence_texts(ss: Seq<Seq<char>>, max: int) -> Seq<Seq<char>>
    decreases ss.len(),
{
    if ss.len() == 0 {
        seq![]
    } else {
        let st = trim(ss.last());
        sentence_texts(ss.drop_last(), max) + if st.len() == 0 {
            seq![]
        } else if st.len() <= max {
            seq![st]
        } else {
            chunks_spec(st, max)
        }
    }
}

/// The cue texts of one line: trimmed; nothing when empty; kept whole within
/// `max` characters, else split into sentences.
pub open spec fn line_texts(line: Seq<char>, max: int) -> Seq<Seq<char>> {
    let t = trim(line);
    if t.len() == 0 {
        seq![]
    } else if t.len() <= max {
        seq![t]
    } else {
        sentence_texts(sentences(t), max)
    }
}

/// The cue texts of the lines `ls`, in order.
pub open spec fn lines_texts(ls: Seq<Seq<char>>, max: int) -> Seq<Seq<char>>
    decreases ls.len(),
{
    if ls.len() == 0 {
        seq![]
    } else {
        lines_texts(ls.drop_last(), max) + line_texts(ls.last(), max)
    }
}

/// The cue texts that plain `text` makes with at most `max` characters each
/// (a single longer word excepted).
pub open spec fn cue_texts_spec(text: Seq<char>, max: int) -> Seq<Seq<char>> {
    lines_texts(lines(text), max)
}

proof fn lemma_no_stop_sub(s: Seq<char>, a: int, b: int)
    requires
        !has_stop_then_space(s),
        0 <= a <= b <= s.len(),
    ensures
        !has_stop_then_space(s.subrange(a, b)),
{
    let t = s.subrange(a, b);
    assert forall|j: int| 0 <= j && j + 1 < t.len() implies !(is_stop_mark(#[trigger] t[j]) && is_ws(t[j + 1])) by {
        assert(t[j] == s[a + j] && t[j + 1] == s[a + j + 1]);
        if is_stop_mark(t[j]) && is_ws(t[j + 1]) {
            assert(is_stop_mark(s[a + j]) && is_ws(s[a + j + 1]));
            assert(has_stop_then_space(s));
        }
    }
}

proof fn lemma_no_stop_trim_start(s: Seq<char>)
    requires
        !has_stop_then_space(s),
    ensures
        !has_stop_then_space(trim_start(s)),
    decreases s.len(),
{
    if s.len() > 0 && is_ws(s[0]) {
        lemma_no_stop_sub(s, 1, s.len() as int);
        assert(s.subrange(1, s.len() as int) =~= s.drop_first());
        lemma_no_stop_trim_start(s.drop_first());
    }
}

proof fn lemma_no_stop_trim(s: Seq<char>)
    requires
        !has_stop_then_space(s),
    ensures
        !has_stop_then_space(trim(s)),
{
    let t0 = trim_start(s);
    lemma_no_stop_trim_start(s);
    crate::text::lemma_trim_end_prefix(t0);
    lemma_no_stop_sub(t0, 0, trim_end(t0).len() as int);
    assert(t0.subrange(0, trim_end(t0).len() as int) =~= t0.take(trim_end(t0).len() as int));
}

/// In a text without a mark followed by whitespace, no word but the last
/// ends with a mark.
proof fn lemma_words_no_stop(s: Seq<char>)
    requires
        !has_stop_then_space(s),
    ensures
        forall|i: int| 0 <= i < words(s).len() - 1 ==> !is_stop_mark((#[trigger] words(s)[i]).last()),
    decreases s.len(),
{
    if s.len() > 0 {
        if is_ws(s[0]) {
            lemma_no_stop_sub(s, 1, s.len() as int);
            assert(s.subrange(1, s.len() as int) =~= s.drop_first());
            lemma_words_no_stop(s.drop_first());
            assert(words(s) == words(s.drop_first()));
        } else {
            let k = index_ws(s) as int;
            crate::text::lemma_index_ws_props(s);
            assert(k > 0);
            let rest = s.skip(k);
            lemma_no_stop_sub(s, k, s.len() as int);
            assert(s.subrange(k, s.len() as int) =~= rest);
            lemma_words_no_stop(rest);
            let r = words(s);
            assert(r == seq![s.take(k)] + words(rest));
            assert forall|i: int| 0 <= i < r.len() - 1 implies !is_stop_mark((#[trigger] r[i]).last()) by {
                if i == 0 {
                    assert(words(rest).len() > 0);
                    assert(rest.len() > 0);
                    assert(k < s.len());
                    assert(is_ws(s[k]));
                    assert(r[0] == s.take(k));
                    assert(r[0].last() == s[k - 1]);
                    if is_stop_mark(s[k - 1]) {
                        assert(has_stop_then_space(s));
                    }
                } else {
                    assert(r[i] == words(rest)[i - 1]);
                }
            }
        }
    }
}

/// Greedy chunks of words, where only the last word may end with a mark,
/// hold no mark followed by whitespace.
proof fn lemma_chunk_fold_no_stop(ws: Seq<Seq<char>>, max: int)
    requires
        forall|i: int| 0 <= i < ws.len() ==> (#[trigger] ws[i]).len() > 0 && no_ws(ws[i]),
        forall|i: int| 0 <= i < ws.len() - 1 ==> !is_stop_mark((#[trigger] ws[i]).last()),
    ensures
        forall|k: int| 0 <= k < chunk_fold(ws, max).0.len() ==> !has_stop_then_space(#[trigger] chunk_fold(ws, max).0[k]),
        !has_stop_then_space(chunk_fold(ws, max).1),
        ws.len() > 0 ==> chunk_fold(ws, max).1.len() > 0 && chunk_fold(ws, max).1.last() == ws.last().last(),
        ws.len() == 0 ==> chunk_fold(ws, max).1.len() == 0,
    decreases ws.len(),
{
    if ws.len() > 0 {
        let p = ws.drop_last();
        assert forall|i: int| 0 <= i < p.len() implies (#[trigger] p[i]).len() > 0 && no_ws(p[i]) by {
            assert(p[i] == ws[i]);
        }
        assert forall|i: int| 0 <= i < p.len() - 1 implies !is_stop_mark((#[trigger] p[i]).last()) by {
            assert(p[i] == ws[i]);
        }
        lemma_chunk_fold_no_stop(p, max);
        let st = chunk_fold(p, max);
        let w = ws.last();
        assert(w == ws[ws.len() - 1]);
        assert(!has_stop_then_space(w)) by {
            assert forall|j: int| 0 <= j && j + 1 < w.len() implies !(is_stop_mark(#[trigger] w[j]) && is_ws(w[j + 1])) by {
                assert(!is_ws(w[j + 1]));
            }
        }
        let cur = st.1;
        if cur.len() > 0 && cur.len() + 1 + w.len() > max {
            assert forall|k: int| 0 <= k < st.0.push(cur).len() implies !has_stop_then_space(#[trigger] st.0.push(cur)[k]) by {
                if k < st.0.len() {
                    assert(st.0.push(cur)[k] == st.0[k]);
                }
            }
        } else if cur.len() == 0 {
        } else {
            let c = cur + seq![' '] + w;
            assert(p.len() > 0);
            assert(cur.last() == p.last().last());
            assert(p.last() == ws[ws.len() - 2]);
            assert(!is_stop_mark(cur.last()));
            assert forall|j: int| 0 <= j && j + 1 < c.len() implies !(is_stop_mark(#[trigger] c[j]) && is_ws(c[j + 1])) by {
                if j + 1 < cur.len() {
                    assert(c[j] == cur[j] && c[j + 1] == cur[j + 1]);
                    if is_stop_mark(c[j]) && is_ws(c[j + 1]) {
                        assert(has_stop_then_space(cur));
                    }
                } else if j + 1 == cur.len() {
                    assert(c[j] == cur.last());
                } else if j == cur.len() {
                    assert(c[j] == ' ');
                } else {
                    assert(c[j + 1] == w[j + 1 - cur.len() - 1]);
                    assert(!is_ws(w[j + 1 - cur.len() - 1]));
                }
            }
            assert(c.last() == w.last());
        }
    }
}

proof fn lemma_chunks_no_stop(s: Seq<char>, max: int)
    requires
        !has_stop_then_space(s),
    ensures
        forall|k: int| 0 <= k < chunks_spec(s, max).len() ==> !has_stop_then_space(#[trigger] chunks_spec(s, max)[k]),
{
    crate::text::lemma_words_no_ws(s);
    lemma_words_no_stop(s);
    lemma_chunk_fold_no_stop(words(s), max);
    let st = chunk_fold(words(s), max);
    assert forall|k: int| 0 <= k < chunks_spec(s, max).len() implies !has_stop_then_space(#[trigger] chunks_spec(s, max)[k]) by {
        if st.1.len() > 0 && k == st.0.len() {
            assert(chunks_spec(s, max)[k] == st.1);
        } else {
            assert(chunks_spec(s, max)[k] == st.0[k]);
        }
    }
}

proof fn lemma_sentence_texts_no_stop(ss: Seq<Seq<char>>, max: int)
    requires
        forall|k: int| 0 <= k < ss.len() ==> !has_stop_then_space(#[trigger] ss[k]),
    ensures
        forall|k: int| 0 <= k < sentence_texts(ss, max).len() ==> !has_stop_then_space(
            #[trigger] sentence_texts(ss, max)[k],
        ),
    decreases ss.len(),
{
    if ss.len() > 0 {
        let p = ss.drop_last();
        assert forall|k: int| 0 <= k < p.len() implies !has_stop_then_space(#[trigger] p[k]) by {
            assert(p[k] == ss[k]);
        }
        lemma_sentence_texts_no_stop(p, max);
        assert(ss.last() == ss[ss.len() - 1]);
        let st = trim(ss.last());
        lemma_no_stop_trim(ss.last());
        let tail = if st.len() == 0 {
            seq![]
        } else if st.len() <= max {
            seq![st]
        } else {
            chunks_spec(st, max)
        };
        if st.len() > max {
            lemma_chunks_no_stop(st, max);
        }
        let r = sentence_texts(ss, max);
        assert(r == sentence_texts(p, max) + tail);
        assert forall|k: int| 0 <= k < r.len() implies !has_stop_then_space(#[trigger] r[k]) by {
            if k < sentence_texts(p, max).len() {
                assert(r[k] == sentence_texts(p, max)[k]);
            } else {
                assert(r[k] == tail[k - sentence_texts(p, max).len()]);
            }
        }
    }
}

/// A line too long for one cue is cut at its sentence ends: none of its cue
/// texts holds a `.`, `!`, `?` or `…` with whitespace after it.
pub proof fn law_long_line_cut_at_sentences(line: Seq<char>, max: int)
    requires
        trim(line).len() > max,
    ensures
        forall|k: int| 0 <= k < line_texts(line, max).len() ==> !has_stop_then_space(
            #[trigger] line_texts(line, max)[k],
        ),
{
    let t = trim(line);
    law_sentences_end_at_marks(t);
    lemma_sentence_texts_no_stop(sentences(t), max);
}

fn sentence_texts_of(ss: &Vec<Vec<char>>, max: usize, out: &mut Vec<Vec<char>>)
    ensures
        views(final(out)@) == views(old(out)@) + sentence_texts(views(ss@), max as int),
{
    let mut i: usize = 0;
    assert(views(out@) =~= views(old(out)@) + sentence_texts(views(ss@).take(0), max as int));
    while i < ss.len()
        invariant
            i <= ss@.len(),
            views(out@) == views(old(out)@) + sentence_texts(views(ss@).take(i as int), max as int),
        decreases ss.len() - i,
    {
        proof {
            assert(views(ss@).take(i + 1).drop_last() =~= views(ss@).take(i as int));
            assert(views(ss@).take(i + 1).last() == ss@[i as int]@);
        }
        let st = trim_chars(ss[i].as_slice());
        let ghost before = views(out@);
        if st.len() == 0 {
            assert(before + Seq::<Seq<char>>::empty() =~= before);
        } else if st.len() <= max {
            out.push(st);
            assert(views(out@) =~= before + seq![st@]);
        } else {
            let cs = chunk_by_length(st.as_slice(), max);
            append_all(out, &cs);
            assert(views(out@) =~= before + chunks_spec(st@, max as int));
        }
        i += 1;
    }
    assert(views(ss@).take(ss@.len() as int) =~= views(ss@));
}

/// Appends copies of `src`'s vectors to `dst`.
fn append_all(dst: &mut Vec<Vec<char>>, src: &Vec<Vec<char>>)
    ensures
        views(final(dst)@) == views(old(dst)@) + views(src@),
{
    let mut i: usize = 0;
    while i < src.len()
        invariant
            i <= src@.len(),
            views(dst@) == views(old(dst)@) + views(src@).take(i as int),
        decreases src.len() - i,
    {
        let c = slice_chars(src[i].as_slice(), 0, src[i].len());
        assert(c@ =~= src@[i as int]@);
        let ghost before = views(dst@);
        dst.push(c);
        assert(views(dst@) =~= before.push(src@[i as int]@));
        assert(views(dst@) =~= views(old(dst)@) + views(src@).take(i + 1));
        i += 1;
    }
    assert(views(src@).take(src@.len() as int) =~= views(src@));
}

/// Splits plain text into cue texts of at most `max_chars` characters: each
/// non-empty line, trimmed, is one cue when short enough; a longer line is
/// split into sentences, and a sentence still too long into chunks of words.
pub fn split_into_cue_texts(text: &str, max_chars: usize) -> (r: Vec<String>)
    ensures
        string_views(r@) == cue_texts_spec(text@, max_chars as int),
{
    let v = to_chars(text);
    let ls = lines_of(v.as_slice());
    let mut out: Vec<Vec<char>> = Vec::new();
    let mut i: usize = 0;
    while i < ls.len()
        invariant
            i <= ls@.len(),
            views(ls@) == lines(v@),
            views(out@) == lines_texts(views(ls@).take(i as int), max_chars as int),
        decreases ls.len() - i,
    {
        proof {
            assert(views(ls@).take(i + 1).drop_last() =~= views(ls@).take(i as int));
            assert(views(ls@).take(i + 1).last() == ls@[i as int]@);
        }
        let t = trim_chars(ls[i].as_slice());
        let ghost before = views(out@);
        if t.len() == 0 {
            assert(before + Seq::<Seq<char>>::empty() =~= before);
        } else if t.len() <= max_chars {
            out.push(t);
            assert(views(out@) =~= before + seq![t@]);
        } else {
            let ss = sentences_of(t.as_slice());
            sentence_texts_of(&ss, max_chars, &mut out);
        }
        i += 1;
    }
    assert(views(ls@).take(ls@.len() as int) =~= views(ls@));
    to_strings(&out)
}


// ------------------------------------------------------------------ alignment

/// Combining diacritical marks, U+0300 to U+036F (Vietnamese tone marks among them).
pub open spec fn is_combining_mark(c: char) -> bool {
    0x300 <= (c as u32) <= 0x36f
}

/// The characters of `s` that are alphanumeric and not combining marks.
pub open spec fn norm_filter(s: Seq<char>) -> Seq<char>
    decreases s.len(),
{
    if s.len() == 0 {
        seq![]
    } else {
        norm_filter(s.drop_last()) + if !is_combining_mark(s.last()) && is_alnum(s.last()) {
            seq![s.last()]
        } else {
            seq![]
        }
    }
}

/// A word reduced for matching: lower-cased, decomposed, marks and
/// punctuation dropped.
pub open spec fn norm_spec(w: Seq<char>) -> Seq<char> {
    norm_filter(nfd_of(lowercase_of(w)))
}

/// The word `w` reduced for matching, see [`norm_spec`].
pub fn norm(w: &[char]) -> (r: Vec<char>)
    ensures
        r@ == norm_spec(w@),
{
    let s = from_chars(w);
    let l = to_lowercase(s.as_str());
    let d = nfd(l.as_str());
    let v = to_chars(d.as_str());
    let mut r: Vec<char> = Vec::new();
    let mut i: usize = 0;
    while i < v.len()
        invariant
            i <= v@.len(),
            r@ == norm_filter(v@.take(i as int)),
        decreases v.len() - i,
    {
        let c = v[i];
        assert(v@.take(i + 1).drop_last() =~= v@.take(i as int));
        let u = c as u32;
        if !(0x300 <= u && u <= 0x36f) && char_is_alphanumeric(c) {
            r.push(c);
        } else {
            assert(r@ =~= r@ + Seq::<char>::empty());
        }
        i += 1;
    }
    assert(v@.take(v@.len() as int) =~= v@);
    r
}

/// The weight of a cue text in even distribution: its length, at least 1.
pub open spec fn weight(t: Seq<char>) -> int {
    if t.len() == 0 {
        1
    } else {
        t.len() as int
    }
}

/// The sum of the weights of `ts`.
pub open spec fn weight_sum(ts: Seq<Seq<char>>) -> int
    decreases ts.len(),
{
    if ts.len() == 0 {
        0
    } else {
        weight_sum(ts.drop_last()) + weight(ts.last())
    }
}

pub proof fn lemma_weight_sum_mono(ts: Seq<Seq<char>>, i: int)
    requires
        0 <= i <= ts.len(),
    ensures
        0 <= weight_sum(ts.take(i)) <= weight_sum(ts),
        i < ts.len() ==> weight_sum(ts.take(i)) < weight_sum(ts),
    decreases ts.len() - i,
{
    if i < ts.len() {
        lemma_weight_sum_mono(ts, i + 1);
        assert(ts.take(i + 1).drop_last() =~= ts.take(i));
        lemma_weight_sum_nonneg(ts.take(i));
    } else {
        assert(ts.take(i) =~= ts);
        lemma_weight_sum_nonneg(ts);
    }
}

pub proof fn lemma_weight_sum_nonneg(ts: Seq<Seq<char>>)
    ensures
        weight_sum(ts) >= 0,
        ts.len() > 0 ==> weight_sum(ts) > 0,
    decreases ts.len(),
{
    if ts.len() > 0 {
        lemma_weight_sum_nonneg(ts.drop_last());
    }
}

/// The cue texts spread over `t0..t1` (at least 1 ms), each taking a share
/// proportional to its length; times rounded to the millisecond, halves to
/// even.
pub open spec fn distribute_spec(ts: Seq<Seq<char>>, t0: int, t1: int) -> Seq<CueView> {
    let span = if t1 - t0 < 1 {
        1
    } else {
        t1 - t0
    };
    let total = weight_sum(ts);
    Seq::new(
        ts.len(),
        |i: int|
            (
                round_half_even(t0 * total + span * weight_sum(ts.take(i)), total),
                round_half_even(t0 * total + span * weight_sum(ts.take(i + 1)), total),
                ts[i],
            ),
    )
}

/// Bound on times handled in alignment, in milliseconds (about 73 million years).
pub open spec fn time_bound() -> int {
    0x1000_0000_0000_0000
}

fn distribute(texts: &[String], t0: i64, t1: i64) -> (r: Vec<Cue>)
    requires
        -time_bound() <= t0 <= time_bound(),
        -time_bound() <= t1 <= time_bound(),
        weight_sum(string_views(texts@)) < 0x4000_0000_0000_0000,
    ensures
        cue_views(r@) == distribute_spec(string_views(texts@), t0 as int, t1 as int),
        forall|i: int| 0 <= i < r@.len() ==> -time_bound() <= #[trigger] r@[i].start <= 2 * time_bound()
            && -time_bound() <= r@[i].end <= 2 * time_bound(),
{
    let ghost ts = string_views(texts@);
    let span: i64 = if t1 - t0 < 1 {
        1
    } else {
        t1 - t0
    };
    let mut total: u64 = 0;
    let mut i: usize = 0;
    while i < texts.len()
        invariant
            i <= texts@.len(),
            ts == string_views(texts@),
            weight_sum(ts) < 0x4000_0000_0000_0000,
            total == weight_sum(ts.take(i as int)),
        decreases texts.len() - i,
    {
        proof {
            assert(ts.take(i + 1).drop_last() =~= ts.take(i as int));
            assert(ts[i as int] == texts@[i as int]@);
            lemma_weight_sum_mono(ts, i + 1);
        }
        let n = texts[i].as_str().unicode_len();
        let w: u64 = if n == 0 {
            1
        } else {
            n as u64
        };
        total = total + w;
        i += 1;
    }
    assert(ts.take(texts@.len() as int) =~= ts);
    let mut r: Vec<Cue> = Vec::new();
    let mut acc: u64 = 0;
    let mut k: usize = 0;
    while k < texts.len()
        invariant
            k <= texts@.len(),
            ts == string_views(texts@),
            weight_sum(ts) < 0x4000_0000_0000_0000,
            total == weight_sum(ts),
            acc == weight_sum(ts.take(k as int)),
            1 <= span <= 2 * time_bound(),
            span == (if t1 - t0 < 1 { 1 } else { t1 - t0 }),
            -time_bound() <= t0 <= time_bound(),
            -time_bound() <= t1 <= time_bound(),
            r@.len() == k,
            cue_views(r@) == distribute_spec(ts, t0 as int, t1 as int).take(k as int),
            forall|j: int| 0 <= j < r@.len() ==> -time_bound() <= #[trigger] r@[j].start <= 2 * time_bound()
                && -time_bound() <= r@[j].end <= 2 * time_bound(),
        decreases texts.len() - k,
    {
        proof {
            assert(ts.take(k + 1).drop_last() =~= ts.take(k as int));
            assert(ts[k as int] == texts@[k as int]@);
            lemma_weight_sum_mono(ts, k as int);
            lemma_weight_sum_mono(ts, k + 1);
        }
        let n = texts[k].as_str().unicode_len();
        let w: u64 = if n == 0 {
            1
        } else {
            n as u64
        };
        let acc2 = acc + w;
        proof {
            assert(span * acc < 0x4000_0000_0000_0000_0000_0000_0000_0000) by (nonlinear_arith)
                requires span <= 0x2000_0000_0000_0000, acc < 0x4000_0000_0000_0000, acc >= 0, span >= 1;
            assert(span * acc2 < 0x4000_0000_0000_0000_0000_0000_0000_0000) by (nonlinear_arith)
                requires span <= 0x2000_0000_0000_0000, acc2 < 0x4000_0000_0000_0000, acc2 >= 0, span >= 1;
        }
        let s0 = round_half_even_shift(t0, span as i128 * acc as i128, total as i128);
        let e0 = round_half_even_shift(t0, span as i128 * acc2 as i128, total as i128);
        proof {
            lemma_weight_sum_nonneg(ts);
            assert(t0 * total <= t0 * total + span * acc <= (t0 + span) * total) by (nonlinear_arith)
                requires 0 <= acc <= total, span >= 1;
            assert(t0 * total <= t0 * total + span * acc2 <= (t0 + span) * total) by (nonlinear_arith)
                requires 0 <= acc2 <= total, span >= 1;
            lemma_round_half_even_between(t0 * total + span * acc, total as int, t0 as int, t0 + span);
            lemma_round_half_even_between(t0 * total + span * acc2, total as int, t0 as int, t0 + span);
            assert(t0 + span <= time_bound() + 1);
        }
        let text = texts[k].clone();
        let ghost before = cue_views(r@);
        r.push(Cue { start: s0 as i64, end: e0 as i64, text });
        assert(r@[k as int].start == s0 && r@[k as int].end == e0);
        proof {
            assert(cue_views(r@) =~= before.push((s0 as int, e0 as int, ts[k as int])));
            assert(cue_views(r@) =~= distribute_spec(ts, t0 as int, t1 as int).take(k + 1));
        }
        acc = acc2;
        k += 1;
    }
    assert(distribute_spec(ts, t0 as int, t1 as int).take(texts@.len() as int) =~= distribute_spec(
        ts,
        t0 as int,
        t1 as int,
    ));
    r
}


/// The views of optional times.
pub open spec fn opt_views(v: Seq<Option<i64>>) -> Seq<Option<int>> {
    v.map_values(
        |x: Option<i64>|
            match x {
                Some(t) => Some(t as int),
                None => None,
            },
    )
}

/// The index of the last known entry before `idx`, or -1.
pub open spec fn prev_known(s: Seq<Option<int>>, idx: int) -> int
    decreases idx,
{
    if idx <= 0 {
        -1
    } else if s[idx - 1] is Some {
        idx - 1
    } else {
        prev_known(s, idx - 1)
    }
}

/// The index of the first known entry after `idx`, or `s.len()`.
pub open spec fn next_known(s: Seq<Option<int>>, idx: int) -> int
    decreases s.len() - idx,
{
    if idx + 1 >= s.len() {
        s.len() as int
    } else if s[idx + 1] is Some {
        idx + 1
    } else {
        next_known(s, idx + 1)
    }
}

/// Entry `idx` of `s` filled in: a known value stays; an unknown one is
/// interpolated linearly between the known neighbours, `(0, lo)` standing in
/// before the first and `(len - 1, hi)` after the last, and rounded to the
/// millisecond, halves to even.
pub open spec fn interp_at(s: Seq<Option<int>>, lo: int, hi: int, idx: int) -> int {
    match s[idx] {
        Some(v) => v,
        None => {
            let pk = prev_known(s, idx);
            let nk = next_known(s, idx);
            let p0 = if pk >= 0 {
                pk
            } else {
                0
            };
            let p1 = if pk >= 0 {
                s[pk]->0
            } else {
                lo
            };
            let n0 = if nk < s.len() {
                nk
            } else {
                s.len() - 1
            };
            let n1 = if nk < s.len() {
                s[nk]->0
            } else {
                hi
            };
            if n0 == p0 {
                p1
            } else {
                round_half_even(p1 * (n0 - p0) + (idx - p0) * (n1 - p1), n0 - p0)
            }
        },
    }
}

/// Every entry of `s` filled in, see [`interp_at`].
pub open spec fn interp_spec(s: Seq<Option<int>>, lo: int, hi: int) -> Seq<int> {
    Seq::new(s.len(), |i: int| interp_at(s, lo, hi, i))
}

proof fn lemma_prev_known_is(s: Seq<Option<int>>, i: int, p: int)
    requires
        0 <= p < i <= s.len(),
        s[p] is Some,
        forall|k: int| p < k < i ==> s[k] is None,
    ensures
        prev_known(s, i) == p,
    decreases i,
{
    if i - 1 != p {
        assert(s[i - 1] is None);
        lemma_prev_known_is(s, i - 1, p);
    }
}

proof fn lemma_next_known_is(s: Seq<Option<int>>, i: int, q: int)
    requires
        0 <= i < q < s.len(),
        s[q] is Some,
        forall|k: int| i < k < q ==> s[k] is None,
    ensures
        next_known(s, i) == q,
    decreases s.len() - i,
{
    if i + 1 != q {
        assert(s[i + 1] is None);
        lemma_next_known_is(s, i + 1, q);
    }
}

/// Filling in keeps the known entries, and an unknown entry between the
/// known entries at `p` and `q` (none known in between) gets the value on the
/// straight line between theirs, `v_p + (i - p) * (v_q - v_p) / (q - p)`,
/// rounded halves to even; so it lies between the two values.
pub proof fn law_interp_between(s: Seq<Option<int>>, lo: int, hi: int, p: int, i: int, q: int)
    requires
        0 <= p < i < q < s.len(),
        s[p] is Some,
        s[q] is Some,
        forall|k: int| p < k < q ==> s[k] is None,
    ensures
        interp_spec(s, lo, hi)[p] == s[p]->0,
        interp_spec(s, lo, hi)[q] == s[q]->0,
        interp_spec(s, lo, hi)[i] == round_half_even(
            s[p]->0 * (q - p) + (i - p) * (s[q]->0 - s[p]->0),
            q - p,
        ),
        s[p]->0 <= s[q]->0 ==> s[p]->0 <= interp_spec(s, lo, hi)[i] <= s[q]->0,
        s[q]->0 <= s[p]->0 ==> s[q]->0 <= interp_spec(s, lo, hi)[i] <= s[p]->0,
{
    assert(s[i] is None);
    lemma_prev_known_is(s, i, p);
    lemma_next_known_is(s, i, q);
    let a = s[p]->0;
    let b = s[q]->0;
    let d = q - p;
    let t = i - p;
    let num = a * d + t * (b - a);
    if a <= b {
        assert(a * d <= num <= b * d) by (nonlinear_arith)
            requires num == a * d + t * (b - a), 0 < t < d, a <= b;
        lemma_round_half_even_between(num, d, a, b);
    } else {
        assert(b * d <= num <= a * d) by (nonlinear_arith)
            requires num == a * d + t * (b - a), 0 < t < d, b < a;
        lemma_round_half_even_between(num, d, b, a);
    }
}

pub proof fn lemma_prev_known(s: Seq<Option<int>>, idx: int)
    requires
        0 <= idx <= s.len(),
    ensures
        -1 <= prev_known(s, idx) < idx,
        prev_known(s, idx) >= 0 ==> s[prev_known(s, idx)] is Some,
    decreases idx,
{
    if idx > 0 && s[idx - 1] is None {
        lemma_prev_known(s, idx - 1);
    }
}

pub proof fn lemma_next_known(s: Seq<Option<int>>, idx: int)
    requires
        0 <= idx < s.len(),
    ensures
        idx < next_known(s, idx) <= s.len(),
        next_known(s, idx) < s.len() ==> s[next_known(s, idx)] is Some,
    decreases s.len() - idx,
{
    if idx + 1 < s.len() && s[idx + 1] is None {
        lemma_next_known(s, idx + 1);
    }
}

/// Whether every known entry of `s` is within the time bound.
pub open spec fn known_in_bound(s: Seq<Option<int>>) -> bool {
    forall|i: int| 0 <= i < s.len() && #[trigger] s[i] is Some ==> -time_bound() <= s[i]->0 <= time_bound()
}

/// Fills in the unknown entries of `seq`, see [`interp_spec`].
fn interp(seq: &Vec<Option<i64>>, lo: i64, hi: i64) -> (r: Vec<i64>)
    requires
        known_in_bound(opt_views(seq@)),
        -time_bound() <= lo <= time_bound(),
        -time_bound() <= hi <= time_bound(),
    ensures
        r@.len() == seq@.len(),
        forall|i: int| 0 <= i < r@.len() ==> #[trigger] r@[i] as int == interp_spec(opt_views(seq@), lo as int, hi as int)[i]
            && -time_bound() <= r@[i] <= time_bound(),
{
    let ghost s = opt_views(seq@);
    let n = seq.len();
    let mut r: Vec<i64> = Vec::new();
    let mut idx: usize = 0;
    while idx < n
        invariant
            idx <= n == seq@.len() == s.len(),
            s == opt_views(seq@),
            known_in_bound(s),
            -time_bound() <= lo <= time_bound(),
            -time_bound() <= hi <= time_bound(),
            r@.len() == idx,
            forall|i: int| 0 <= i < idx ==> #[trigger] r@[i] as int == interp_spec(s, lo as int, hi as int)[i]
                && -time_bound() <= r@[i] <= time_bound(),
        decreases n - idx,
    {
        match seq[idx] {
            Some(v) => {
                assert(s[idx as int] == Some(v as int));
                r.push(v);
            },
            None => {
                assert(s[idx as int] is None);
                let mut p = idx;
                while p > 0 && seq[p - 1].is_none()
                    invariant
                        p <= idx < n == seq@.len() == s.len(),
                        s == opt_views(seq@),
                        prev_known(s, idx as int) == prev_known(s, p as int),
                    decreases p,
                {
                    assert(s[p - 1] is None);
                    p -= 1;
                }
                if p > 0 {
                    assert(s[p - 1] is Some);
                }
                let mut q = idx;
                while q + 1 < n && seq[q + 1].is_none()
                    invariant
                        idx <= q < n == seq@.len() == s.len(),
                        s == opt_views(seq@),
                        next_known(s, idx as int) == next_known(s, q as int),
                    decreases n - q,
                {
                    assert(s[q + 1] is None);
                    q += 1;
                }
                if q + 1 < n {
                    assert(s[q + 1] is Some);
                }
                proof {
                    lemma_prev_known(s, idx as int);
                    lemma_next_known(s, idx as int);
                }
                let (p0, p1): (usize, i64) = if p > 0 {
                    match seq[p - 1] {
                        Some(x) => (p - 1, x),
                        None => (0, lo),
                    }
                } else {
                    (0, lo)
                };
                let (n0, n1): (usize, i64) = if q + 1 < n {
                    match seq[q + 1] {
                        Some(x) => (q + 1, x),
                        None => (n - 1, hi),
                    }
                } else {
                    (n - 1, hi)
                };
                assert(-time_bound() <= p1 <= time_bound()) by {
                    if p > 0 {
                        assert(s[p - 1] is Some);
                    }
                }
                assert(-time_bound() <= n1 <= time_bound()) by {
                    if q + 1 < n {
                        assert(s[q + 1] is Some);
                    }
                }
                assert(p0 <= idx <= n0);
                if n0 == p0 {
                    r.push(p1);
                } else {
                    let d: i128 = n0 as i128 - p0 as i128;
                    assert((idx - p0) * (n1 - p1) < 0x4000_0000_0000_0000_0000_0000_0000_0000
                        && (idx - p0) * (n1 - p1) > -0x4000_0000_0000_0000_0000_0000_0000_0000) by (nonlinear_arith)
                        requires 0 <= idx - p0 <= 0x1_0000_0000_0000_0000,
                            -0x2000_0000_0000_0000 <= n1 - p1 <= 0x2000_0000_0000_0000;
                    let x: i128 = (idx as i128 - p0 as i128) * (n1 as i128 - p1 as i128);
                    proof {
                        assert(0 <= idx - p0 <= d);
                        assert(-0x4000_0000_0000_0000_0000_0000_0000_0000 < x < 0x4000_0000_0000_0000_0000_0000_0000_0000) by (nonlinear_arith)
                            requires x == (idx - p0) * (n1 - p1), 0 <= idx - p0 <= 0x1_0000_0000_0000_0000,
                                -0x2000_0000_0000_0000 <= n1 - p1 <= 0x2000_0000_0000_0000;
                    }
                    let v = round_half_even_shift(p1, x, d);
                    proof {
                        let lo_ = if p1 <= n1 { p1 as int } else { n1 as int };
                        let hi_ = if p1 <= n1 { n1 as int } else { p1 as int };
                        assert(lo_ * d <= p1 * d + x <= hi_ * d) by (nonlinear_arith)
                            requires x == (idx - p0) * (n1 - p1), 0 <= idx - p0 <= d, d > 0,
                                lo_ == (if p1 <= n1 { p1 as int } else { n1 as int }),
                                hi_ == (if p1 <= n1 { n1 as int } else { p1 as int });
                        lemma_round_half_even_between(p1 * d + x, d as int, lo_, hi_);
                    }
                    r.push(v as i64);
                }
            },
        }
        idx += 1;
    }
    r
}


/// A word of the user's text: the index of its cue and its reduced form.
pub type UserWord = (int, Seq<char>);

/// The reduced non-empty words `ws` of cue `ci`.
pub open spec fn cue_user_words(ci: int, ws: Seq<Seq<char>>) -> Seq<UserWord>
    decreases ws.len(),
{
    if ws.len() == 0 {
        seq![]
    } else {
        let n = norm_spec(ws.last());
        cue_user_words(ci, ws.drop_last()) + if n.len() > 0 {
            seq![(ci, n)]
        } else {
            seq![]
        }
    }
}

/// The reduced words of all cue texts, with the index of their cue.
pub open spec fn user_words_of(ts: Seq<Seq<char>>) -> Seq<UserWord>
    decreases ts.len(),
{
    if ts.len() == 0 {
        seq![]
    } else {
        user_words_of(ts.drop_last()) + cue_user_words(ts.len() - 1, words(ts.last()))
    }
}

/// Times taken from matched words: for each block, the user words it covers
/// get the start (`first`) or end time of the recognised word they match.
pub open spec fn assign(bl: Seq<Block>, ws: Seq<WordView>, n: int, first: bool) -> Seq<Option<int>>
    decreases bl.len(),
{
    if bl.len() == 0 {
        Seq::new(n as nat, |p: int| None)
    } else {
        let prev = assign(bl.drop_last(), ws, n, first);
        let b = bl.last();
        Seq::new(
            n as nat,
            |p: int|
                if b.0 <= p < b.0 + b.2 {
                    Some(
                        if first {
                            ws[b.1 + p - b.0].1
                        } else {
                            ws[b.1 + p - b.0].2
                        },
                    )
                } else {
                    prev[p]
                },
        )
    }
}

/// The number of words that the blocks match.
pub open spec fn total_size(bl: Seq<Block>) -> int
    decreases bl.len(),
{
    if bl.len() == 0 {
        0
    } else {
        total_size(bl.drop_last()) + bl.last().2
    }
}

/// The earliest of `st[i]` over the user words `i < upto` of cue `ci`.
pub open spec fn cue_min(uw: Seq<UserWord>, st: Seq<int>, ci: int, upto: int) -> Option<int>
    decreases upto,
{
    if upto <= 0 {
        None
    } else {
        let prev = cue_min(uw, st, ci, upto - 1);
        if uw[upto - 1].0 == ci {
            Some(
                match prev {
                    Some(m) => if st[upto - 1] < m {
                        st[upto - 1]
                    } else {
                        m
                    },
                    None => st[upto - 1],
                },
            )
        } else {
            prev
        }
    }
}

/// The latest of `en[i]` over the user words `i < upto` of cue `ci`.
pub open spec fn cue_max(uw: Seq<UserWord>, en: Seq<int>, ci: int, upto: int) -> Option<int>
    decreases upto,
{
    if upto <= 0 {
        None
    } else {
        let prev = cue_max(uw, en, ci, upto - 1);
        if uw[upto - 1].0 == ci {
            Some(
                match prev {
                    Some(m) => if en[upto - 1] > m {
                        en[upto - 1]
                    } else {
                        m
                    },
                    None => en[upto - 1],
                },
            )
        } else {
            prev
        }
    }
}

/// The cues before the final clean-up: a cue with words spans from its
/// words' earliest start to their latest end; one without words sits, with
/// no duration, at the end of the cue before it (or at `span0`).
pub open spec fn raw_cues(
    ts: Seq<Seq<char>>,
    uw: Seq<UserWord>,
    st: Seq<int>,
    en: Seq<int>,
    span0: int,
) -> Seq<CueView>
    decreases ts.len(),
{
    if ts.len() == 0 {
        seq![]
    } else {
        let prev = raw_cues(ts.drop_last(), uw, st, en, span0);
        let ci = ts.len() - 1;
        match (cue_min(uw, st, ci, uw.len() as int), cue_max(uw, en, ci, uw.len() as int)) {
            (Some(mn), Some(mx)) => prev.push((mn, mx, ts[ci])),
            _ => {
                let anchor = if prev.len() > 0 {
                    prev.last().1
                } else {
                    span0
                };
                prev.push((anchor, anchor, ts[ci]))
            },
        }
    }
}

/// The cues cleaned up: an end before its start moves to the start, and an
/// end after the next cue's start moves back to it.
pub open spec fn clamp_cues(cs: Seq<CueView>) -> Seq<CueView> {
    Seq::new(
        cs.len(),
        |i: int|
            {
                let c = cs[i];
                let e1 = if c.1 < c.0 {
                    c.0
                } else {
                    c.1
                };
                let e2 = if i + 1 < cs.len() && e1 > cs[i + 1].0 {
                    cs[i + 1].0
                } else {
                    e1
                };
                (c.0, e2, c.2)
            },
    )
}

/// The cues that `align` makes of the cue texts `ts` and recognised words `ws`.
pub open spec fn align_spec(ts: Seq<Seq<char>>, ws: Seq<WordView>) -> Seq<CueView> {
    if ws.len() == 0 {
        distribute_spec(ts, 0, (if ts.len() == 0 { 1 } else { ts.len() as int }) * 1000)
    } else {
        let span0 = ws[0].1;
        let span1 = ws.last().2;
        let uw = user_words_of(ts);
        if uw.len() == 0 {
            distribute_spec(ts, span0, span1)
        } else {
            let wn = ws.map_values(|w: WordView| norm_spec(w.0));
            let un = uw.map_values(|u: UserWord| u.1);
            let bl = matching_blocks_spec(un, wn);
            if 4 * total_size(bl) < uw.len() {
                distribute_spec(ts, span0, span1)
            } else {
                let st = interp_spec(assign(bl, ws, uw.len() as int, true), span0, span1);
                let en = interp_spec(assign(bl, ws, uw.len() as int, false), span0, span1);
                clamp_cues(raw_cues(ts, uw, st, en, span0))
            }
        }
    }
}


/// The views of user words.
pub open spec fn uw_views(v: Seq<(usize, Vec<char>)>) -> Seq<UserWord> {
    v.map_values(|u: (usize, Vec<char>)| (u.0 as int, u.1@))
}

fn user_words(texts: &[String]) -> (r: Vec<(usize, Vec<char>)>)
    ensures
        uw_views(r@) == user_words_of(string_views(texts@)),
        forall|i: int| 0 <= i < r@.len() ==> (#[trigger] r@[i]).0 < texts@.len(),
{
    let ghost ts = string_views(texts@);
    let mut r: Vec<(usize, Vec<char>)> = Vec::new();
    let mut ci: usize = 0;
    while ci < texts.len()
        invariant
            ci <= texts@.len(),
            ts == string_views(texts@),
            uw_views(r@) == user_words_of(ts.take(ci as int)),
            forall|i: int| 0 <= i < r@.len() ==> (#[trigger] r@[i]).0 < ci,
        decreases texts.len() - ci,
    {
        proof {
            assert(ts.take(ci + 1).drop_last() =~= ts.take(ci as int));
            assert(ts.take(ci + 1).last() == texts@[ci as int]@);
        }
        let v = to_chars(texts[ci].as_str());
        let ws = words_of(v.as_slice());
        let ghost start = uw_views(r@);
        let mut k: usize = 0;
        while k < ws.len()
            invariant
                k <= ws@.len(),
                ci < texts@.len(),
                uw_views(r@) == start + cue_user_words(ci as int, views(ws@).take(k as int)),
                forall|i: int| 0 <= i < r@.len() ==> (#[trigger] r@[i]).0 < ci + 1,
            decreases ws.len() - k,
        {
            proof {
                assert(views(ws@).take(k + 1).drop_last() =~= views(ws@).take(k as int));
                assert(views(ws@).take(k + 1).last() == ws@[k as int]@);
            }
            let n = norm(ws[k].as_slice());
            if n.len() > 0 {
                let ghost before = uw_views(r@);
                r.push((ci, n));
                assert(uw_views(r@) =~= before.push((ci as int, n@)));
            } else {
                assert(uw_views(r@) =~= uw_views(r@) + Seq::<UserWord>::empty());
            }
            k += 1;
        }
        assert(views(ws@).take(ws@.len() as int) =~= views(ws@));
        assert(uw_views(r@) =~= user_words_of(ts.take(ci + 1)));
        ci += 1;
    }
    assert(ts.take(texts@.len() as int) =~= ts);
    r
}

/// Whether every block lies within `0..n` and `0..m`.
pub open spec fn blocks_within(bl: Seq<Block>, n: int, m: int) -> bool {
    forall|t: int|
        0 <= t < bl.len() ==> 0 <= (#[trigger] bl[t]).0 && bl[t].0 + bl[t].2 <= n && 0 <= bl[t].1
            && bl[t].1 + bl[t].2 <= m && bl[t].2 >= 0
}

fn assign_exec(
    bl: &Vec<(usize, usize, usize)>,
    words: &[(String, i64, i64)],
    n: usize,
    first: bool,
) -> (r: Vec<Option<i64>>)
    requires
        blocks_within(block_views(bl@), n as int, words@.len() as int),
    ensures
        opt_views(r@) == assign(block_views(bl@), word_views(words@), n as int, first),
{
    let ghost ws = word_views(words@);
    let ghost vb = block_views(bl@);
    let mut r: Vec<Option<i64>> = Vec::new();
    let mut z: usize = 0;
    while z < n
        invariant
            z <= n,
            r@.len() == z,
            opt_views(r@) == Seq::new(z as nat, |p: int| None::<int>),
        decreases n - z,
    {
        let ghost before = r@;
        r.push(None);
        assert(r@ == before.push(None));
        assert forall|p: int| 0 <= p < z + 1 implies #[trigger] opt_views(r@)[p] == None::<int> by {
            if p < z {
                assert(r@[p] == before[p]);
                assert(opt_views(before)[p] == None::<int>);
            }
        }
        assert(opt_views(r@) =~= Seq::new((z + 1) as nat, |p: int| None::<int>));
        z += 1;
    }
    assert(opt_views(r@) =~= assign(vb.take(0), ws, n as int, first));
    let mut t: usize = 0;
    while t < bl.len()
        invariant
            t <= bl@.len(),
            vb == block_views(bl@),
            ws == word_views(words@),
            blocks_within(vb, n as int, words@.len() as int),
            r@.len() == n,
            opt_views(r@) == assign(vb.take(t as int), ws, n as int, first),
        decreases bl.len() - t,
    {
        let (ai, bj, sz) = bl[t];
        assert(vb[t as int] == (ai as int, bj as int, sz as int));
        let ghost prev = opt_views(r@);
        let mut k: usize = 0;
        while k < sz
            invariant
                k <= sz,
                ai + sz <= n,
                bj + sz <= words@.len(),
                r@.len() == n,
                ws == word_views(words@),
                opt_views(r@) == Seq::new(
                    n as nat,
                    |p: int|
                        if ai <= p < ai + k {
                            Some(
                                if first {
                                    ws[bj + p - ai].1
                                } else {
                                    ws[bj + p - ai].2
                                },
                            )
                        } else {
                            prev[p]
                        },
                ),
            decreases sz - k,
        {
            assert(bj + k < words.len());
            let w = &words[bj + k];
            let v = if first {
                w.1
            } else {
                w.2
            };
            assert(ws[bj + k] == (w.0@, w.1 as int, w.2 as int));
            let ghost before = r@;
            r.set(ai + k, Some(v));
            assert(r@ == before.update(ai + k, Some(v)));
            assert forall|p: int| 0 <= p < n implies #[trigger] opt_views(r@)[p] == (if ai <= p < ai + k + 1 {
                            Some(
                                if first {
                                    ws[bj + p - ai].1
                                } else {
                                    ws[bj + p - ai].2
                                },
                            )
                        } else {
                            prev[p]
                        }) by {
                if p == ai + k {
                    assert(opt_views(r@)[p] == Some(v as int));
                } else {
                    assert(r@[p] == before[p]);
                    assert(opt_views(r@)[p] == opt_views(before)[p]);
                }
            }
            assert(opt_views(r@) =~= Seq::new(
                n as nat,
                |p: int|
                    if ai <= p < ai + k + 1 {
                        Some(
                            if first {
                                ws[bj + p - ai].1
                            } else {
                                ws[bj + p - ai].2
                            },
                        )
                    } else {
                        prev[p]
                    },
            ));
            k += 1;
        }
        proof {
            assert(vb.take(t + 1).drop_last() =~= vb.take(t as int));
            assert(vb.take(t + 1).last() == vb[t as int]);
            assert(opt_views(r@) =~= assign(vb.take(t + 1), ws, n as int, first));
        }
        t += 1;
    }
    assert(vb.take(bl@.len() as int) =~= vb);
    r
}

fn total_size_exec(bl: &Vec<(usize, usize, usize)>) -> (r: u128)
    ensures
        r == total_size(block_views(bl@)),
{
    let ghost vb = block_views(bl@);
    let mut r: u128 = 0;
    let mut t: usize = 0;
    while t < bl.len()
        invariant
            t <= bl@.len(),
            vb == block_views(bl@),
            r == total_size(vb.take(t as int)),
            r <= t * 0x1_0000_0000_0000_0000,
        decreases bl.len() - t,
    {
        assert(vb.take(t + 1).drop_last() =~= vb.take(t as int));
        assert(vb.take(t + 1).last() == vb[t as int]);
        r = r + bl[t].2 as u128;
        t += 1;
    }
    assert(vb.take(bl@.len() as int) =~= vb);
    r
}


/// Whether every word's times are within the time bound.
pub open spec fn words_in_bound(ws: Seq<WordView>) -> bool {
    forall|i: int|
        0 <= i < ws.len() ==> -time_bound() <= (#[trigger] ws[i]).1 <= time_bound() && -time_bound()
            <= ws[i].2 <= time_bound()
}

pub proof fn lemma_assign_in_bound(bl: Seq<Block>, ws: Seq<WordView>, n: int, first: bool)
    requires
        n >= 0,
        blocks_within(bl, n, ws.len() as int),
        words_in_bound(ws),
    ensures
        assign(bl, ws, n, first).len() == n,
        known_in_bound(assign(bl, ws, n, first)),
    decreases bl.len(),
{
    if bl.len() > 0 {
        let prev = bl.drop_last();
        assert(blocks_within(prev, n, ws.len() as int)) by {
            assert forall|t: int| 0 <= t < prev.len() implies 0 <= (#[trigger] prev[t]).0 && prev[t].0
                + prev[t].2 <= n && 0 <= prev[t].1 && prev[t].1 + prev[t].2 <= ws.len() && prev[t].2
                >= 0 by {
                assert(prev[t] == bl[t]);
            }
        }
        lemma_assign_in_bound(prev, ws, n, first);
        let b = bl.last();
        assert(bl[bl.len() - 1] == b);
        let s = assign(bl, ws, n, first);
        assert forall|i: int| 0 <= i < s.len() && #[trigger] s[i] is Some implies -time_bound()
            <= s[i]->0 <= time_bound() by {
            if b.0 <= i < b.0 + b.2 {
                assert(0 <= b.1 + i - b.0 < ws.len());
                assert(words_in_bound(ws));
                let w = ws[b.1 + i - b.0];
            } else {
                assert(s[i] == assign(prev, ws, n, first)[i]);
            }
        }
    }
}

pub proof fn lemma_weight_sum_len(ts: Seq<Seq<char>>)
    ensures
        weight_sum(ts) >= ts.len(),
    decreases ts.len(),
{
    if ts.len() > 0 {
        lemma_weight_sum_len(ts.drop_last());
    }
}

/// Gives each cue text a time from the recognised words: the words of the
/// texts are matched against the recognised ones, matched words take their
/// times, the others are interpolated, and each cue spans its words. With no
/// recognised words, no usable text words or under a quarter of them matched,
/// the texts are spread evenly instead. Times are in milliseconds.
pub fn align(cue_texts: &[String], words: &[(String, i64, i64)]) -> (r: Vec<Cue>)
    requires
        weight_sum(string_views(cue_texts@)) < 0x100_0000_0000,
        words_in_bound(word_views(words@)),
    ensures
        cue_views(r@) == align_spec(string_views(cue_texts@), word_views(words@)),
{
    let ghost ts = string_views(cue_texts@);
    let ghost ws = word_views(words@);
    proof {
        lemma_weight_sum_len(ts);
    }
    if words.len() == 0 {
        let n = cue_texts.len();
        let secs: i64 = if n == 0 {
            1
        } else {
            n as i64
        };
        return distribute(cue_texts, 0, secs * 1000);
    }
    let span0 = words[0].1;
    let span1 = words[words.len() - 1].2;
    assert(ws[0].1 == span0 && ws[ws.len() - 1].2 == span1);
    assert(ws.last() == ws[ws.len() - 1]);
    let uw = user_words(cue_texts);
    let ghost uwv = uw_views(uw@);
    if uw.len() == 0 {
        return distribute(cue_texts, span0, span1);
    }
    let mut wn: Vec<Vec<char>> = Vec::new();
    let mut i: usize = 0;
    while i < words.len()
        invariant
            i <= words@.len(),
            ws == word_views(words@),
            views(wn@) == ws.map_values(|w: WordView| norm_spec(w.0)).take(i as int),
        decreases words.len() - i,
    {
        let v = to_chars(words[i].0.as_str());
        let n = norm(v.as_slice());
        let ghost before = views(wn@);
        wn.push(n);
        assert(ws[i as int].0 == words@[i as int].0@);
        assert(views(wn@) =~= before.push(n@));
        assert(views(wn@) =~= ws.map_values(|w: WordView| norm_spec(w.0)).take(i + 1));
        i += 1;
    }
    assert(ws.map_values(|w: WordView| norm_spec(w.0)).take(words@.len() as int) =~= ws.map_values(
        |w: WordView| norm_spec(w.0),
    ));
    let mut un: Vec<Vec<char>> = Vec::new();
    let mut j: usize = 0;
    while j < uw.len()
        invariant
            j <= uw@.len(),
            uwv == uw_views(uw@),
            views(un@) == uwv.map_values(|u: UserWord| u.1).take(j as int),
        decreases uw.len() - j,
    {
        let c = slice_chars(uw[j].1.as_slice(), 0, uw[j].1.len());
        let ghost before = views(un@);
        un.push(c);
        assert(c@ =~= uwv[j as int].1);
        assert(views(un@) =~= before.push(c@));
        assert(views(un@) =~= uwv.map_values(|u: UserWord| u.1).take(j + 1));
        j += 1;
    }
    assert(uwv.map_values(|u: UserWord| u.1).take(uw@.len() as int) =~= uwv.map_values(
        |u: UserWord| u.1,
    ));
    let bl = matching_blocks(&un, &wn);
    let ghost vb = block_views(bl@);
    assert(blocks_within(vb, uw@.len() as int, words@.len() as int)) by {
        assert forall|t: int| 0 <= t < vb.len() implies 0 <= (#[trigger] vb[t]).0 && vb[t].0 + vb[t].2
            <= uw@.len() && 0 <= vb[t].1 && vb[t].1 + vb[t].2 <= words@.len() && vb[t].2 >= 0 by {
            assert(block_in(views(un@), views(wn@), vb[t], 0, un@.len() as int, 0, wn@.len() as int));
        }
    }
    let matched = total_size_exec(&bl);
    if matched <= uw.len() as u128 && 4 * matched < uw.len() as u128 {
        return distribute(cue_texts, span0, span1);
    }
    let sa = assign_exec(&bl, words, uw.len(), true);
    let ea = assign_exec(&bl, words, uw.len(), false);
    proof {
        lemma_assign_in_bound(vb, ws, uw@.len() as int, true);
        lemma_assign_in_bound(vb, ws, uw@.len() as int, false);
    }
    let st = interp(&sa, span0, span1);
    let en = interp(&ea, span0, span1);
    let ghost stv = interp_spec(opt_views(sa@), span0 as int, span1 as int);
    let ghost env = interp_spec(opt_views(ea@), span0 as int, span1 as int);
    let cues = raw_cues_exec(cue_texts, &uw, &st, &en, span0, Ghost(stv), Ghost(env));
    clamp_exec(&cues)
}

fn raw_cues_exec(
    cue_texts: &[String],
    uw: &Vec<(usize, Vec<char>)>,
    st: &Vec<i64>,
    en: &Vec<i64>,
    span0: i64,
    stv: Ghost<Seq<int>>,
    env: Ghost<Seq<int>>,
) -> (r: Vec<Cue>)
    requires
        st@.len() == uw@.len(),
        en@.len() == uw@.len(),
        stv@.len() == uw@.len(),
        env@.len() == uw@.len(),
        forall|i: int| 0 <= i < st@.len() ==> #[trigger] st@[i] as int == stv@[i],
        forall|i: int| 0 <= i < en@.len() ==> #[trigger] en@[i] as int == env@[i],
    ensures
        cue_views(r@) == raw_cues(string_views(cue_texts@), uw_views(uw@), stv@, env@, span0 as int),
{
    broadcast use vstd::std_specs::hash::group_hash_axioms;
    let ghost ts = string_views(cue_texts@);
    let ghost uwv = uw_views(uw@);
    // by_cue: the earliest start and latest end of the words of each cue
    // that has words.
    let mut by_cue: HashMap<usize, (i64, i64)> = HashMap::new();
    let mut i: usize = 0;
    while i < uw.len()
        invariant
            i <= uw@.len(),
            uwv == uw_views(uw@),
            st@.len() == uw@.len(),
            en@.len() == uw@.len(),
            forall|k: int| 0 <= k < st@.len() ==> #[trigger] st@[k] as int == stv@[k],
            forall|k: int| 0 <= k < en@.len() ==> #[trigger] en@[k] as int == env@[k],
            forall|c: usize| #[trigger] by_cue@.contains_key(c) ==> cue_min(uwv, stv@, c as int, i as int) == Some(by_cue@[c].0 as int)
                && cue_max(uwv, env@, c as int, i as int) == Some(by_cue@[c].1 as int),
            forall|c: usize| !(#[trigger] by_cue@.contains_key(c)) ==> cue_min(uwv, stv@, c as int, i as int) is None
                && cue_max(uwv, env@, c as int, i as int) is None,
        decreases uw.len() - i,
    {
        assert(uwv[i as int].0 == uw@[i as int].0 as int);
        let c = uw[i].0;
        let s = st[i];
        let e = en[i];
        let nv: (i64, i64) = match by_cue.get(&c) {
            Some(p) => (if s < p.0 {
                s
            } else {
                p.0
            }, if e > p.1 {
                e
            } else {
                p.1
            }),
            None => (s, e),
        };
        let ghost before = by_cue@;
        by_cue.insert(c, nv);
        proof {
            assert(st@[i as int] as int == stv@[i as int]);
            assert(en@[i as int] as int == env@[i as int]);
            assert forall|c2: usize| #[trigger] by_cue@.contains_key(c2) implies cue_min(uwv, stv@, c2 as int, i + 1) == Some(by_cue@[c2].0 as int)
                && cue_max(uwv, env@, c2 as int, i + 1) == Some(by_cue@[c2].1 as int) by {
                if c2 != c {
                    assert(uwv[i as int].0 != c2 as int);
                    assert(before.contains_key(c2));
                } else {
                    if before.contains_key(c) {
                        assert(cue_min(uwv, stv@, c as int, i as int) == Some(before[c].0 as int));
                    } else {
                        assert(cue_min(uwv, stv@, c as int, i as int) is None);
                    }
                }
            }
            assert forall|c2: usize| !(#[trigger] by_cue@.contains_key(c2)) implies cue_min(uwv, stv@, c2 as int, i + 1) is None
                && cue_max(uwv, env@, c2 as int, i + 1) is None by {
                assert(c2 != c);
                assert(uwv[i as int].0 != c2 as int);
                assert(!before.contains_key(c2));
            }
        }
        i += 1;
    }
    let mut cues: Vec<Cue> = Vec::new();
    let mut ci: usize = 0;
    while ci < cue_texts.len()
        invariant
            ci <= cue_texts@.len(),
            ts == string_views(cue_texts@),
            uwv == uw_views(uw@),
            forall|c: usize| #[trigger] by_cue@.contains_key(c) ==> cue_min(uwv, stv@, c as int, uw@.len() as int) == Some(by_cue@[c].0 as int)
                && cue_max(uwv, env@, c as int, uw@.len() as int) == Some(by_cue@[c].1 as int),
            forall|c: usize| !(#[trigger] by_cue@.contains_key(c)) ==> cue_min(uwv, stv@, c as int, uw@.len() as int) is None
                && cue_max(uwv, env@, c as int, uw@.len() as int) is None,
            cue_views(cues@) == raw_cues(ts.take(ci as int), uwv, stv@, env@, span0 as int),
        decreases cue_texts.len() - ci,
    {
        let found = by_cue.get(&ci);
        let mn: Option<i64> = match found {
            Some(p) => Some(p.0),
            None => None,
        };
        let mx: Option<i64> = match found {
            Some(p) => Some(p.1),
            None => None,
        };
        assert(cue_min(uwv, stv@, ci as int, uw@.len() as int) == match mn {
            Some(m) => Some(m as int),
            None => None,
        });
        assert(cue_max(uwv, env@, ci as int, uw@.len() as int) == match mx {
            Some(m) => Some(m as int),
            None => None,
        });
        proof {
            assert(ts.take(ci + 1).drop_last() =~= ts.take(ci as int));
            assert(ts.take(ci + 1).len() - 1 == ci);
            assert(ts.take(ci + 1)[ci as int] == cue_texts@[ci as int]@);
        }
        let ghost before = cue_views(cues@);
        let text = cue_texts[ci].clone();
        match (mn, mx) {
            (Some(a), Some(b)) => {
                cues.push(Cue { start: a, end: b, text });
                assert(cue_views(cues@) =~= before.push((a as int, b as int, ts[ci as int])));
            },
            _ => {
                let anchor = if cues.len() > 0 {
                    cues[cues.len() - 1].end
                } else {
                    span0
                };
                proof {
                    if cues@.len() > 0 {
                        assert(before.last() == cues@[cues@.len() - 1]@);
                    }
                }
                cues.push(Cue { start: anchor, end: anchor, text });
                assert(cue_views(cues@) =~= before.push((anchor as int, anchor as int, ts[ci as int])));
            },
        }
        ci += 1;
    }
    assert(ts.take(cue_texts@.len() as int) =~= ts);
    cues
}

fn clamp_exec(cs: &Vec<Cue>) -> (r: Vec<Cue>)
    ensures
        cue_views(r@) == clamp_cues(cue_views(cs@)),
{
    let ghost cv = cue_views(cs@);
    let mut r: Vec<Cue> = Vec::new();
    let mut i: usize = 0;
    while i < cs.len()
        invariant
            i <= cs@.len(),
            cv == cue_views(cs@),
            cue_views(r@) == clamp_cues(cv).take(i as int),
        decreases cs.len() - i,
    {
        let c = &cs[i];
        let e1 = if c.end < c.start {
            c.start
        } else {
            c.end
        };
        let e2 = if i + 1 < cs.len() && e1 > cs[i + 1].start {
            cs[i + 1].start
        } else {
            e1
        };
        let ghost before = cue_views(r@);
        let text = c.text.clone();
        r.push(Cue { start: c.start, end: e2, text });
        assert(cv[i as int] == c@);
        if i + 1 < cs.len() {
            assert(cv[i + 1].0 == cs@[i + 1].start as int);
        }
        assert(cue_views(r@) =~= before.push((c.start as int, e2 as int, c.text@)));
        assert(clamp_cues(cv)[i as int] == (c.start as int, e2 as int, c.text@));
        assert(cue_views(r@) =~= clamp_cues(cv).take(i + 1));
        i += 1;
    }
    assert(clamp_cues(cv).take(cs@.len() as int) =~= clamp_cues(cv));
    r
}

// ------------------------------------------------------------------ laws

proof fn lemma_raw_cues_shape(ts: Seq<Seq<char>>, uw: Seq<UserWord>, st: Seq<int>, en: Seq<int>, span0: int)
    ensures
        raw_cues(ts, uw, st, en, span0).len() == ts.len(),
        forall|i: int| 0 <= i < ts.len() ==> (#[trigger] raw_cues(ts, uw, st, en, span0)[i]).2 == ts[i],
    decreases ts.len(),
{
    if ts.len() > 0 {
        let p = ts.drop_last();
        lemma_raw_cues_shape(p, uw, st, en, span0);
        let r = raw_cues(ts, uw, st, en, span0);
        let q = raw_cues(p, uw, st, en, span0);
        assert forall|i: int| 0 <= i < ts.len() implies (#[trigger] r[i]).2 == ts[i] by {
            if i < p.len() {
                assert(r[i] == q[i]);
                assert(p[i] == ts[i]);
            }
        }
    }
}

/// Aligning gives one cue per cue text, carrying that text, and no cue
/// ends after the next one starts.
pub proof fn law_align_shape(ts: Seq<Seq<char>>, ws: Seq<WordView>)
    ensures
        align_spec(ts, ws).len() == ts.len(),
        forall|i: int| 0 <= i < ts.len() ==> (#[trigger] align_spec(ts, ws)[i]).2 == ts[i],
        forall|i: int| 0 <= i < ts.len() - 1 ==> (#[trigger] align_spec(ts, ws)[i]).1 <= align_spec(ts, ws)[i + 1].0,
{
    if ws.len() > 0 {
        let span0 = ws[0].1;
        let span1 = ws.last().2;
        let uw = user_words_of(ts);
        if uw.len() > 0 {
            let wn = ws.map_values(|w: WordView| norm_spec(w.0));
            let un = uw.map_values(|u: UserWord| u.1);
            let bl = matching_blocks_spec(un, wn);
            if 4 * total_size(bl) >= uw.len() {
                let st = interp_spec(assign(bl, ws, uw.len() as int, true), span0, span1);
                let en = interp_spec(assign(bl, ws, uw.len() as int, false), span0, span1);
                lemma_raw_cues_shape(ts, uw, st, en, span0);
            }
        }
    }
}

/// A cue text as splitting makes them: not empty, and within `max`
/// characters unless it is a single word.
pub open spec fn piece_ok(p: Seq<char>, max: int) -> bool {
    p.len() > 0 && (p.len() <= max || crate::text::no_ws(p))
}

/// Pieces that are all acceptable.
pub open spec fn pieces_ok(ps: Seq<Seq<char>>, max: int) -> bool {
    forall|i: int| 0 <= i < ps.len() ==> piece_ok(#[trigger] ps[i], max)
}

proof fn lemma_pieces_ok_concat(a: Seq<Seq<char>>, b: Seq<Seq<char>>, max: int)
    requires
        pieces_ok(a, max),
        pieces_ok(b, max),
    ensures
        pieces_ok(a + b, max),
{
    assert forall|i: int| 0 <= i < (a + b).len() implies piece_ok(#[trigger] (a + b)[i], max) by {
        if i < a.len() {
            assert((a + b)[i] == a[i]);
        } else {
            assert((a + b)[i] == b[i - a.len()]);
        }
    }
}

proof fn lemma_chunk_fold_ok(ws: Seq<Seq<char>>, max: int)
    requires
        forall|i: int| 0 <= i < ws.len() ==> (#[trigger] ws[i]).len() > 0 && crate::text::no_ws(ws[i]),
    ensures
        pieces_ok(chunk_fold(ws, max).0, max),
        chunk_fold(ws, max).1.len() == 0 || piece_ok(chunk_fold(ws, max).1, max),
    decreases ws.len(),
{
    if ws.len() > 0 {
        let p = ws.drop_last();
        assert forall|i: int| 0 <= i < p.len() implies (#[trigger] p[i]).len() > 0 && crate::text::no_ws(p[i]) by {
            assert(p[i] == ws[i]);
        }
        lemma_chunk_fold_ok(p, max);
        let st = chunk_fold(p, max);
        let w = ws.last();
        assert(w == ws[ws.len() - 1]);
        let n = chunk_fold(ws, max);
        assert forall|i: int| 0 <= i < n.0.len() implies piece_ok(#[trigger] n.0[i], max) by {
            if i < st.0.len() {
                assert(n.0[i] == st.0[i]);
            }
        }
    }
}

proof fn lemma_chunks_ok(s: Seq<char>, max: int)
    ensures
        pieces_ok(chunks_spec(s, max), max),
{
    crate::text::lemma_words_no_ws(s);
    lemma_chunk_fold_ok(words(s), max);
    let st = chunk_fold(words(s), max);
    if st.1.len() > 0 {
        assert(pieces_ok(seq![st.1], max));
        lemma_pieces_ok_concat(st.0, seq![st.1], max);
        assert(st.0.push(st.1) =~= st.0 + seq![st.1]);
    }
}

proof fn lemma_sentence_texts_ok(ss: Seq<Seq<char>>, max: int)
    ensures
        pieces_ok(sentence_texts(ss, max), max),
    decreases ss.len(),
{
    if ss.len() > 0 {
        lemma_sentence_texts_ok(ss.drop_last(), max);
        let st = trim(ss.last());
        let add = if st.len() == 0 {
            Seq::<Seq<char>>::empty()
        } else if st.len() <= max {
            seq![st]
        } else {
            chunks_spec(st, max)
        };
        if st.len() > max {
            lemma_chunks_ok(st, max);
        }
        assert(pieces_ok(add, max));
        lemma_pieces_ok_concat(sentence_texts(ss.drop_last(), max), add, max);
    }
}

proof fn lemma_lines_texts_ok(ls: Seq<Seq<char>>, max: int)
    ensures
        pieces_ok(lines_texts(ls, max), max),
    decreases ls.len(),
{
    if ls.len() > 0 {
        lemma_lines_texts_ok(ls.drop_last(), max);
        let t = trim(ls.last());
        if t.len() > max {
            lemma_sentence_texts_ok(sentences(t), max);
        }
        let add = line_texts(ls.last(), max);
        assert(pieces_ok(add, max));
        lemma_pieces_ok_concat(lines_texts(ls.drop_last(), max), add, max);
    }
}

/// Splitting text into cue texts gives texts that are not empty and hold at
/// most `max` characters, unless a text is a single longer word.
pub proof fn law_cue_texts_fit(text: Seq<char>, max: int)
    ensures
        pieces_ok(cue_texts_spec(text, max), max),
{
    lemma_lines_texts_ok(lines(text), max);
}

/// The text that the kept tokens carry: each one's trimmed text, markers
/// and empty tokens left out, run together.
pub open spec fn kept_text(ts: Seq<(Seq<char>, int, int)>) -> Seq<char>
    decreases ts.len(),
{
    if ts.len() == 0 {
        seq![]
    } else {
        let piece = trim(ts.last().0);
        kept_text(ts.drop_last()) + (if piece.len() > 0 && piece[0] != '[' {
            piece
        } else {
            seq![]
        })
    }
}

/// The texts of words, run together.
pub open spec fn words_text(ws: Seq<WordView>) -> Seq<char>
    decreases ws.len(),
{
    if ws.len() == 0 {
        seq![]
    } else {
        words_text(ws.drop_last()) + ws.last().0
    }
}

proof fn lemma_merge_text(ts: Seq<(Seq<char>, int, int)>)
    ensures
        words_text(merge_tokens(ts).0) + merge_tokens(ts).1 == kept_text(ts),
    decreases ts.len(),
{
    if ts.len() == 0 {
        assert(words_text(Seq::<WordView>::empty()) + Seq::<char>::empty() =~= Seq::<char>::empty());
    } else {
        lemma_merge_text(ts.drop_last());
        let st = merge_tokens(ts.drop_last());
        let t = ts.last();
        let piece = trim(t.0);
        if piece.len() > 0 && piece[0] != '[' {
            let starts_word = (t.0.len() > 0 && t.0[0] == ' ') || st.2 is None;
            if starts_word && st.1.len() > 0 {
                let w: WordView = (st.1, st.2->0, st.3);
                assert(st.0.push(w).drop_last() =~= st.0);
                assert(words_text(st.0.push(w)) == words_text(st.0) + st.1);
                assert(words_text(st.0.push(w)) + (Seq::<char>::empty() + piece) =~= words_text(st.0)
                    + st.1 + piece);
            } else {
                assert(words_text(st.0) + (st.1 + piece) =~= words_text(st.0) + st.1 + piece);
            }
        }
    }
}

/// Merging tokens into words loses and adds no text: the words' texts run
/// together are the kept tokens' trimmed texts run together.
pub proof fn law_words_keep_text(ts: Seq<(Seq<char>, int, int)>)
    ensures
        words_text(word_timings_spec(ts)) == kept_text(ts),
{
    lemma_merge_text(ts);
    let st = merge_tokens(ts);
    if st.1.len() > 0 {
        let w: WordView = (st.1, st.2->0, st.3);
        assert(st.0.push(w).drop_last() =~= st.0);
    } else {
        assert(words_text(st.0) + st.1 =~= words_text(st.0));
    }
}

// ------------------------------------------------------------------ splitting keeps the words

proof fn lemma_sentences_words(s: Seq<char>, start: int, i: int)
    requires
        0 <= start <= i <= s.len(),
    ensures
        crate::text::words_of_all(sentences_from(s, start, i)) == words(s.subrange(start, s.len() as int)),
    decreases s.len() - i,
{
    if i >= s.len() {
        if start < s.len() {
            crate::text::lemma_words_of_all_one(s.subrange(start, s.len() as int));
        } else {
            assert(s.subrange(start, s.len() as int) =~= Seq::<char>::empty());
            assert(words(Seq::<char>::empty()) =~= Seq::<Seq<char>>::empty());
            assert(crate::text::words_of_all(Seq::<Seq<char>>::empty()) =~= Seq::<Seq<char>>::empty());
        }
    } else if is_sentence_end(s[i]) && i + 1 < s.len() && is_ws(s[i + 1]) {
        let k = ws_run_end(s, i + 1);
        lemma_ws_run_end_bounds(s, i + 1);
        lemma_sentences_words(s, k, k);
        let piece = s.subrange(start, i + 1);
        let gap = s.subrange(i + 1, k);
        let rest = s.subrange(k, s.len() as int);
        assert(s.subrange(start, s.len() as int) =~= piece + gap + rest);
        assert(crate::text::ws_run(gap)) by {
            lemma_ws_run_end_bounds(s, i + 2);
            assert(k == ws_run_end(s, i + 2));
            assert(gap.len() > 0);
            assert forall|j: int| 0 <= j < gap.len() implies is_ws(#[trigger] gap[j]) by {
                assert(gap[j] == s[i + 1 + j]);
            }
        }
        crate::text::lemma_words_split(piece, gap, rest);
        crate::text::lemma_words_of_all_concat(seq![piece], sentences_from(s, k, k));
        crate::text::lemma_words_of_all_one(piece);
    } else {
        lemma_sentences_words(s, start, i + 1);
    }
}

proof fn lemma_sentences_all_words(t: Seq<char>)
    ensures
        crate::text::words_of_all(sentences(t)) == words(t),
{
    lemma_sentences_words(t, 0, 0);
    assert(t.subrange(0, t.len() as int) =~= t);
    if sentences_from(t, 0, 0).len() == 0 {
        crate::text::lemma_words_of_all_one(Seq::<char>::empty());
        assert(words(Seq::<char>::empty()) =~= Seq::<Seq<char>>::empty());
        assert(crate::text::words_of_all(Seq::<Seq<char>>::empty()) =~= Seq::<Seq<char>>::empty());
    }
}

proof fn lemma_chunk_fold_words(ws: Seq<Seq<char>>, max: int)
    requires
        forall|i: int| 0 <= i < ws.len() ==> (#[trigger] ws[i]).len() > 0 && crate::text::no_ws(ws[i]),
    ensures
        crate::text::words_of_all(chunk_fold(ws, max).0) + words(chunk_fold(ws, max).1) == ws,
    decreases ws.len(),
{
    if ws.len() == 0 {
        assert(words(Seq::<char>::empty()) =~= Seq::<Seq<char>>::empty());
        assert(crate::text::words_of_all(Seq::<Seq<char>>::empty()) =~= Seq::<Seq<char>>::empty());
        assert(Seq::<Seq<char>>::empty() + Seq::<Seq<char>>::empty() =~= ws);
    } else {
        let p = ws.drop_last();
        assert forall|i: int| 0 <= i < p.len() implies (#[trigger] p[i]).len() > 0 && crate::text::no_ws(p[i]) by {
            assert(p[i] == ws[i]);
        }
        lemma_chunk_fold_words(p, max);
        let st = chunk_fold(p, max);
        let w = ws.last();
        assert(w == ws[ws.len() - 1]);
        crate::text::lemma_words_single(w);
        assert(words(Seq::<char>::empty()) =~= Seq::<Seq<char>>::empty());
        if st.1.len() > 0 && st.1.len() + 1 + w.len() > max {
            assert(st.0.push(st.1).drop_last() =~= st.0);
            assert(crate::text::words_of_all(st.0.push(st.1)) == crate::text::words_of_all(st.0) + words(st.1));
            assert(crate::text::words_of_all(st.0.push(st.1)) + words(w) =~= p.push(w));
        } else if st.1.len() == 0 {
            assert(crate::text::words_of_all(st.0) + words(w) =~= p.push(w));
        } else {
            assert(crate::text::ws_run(seq![' ']));
            crate::text::lemma_words_split(st.1, seq![' '], w);
            assert(crate::text::words_of_all(st.0) + words(st.1 + seq![' '] + w) =~= p.push(w));
        }
        assert(ws =~= p.push(w));
    }
}

proof fn lemma_chunks_words(s: Seq<char>, max: int)
    ensures
        crate::text::words_of_all(chunks_spec(s, max)) == words(s),
{
    crate::text::lemma_words_no_ws(s);
    lemma_chunk_fold_words(words(s), max);
    let st = chunk_fold(words(s), max);
    if st.1.len() > 0 {
        assert(st.0.push(st.1).drop_last() =~= st.0);
    } else {
        assert(words(st.1) =~= Seq::<Seq<char>>::empty()) by {
            assert(st.1 =~= Seq::<char>::empty());
        }
        assert(crate::text::words_of_all(st.0) + words(st.1) =~= crate::text::words_of_all(st.0));
    }
}

proof fn lemma_sentence_texts_words(ss: Seq<Seq<char>>, max: int)
    ensures
        crate::text::words_of_all(sentence_texts(ss, max)) == crate::text::words_of_all(ss),
    decreases ss.len(),
{
    if ss.len() > 0 {
        lemma_sentence_texts_words(ss.drop_last(), max);
        let st = trim(ss.last());
        crate::text::lemma_words_trim(ss.last());
        let add = if st.len() == 0 {
            Seq::<Seq<char>>::empty()
        } else if st.len() <= max {
            seq![st]
        } else {
            chunks_spec(st, max)
        };
        if st.len() == 0 {
            assert(words(st) =~= Seq::<Seq<char>>::empty()) by {
                assert(st =~= Seq::<char>::empty());
            }
            assert(crate::text::words_of_all(add) =~= Seq::<Seq<char>>::empty());
        } else if st.len() <= max {
            crate::text::lemma_words_of_all_one(st);
        } else {
            lemma_chunks_words(st, max);
        }
        crate::text::lemma_words_of_all_concat(sentence_texts(ss.drop_last(), max), add);
    }
}

proof fn lemma_lines_texts_words(ls: Seq<Seq<char>>, max: int)
    ensures
        crate::text::words_of_all(lines_texts(ls, max)) == crate::text::words_of_all(ls),
    decreases ls.len(),
{
    if ls.len() > 0 {
        lemma_lines_texts_words(ls.drop_last(), max);
        let line = ls.last();
        let t = trim(line);
        crate::text::lemma_words_trim(line);
        let add = line_texts(line, max);
        if t.len() == 0 {
            assert(words(t) =~= Seq::<Seq<char>>::empty()) by {
                assert(t =~= Seq::<char>::empty());
            }
            assert(crate::text::words_of_all(add) =~= Seq::<Seq<char>>::empty());
        } else if t.len() <= max {
            crate::text::lemma_words_of_all_one(t);
        } else {
            lemma_sentence_texts_words(sentences(t), max);
            lemma_sentences_all_words(t);
        }
        crate::text::lemma_words_of_all_concat(lines_texts(ls.drop_last(), max), add);
    }
}

/// Splitting text into cue texts keeps every word, in order: the cue texts
/// joined with spaces have the words of the text.
pub proof fn law_cue_texts_keep_words(text: Seq<char>, max: int)
    ensures
        words(join(cue_texts_spec(text, max), seq![' '])) == words(text),
{
    assert(crate::text::ws_run(seq![' ']));
    crate::text::lemma_words_join(cue_texts_spec(text, max), seq![' ']);
    lemma_lines_texts_words(lines(text), max);
    crate::text::lemma_words_lines(text);
}

} // verus!
