//! What is read back from the speech recogniser: its progress lines, and
//! the correction rules applied to the subtitle file it writes.
use vstd::prelude::*;
use crate::corrections::{apply_corrections, corrected, load_corrections, pair_views, rules_of};
use crate::num::{is_digit, parse_int};
use crate::srt::ws_run_end;
use crate::text::{is_whitespace, lines, occurs_at, occurs_at_exec, slice_chars, to_chars};

verus! {

/// One past the end of the run of ASCII digits in `s` that starts at `i`.
pub open spec fn digit_run_end(s: Seq<char>, i: int) -> int
    decreases s.len() - i,
{
    if 0 <= i < s.len() && is_digit(s[i]) {
        digit_run_end(s, i + 1)
    } else {
        i
    }
}

/// The digits of a progress report at `i`: `progress`, spaces, `=`, spaces,
/// digits, `%`.
pub open spec fn progress_at(s: Seq<char>, i: int) -> Option<Seq<char>> {
    if occurs_at(s, "progress"@, i) {
        let a = ws_run_end(s, i + 8);
        if a < s.len() && s[a] == '=' {
            let b = ws_run_end(s, a + 1);
            let c = digit_run_end(s, b);
            if b < c && c < s.len() && s[c] == '%' {
                Some(s.subrange(b, c))
            } else {
                None
            }
        } else {
            None
        }
    } else {
        None
    }
}

/// The digits of the first progress report in `s` at `i` or later.
pub open spec fn progress_from(s: Seq<char>, i: int) -> Option<Seq<char>>
    decreases s.len() - i,
{
    if i < 0 || i >= s.len() {
        None
    } else {
        match progress_at(s, i) {
            Some(d) => Some(d),
            None => progress_from(s, i + 1),
        }
    }
}

/// The percentage a recogniser line reports: the number of its first
/// `progress = N%`, when it fits in `i64`.
pub open spec fn progress_spec(line: Seq<char>) -> Option<int> {
    match progress_from(line, 0) {
        Some(d) => parse_int(d),
        None => None,
    }
}

fn ws_end(v: &[char], i: usize) -> (r: usize)
    requires
        i <= v@.len(),
    ensures
        r == ws_run_end(v@, i as int),
        i <= r <= v@.len(),
    decreases v.len() - i,
{
    if i < v.len() && is_whitespace(v[i]) {
        ws_end(v, i + 1)
    } else {
        i
    }
}

fn digit_end(v: &[char], i: usize) -> (r: usize)
    requires
        i <= v@.len(),
    ensures
        r == digit_run_end(v@, i as int),
        i <= r <= v@.len(),
    decreases v.len() - i,
{
    if i < v.len() && (v[i] as u32) >= 48 && (v[i] as u32) <= 57 {
        digit_end(v, i + 1)
    } else {
        i
    }
}

proof fn lemma_digit_run(s: Seq<char>, b: int, c: int)
    requires
        0 <= b <= s.len(),
        c == digit_run_end(s, b),
    ensures
        b <= c <= s.len(),
        crate::num::all_digits(s.subrange(b, c)),
    decreases s.len() - b,
{
    if b < s.len() && is_digit(s[b]) {
        lemma_digit_run(s, b + 1, c);
        assert forall|k: int| 0 <= k < s.subrange(b, c).len() implies is_digit(#[trigger] s.subrange(b, c)[k]) by {
            if k > 0 {
                assert(s.subrange(b, c)[k] == s.subrange(b + 1, c)[k - 1]);
            }
        }
    }
}

fn progress_at_exec(v: &[char], p: &[char], i: usize) -> (r: Option<Vec<char>>)
    requires
        i <= v@.len(),
        p@ == "progress"@,
    ensures
        match r {
            Some(d) => progress_at(v@, i as int) == Some(d@),
            None => progress_at(v@, i as int) is None,
        },
{
    proof {
        reveal_strlit("progress");
    }
    if !occurs_at_exec(v, p, i) {
        return None;
    }
    let n = v.len();
    assert(p@.len() == 8);
    assert(i + 8 <= n);
    let a = ws_end(v, i + 8);
    if a >= v.len() || v[a] != '=' {
        return None;
    }
    let b = ws_end(v, a + 1);
    let c = digit_end(v, b);
    if b < c && c < v.len() && v[c] == '%' {
        Some(slice_chars(v, b, c))
    } else {
        None
    }
}

/// Reads a recogniser progress line, see [`progress_spec`].
pub fn progress_percent(line: &str) -> (r: Option<i64>)
    ensures
        match r {
            Some(x) => progress_spec(line@) == Some(x as int),
            None => progress_spec(line@) is None,
        },
{
    let v = to_chars(line);
    let p = to_chars("progress");
    let mut i: usize = 0;
    while i < v.len()
        invariant
            i <= v@.len(),
            v@ == line@,
            p@ == "progress"@,
            progress_from(v@, 0) == progress_from(v@, i as int),
        decreases v.len() - i,
    {
        match progress_at_exec(v.as_slice(), p.as_slice(), i) {
            Some(d) => {
                return crate::num::parse_i64(d.as_slice());
            },
            None => {},
        }
        i += 1;
    }
    None
}

/// The subtitle text after the rules file `rules_text`: nothing to do when
/// it holds no rules, else the corrected text; an error when a rule's
/// pattern cannot be compiled.
pub fn corrections_for(rules_text: &str, srt: &str) -> (r: Result<Option<String>, String>)
    ensures
        ({
            let rules = rules_of(lines(rules_text@));
            &&& rules.len() == 0 ==> r == Ok::<Option<String>, String>(None)
            &&& rules.len() > 0 ==> match corrected(crate::corrections::composed(srt@), rules) {
                Some(t) => (r is Ok && r->Ok_0 is Some && r->Ok_0->Some_0@ == t),
                None => r is Err,
            }
        }),
{
    let pairs = load_corrections(rules_text);
    if pairs.len() == 0 {
        return Ok(None);
    }
    assert(pair_views(pairs@).len() > 0);
    match apply_corrections(srt, pairs.as_slice()) {
        Some(t) => Ok(Some(t)),
        None => Err("quy tắc sửa từ không dùng được".to_owned()),
    }
}

/// The base path the recogniser writes to for the output file `out`: `out`
/// without its extension (the recogniser adds its own).
pub fn output_base(out: &str) -> (r: String)
    ensures
        r@ == crate::pipeline::with_extension_of(out@, ""@),
{
    proof {
        reveal_strlit("");
    }
    crate::pipeline::with_ext(out, "")
}

/// The word-timing file the recogniser writes for the base path `base`.
pub fn json_output(base: &str) -> (r: String)
    ensures
        r@ == crate::pipeline::with_extension_of(base@, "json"@),
{
    proof {
        reveal_strlit("json");
    }
    crate::pipeline::with_ext(base, "json")
}

} // verus!
