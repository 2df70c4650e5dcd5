//! Correction rules for recognised text: a rules file of `wrong => right`
//! lines, and their application to a subtitle file, matching case-blind and
//! keeping a capital first letter.
use vstd::prelude::*;
use crate::ass::char_at_byte;
use crate::text::{
    contains_seq, find_seq, find_seq_exec, from_chars, is_boundary, lemma_find_seq_props, lines,
    lines_of, push_all, push_str, slice_chars, to_chars, trim, trim_chars, views,
};
use crate::unicode::{
    ascii_upper, char_is_uppercase, char_to_ascii_uppercase, char_to_uppercase, char_uppercase_of, is_upper,
    nfc, nfc_of,
};
use vstd::utf8::is_ascii_chars;

verus! {

// ------------------------------------------------------------------ the rules file

/// The rule a line of the rules file holds, if any: the line trimmed, not
/// empty, not a `#` comment, and holding `=>`; the trimmed text before the
/// first `=>` (not empty) and the trimmed text after it.
pub open spec fn rule_of(line: Seq<char>) -> Option<(Seq<char>, Seq<char>)> {
    let t = trim(line);
    if t.len() == 0 || t[0] == '#' || !contains_seq(t, "=>"@) {
        None
    } else {
        let k = find_seq(t, "=>"@);
        let wrong = trim(t.take(k));
        let right = trim(t.skip(k + 2));
        if wrong.len() == 0 {
            None
        } else {
            Some((wrong, right))
        }
    }
}

/// The rules of the given lines, in order.
pub open spec fn rules_of(ls: Seq<Seq<char>>) -> Seq<(Seq<char>, Seq<char>)>
    decreases ls.len(),
{
    if ls.len() == 0 {
        seq![]
    } else {
        let prev = rules_of(ls.drop_last());
        match rule_of(ls.last()) {
            Some(p) => prev.push(p),
            None => prev,
        }
    }
}

/// The characters of each pair of strings.
pub open spec fn pair_views(ps: Seq<(String, String)>) -> Seq<(Seq<char>, Seq<char>)> {
    ps.map_values(|p: (String, String)| (p.0@, p.1@))
}

fn rule_of_exec(line: &[char]) -> (r: Option<(String, String)>)
    ensures
        match r {
            Some(p) => rule_of(line@) == Some((p.0@, p.1@)),
            None => rule_of(line@) is None,
        },
{
    let t = trim_chars(line);
    let arrow: Vec<char> = vec!['=', '>'];
    assert(arrow@ =~= "=>"@) by {
        reveal_strlit("=>");
    }
    if t.len() == 0 || t[0] == '#' {
        return None;
    }
    let k = find_seq_exec(t.as_slice(), arrow.as_slice(), 0);
    proof {
        assert(t@.subrange(0, t@.len() as int) =~= t@);
        lemma_find_seq_props(t@, arrow@);
    }
    if k == t.len() {
        assert(!crate::text::occurs_at(t@, arrow@, t@.len() as int));
        return None;
    }
    proof {
        assert(crate::text::occurs_at(t@, arrow@, k as int));
    }
    let before = slice_chars(t.as_slice(), 0, k);
    let after = slice_chars(t.as_slice(), k + 2, t.len());
    assert(before@ =~= t@.take(k as int));
    assert(after@ =~= t@.skip(k + 2));
    let wrong = trim_chars(before.as_slice());
    let right = trim_chars(after.as_slice());
    if wrong.len() == 0 {
        None
    } else {
        Some((from_chars(wrong.as_slice()), from_chars(right.as_slice())))
    }
}

/// The rules in a rules file: one `wrong => right` per line, `#` lines and
/// lines without `=>` skipped, see [`rule_of`].
pub fn load_corrections(text: &str) -> (r: Vec<(String, String)>)
    ensures
        pair_views(r@) == rules_of(lines(text@)),
{
    let v = to_chars(text);
    let ls = lines_of(v.as_slice());
    let mut r: Vec<(String, String)> = Vec::new();
    let mut i: usize = 0;
    while i < ls.len()
        invariant
            i <= ls@.len(),
            views(ls@) == lines(v@),
            pair_views(r@) == rules_of(views(ls@).take(i as int)),
        decreases ls.len() - i,
    {
        assert(views(ls@).take(i + 1).drop_last() =~= views(ls@).take(i as int));
        assert(views(ls@).take(i + 1).last() == ls@[i as int]@);
        let ghost before = pair_views(r@);
        match rule_of_exec(ls[i].as_slice()) {
            Some(p) => {
                r.push(p);
                assert(pair_views(r@) =~= before.push((p.0@, p.1@)));
            },
            None => {},
        }
        i += 1;
    }
    assert(views(ls@).take(ls@.len() as int) =~= views(ls@));
    r
}

// ------------------------------------------------------------------ matching

/// Whether `c` means something in a regular expression and is escaped by
/// `regex::escape`.
pub open spec fn is_meta(c: char) -> bool {
    c == '\\' || c == '.' || c == '+' || c == '*' || c == '?' || c == '(' || c == ')' || c == '|'
        || c == '[' || c == ']' || c == '{' || c == '}' || c == '^' || c == '$' || c == '#'
        || c == '&' || c == '-' || c == '~'
}

/// `s` with a backslash before each meta character, as `regex::escape`.
pub open spec fn escape_spec(s: Seq<char>) -> Seq<char>
    decreases s.len(),
{
    if s.len() == 0 {
        seq![]
    } else {
        escape_spec(s.drop_last()) + (if is_meta(s.last()) {
            seq!['\\', s.last()]
        } else {
            seq![s.last()]
        })
    }
}

/// Calls `regex::escape`, which puts a backslash before each character of
/// `is_meta` and copies the others.
#[verifier::external_body]
fn regex_escape(s: &str) -> (r: String)
    ensures
        r@ == escape_spec(s@),
{
    regex::escape(s)
}

/// The byte spans of `regex::Regex::find_iter` for the pattern `pattern` on
/// `hay`, or `None` when `regex::Regex::new` refuses the pattern.
pub uninterp spec fn regex_spans(pattern: Seq<char>, hay: Seq<char>) -> Option<Seq<(int, int)>>;

/// Byte spans as integers.
pub open spec fn int_spans(v: Seq<(usize, usize)>) -> Seq<(int, int)> {
    v.map_values(|p: (usize, usize)| (p.0 as int, p.1 as int))
}

/// Byte spans that fit `s`: each from a character boundary to a later or
/// equal one, in order and not overlapping, within what a `str` can hold.
pub open spec fn spans_ok(s: Seq<char>, sp: Seq<(int, int)>) -> bool {
    &&& forall|i: int|
        0 <= i < sp.len() ==> #[trigger] sp[i].0 <= sp[i].1 && sp[i].1 <= isize::MAX
            && is_boundary(s, sp[i].0) && is_boundary(s, sp[i].1)
    &&& forall|i: int, j: int| 0 <= i < j < sp.len() ==> #[trigger] sp[i].1 <= #[trigger] sp[j].0
}

/// Compiles `pattern` with `regex::Regex::new` and collects the spans of
/// `find_iter` on `hay`. The spans are named [`regex_spans`]; as the crate
/// documents, they are successive non-overlapping matches, each a byte range
/// of `hay` that `str` slicing accepts.
#[verifier::external_body]
fn regex_find_all(pattern: &str, hay: &str) -> (r: Option<Vec<(usize, usize)>>)
    ensures
        match r {
            Some(v) => regex_spans(pattern@, hay@) == Some(int_spans(v@)) && spans_ok(hay@, int_spans(v@)),
            None => regex_spans(pattern@, hay@) is None,
        },
{
    match regex::Regex::new(pattern) {
        Ok(re) => Some(re.find_iter(hay).map(|m| (m.start(), m.end())).collect()),
        Err(_) => None,
    }
}

// ------------------------------------------------------------------ replacing

/// What replaces a match `m`: `right`, with its first character upper-cased
/// when `m` starts with a capital.
pub open spec fn replacement(m: Seq<char>, right: Seq<char>) -> Seq<char> {
    if m.len() > 0 && is_upper(m[0]) && right.len() > 0 {
        upper_first(right[0]) + right.drop_first()
    } else {
        right
    }
}

/// The upper case of `c` as `char::to_uppercase` yields it; for an ASCII
/// character that is its ASCII upper case.
pub open spec fn upper_first(c: char) -> Seq<char> {
    if (c as u32) < 128 {
        seq![ascii_upper(c)]
    } else {
        char_uppercase_of(c)
    }
}

/// The character index where span `k` ends, 0 before the first span.
pub open spec fn end_before(s: Seq<char>, sp: Seq<(int, int)>, k: int) -> int {
    if k <= 0 {
        0
    } else {
        char_at_byte(s, sp[k - 1].1)
    }
}

/// The text of `s` up to the end of span `k`, the first `k` spans replaced.
pub open spec fn replaced_upto(s: Seq<char>, sp: Seq<(int, int)>, right: Seq<char>, k: int) -> Seq<char>
    decreases k,
{
    if k <= 0 {
        seq![]
    } else {
        let a = char_at_byte(s, sp[k - 1].0);
        let b = char_at_byte(s, sp[k - 1].1);
        replaced_upto(s, sp, right, k - 1) + s.subrange(end_before(s, sp, k - 1), a) + replacement(
            s.subrange(a, b),
            right,
        )
    }
}

/// `s` with each of the byte spans `sp` replaced, as `Regex::replace_all`
/// replaces matches.
pub open spec fn replace_spans(s: Seq<char>, sp: Seq<(int, int)>, right: Seq<char>) -> Seq<char> {
    replaced_upto(s, sp, right, sp.len() as int) + s.skip(end_before(s, sp, sp.len() as int))
}

fn replacement_exec(m: &[char], right: &[char]) -> (r: Vec<char>)
    ensures
        r@ == replacement(m@, right@),
{
    if m.len() > 0 && right.len() > 0 && char_is_uppercase(m[0]) {
        let mut r: Vec<char> = Vec::new();
        let c = right[0];
        if (c as u32) < 128 {
            r.push(char_to_ascii_uppercase(c));
        } else {
            let up = char_to_uppercase(c);
            push_str(&mut r, up.as_str());
        }
        let rest = slice_chars(right, 1, right.len());
        push_all(&mut r, rest.as_slice());
        assert(r@ =~= replacement(m@, right@));
        r
    } else {
        slice_chars(right, 0, right.len())
    }
}

proof fn lemma_char_at_byte(s: Seq<char>, i: int)
    requires
        0 <= i <= s.len(),
    ensures
        char_at_byte(s, crate::text::byte_len(s.take(i)) as int) == i,
{
    let k = crate::text::byte_len(s.take(i)) as int;
    let j = char_at_byte(s, k);
    assert(0 <= j <= s.len() && crate::text::byte_len(s.take(j)) == k);
    crate::ass::lemma_byte_index_unique(s, i, j);
}

/// `text` with the byte spans `spans` replaced by `right` (its first letter
/// upper-cased where the replaced text starts with a capital), see
/// [`replace_spans`]; `None` when the spans do not fit the text.
pub fn replace_byte_spans(text: &[char], spans: &[(usize, usize)], right: &[char]) -> (r: Option<Vec<char>>)
    ensures
        match r {
            Some(v) => spans_ok(text@, int_spans(spans@)) && v@ == replace_spans(text@, int_spans(spans@), right@),
            None => !spans_ok(text@, int_spans(spans@)),
        },
{
    let ghost sp = int_spans(spans@);
    let mut out: Vec<char> = Vec::new();
    let mut last: usize = 0;
    let mut last_byte: usize = 0;
    let mut i: usize = 0;
    assert(text@.take(0) =~= Seq::<char>::empty());
    while i < spans.len()
        invariant
            i <= spans@.len(),
            sp == int_spans(spans@),
            last <= text@.len(),
            last == end_before(text@, sp, i as int),
            last_byte == crate::text::byte_len(text@.take(last as int)),
            i > 0 ==> last_byte == sp[i - 1].1,
            forall|k: int|
                0 <= k < i ==> #[trigger] sp[k].0 <= sp[k].1 && sp[k].1 <= isize::MAX && is_boundary(
                    text@,
                    sp[k].0,
                ) && is_boundary(text@, sp[k].1),
            forall|k: int, j: int| 0 <= k < j < i ==> #[trigger] sp[k].1 <= #[trigger] sp[j].0,
            out@ == replaced_upto(text@, sp, right@, i as int),
        decreases spans.len() - i,
    {
        let (a_b, b_b) = spans[i];
        assert(sp[i as int] == (a_b as int, b_b as int));
        if a_b > b_b || b_b > (isize::MAX as usize) || a_b < last_byte {
            proof {
                if i > 0 {
                    assert(sp[i - 1].1 <= sp[i as int].0 ==> a_b >= last_byte);
                }
            }
            return None;
        }
        let oa = crate::text::char_index_of_byte(text, a_b);
        let ob = crate::text::char_index_of_byte(text, b_b);
        match (oa, ob) {
            (Some(a), Some(b)) => {
                proof {
                    lemma_char_at_byte(text@, a as int);
                    lemma_char_at_byte(text@, b as int);
                    lemma_char_at_byte(text@, last as int);
                    if a < last {
                        crate::text::lemma_byte_len_mono(text@, a as int, last as int);
                    }
                    if b < a {
                        crate::text::lemma_byte_len_mono(text@, b as int, a as int);
                    }
                    assert forall|k: int, j: int| 0 <= k < j < i + 1 implies #[trigger] sp[k].1 <= #[trigger] sp[j].0 by {
                        if j == i && k < i - 1 {
                            assert(sp[k].1 <= sp[i - 1].0);
                        }
                    }
                }
                let gap = slice_chars(text, last, a);
                let m = slice_chars(text, a, b);
                let rep = replacement_exec(m.as_slice(), right);
                push_all(&mut out, gap.as_slice());
                push_all(&mut out, rep.as_slice());
                last = b;
                last_byte = b_b;
            },
            _ => {
                return None;
            },
        }
        i += 1;
    }
    let tail = slice_chars(text, last, text.len());
    push_all(&mut out, tail.as_slice());
    Some(out)
}

// ------------------------------------------------------------------ applying

/// `s` composed (NFC) as `UnicodeNormalization::nfc` composes it; ASCII
/// text is already composed and is taken as it is.
pub open spec fn composed(s: Seq<char>) -> Seq<char> {
    if is_ascii_chars(s) {
        s
    } else {
        nfc_of(s)
    }
}

/// Composes `s`, see [`composed`].
fn compose(s: &str) -> (r: String)
    ensures
        r@ == composed(s@),
{
    if s.is_ascii() {
        let v = to_chars(s);
        from_chars(v.as_slice())
    } else {
        nfc(s)
    }
}

/// The pattern that finds `wrong` whatever its case: `(?i)` and the
/// escaped text.
pub open spec fn pattern_of(wrong: Seq<char>) -> Seq<char> {
    "(?i)"@ + escape_spec(wrong)
}

/// `text` after one rule: every case-blind match of the rule's wrong text
/// (composed, NFC) replaced by its right text (composed); `None` when the
/// pattern cannot be compiled.
pub open spec fn corrected_once(text: Seq<char>, rule: (Seq<char>, Seq<char>)) -> Option<Seq<char>> {
    match regex_spans(pattern_of(composed(rule.0)), text) {
        Some(sp) => if spans_ok(text, sp) {
            Some(replace_spans(text, sp, composed(rule.1)))
        } else {
            None
        },
        None => None,
    }
}

/// `text` after the rules, applied in order.
pub open spec fn corrected(text: Seq<char>, rules: Seq<(Seq<char>, Seq<char>)>) -> Option<Seq<char>>
    decreases rules.len(),
{
    if rules.len() == 0 {
        Some(text)
    } else {
        match corrected(text, rules.drop_last()) {
            Some(t) => corrected_once(t, rules.last()),
            None => None,
        }
    }
}

fn apply_one(text: &str, wrong: &str, right: &str) -> (r: Option<String>)
    ensures
        match r {
            Some(t) => corrected_once(text@, (wrong@, right@)) == Some(t@),
            None => corrected_once(text@, (wrong@, right@)) is None,
        },
{
    let w = compose(wrong);
    let rt = compose(right);
    let esc = regex_escape(w.as_str());
    let mut pat: Vec<char> = Vec::new();
    push_str(&mut pat, "(?i)");
    push_str(&mut pat, esc.as_str());
    let ps = from_chars(pat.as_slice());
    assert(ps@ =~= pattern_of(composed(wrong@)));
    match regex_find_all(ps.as_str(), text) {
        Some(spans) => {
            let tv = to_chars(text);
            let rv = to_chars(rt.as_str());
            match replace_byte_spans(tv.as_slice(), spans.as_slice(), rv.as_slice()) {
                Some(out) => Some(from_chars(out.as_slice())),
                None => None,
            }
        },
        None => None,
    }
}

/// The subtitle text (composed, NFC) with the rules applied in order, see
/// [`corrected`]; `None` when a rule's pattern cannot be compiled.
pub fn apply_corrections(srt: &str, pairs: &[(String, String)]) -> (r: Option<String>)
    ensures
        match r {
            Some(t) => corrected(composed(srt@), pair_views(pairs@)) == Some(t@),
            None => corrected(composed(srt@), pair_views(pairs@)) is None,
        },
{
    let mut text = compose(srt);
    let mut i: usize = 0;
    while i < pairs.len()
        invariant
            i <= pairs@.len(),
            corrected(composed(srt@), pair_views(pairs@).take(i as int)) == Some(text@),
        decreases pairs.len() - i,
    {
        assert(pair_views(pairs@).take(i + 1).drop_last() =~= pair_views(pairs@).take(i as int));
        assert(pair_views(pairs@).take(i + 1).last() == (pairs@[i as int].0@, pairs@[i as int].1@));
        match apply_one(text.as_str(), pairs[i].0.as_str(), pairs[i].1.as_str()) {
            Some(t) => {
                text = t;
            },
            None => {
                proof {
                    lemma_corrected_none(composed(srt@), pair_views(pairs@), i + 1);
                }
                return None;
            },
        }
        i += 1;
    }
    assert(pair_views(pairs@).take(pairs@.len() as int) =~= pair_views(pairs@));
    Some(text)
}

proof fn lemma_corrected_none(text: Seq<char>, rules: Seq<(Seq<char>, Seq<char>)>, k: int)
    requires
        0 <= k <= rules.len(),
        corrected(text, rules.take(k)) is None,
    ensures
        corrected(text, rules) is None,
    decreases rules.len() - k,
{
    if k < rules.len() {
        assert(rules.take(k + 1).drop_last() =~= rules.take(k));
        lemma_corrected_none(text, rules, k + 1);
    } else {
        assert(rules.take(k) =~= rules);
    }
}

// ------------------------------------------------------------------ laws

/// Rules apply one after another: applying `r1` followed by `r2` is applying
/// `r1` and then `r2` to what came out (and fails where either fails).
pub proof fn law_rules_compose(
    text: Seq<char>,
    r1: Seq<(Seq<char>, Seq<char>)>,
    r2: Seq<(Seq<char>, Seq<char>)>,
)
    ensures
        corrected(text, r1 + r2) == match corrected(text, r1) {
            Some(u) => corrected(u, r2),
            None => None,
        },
    decreases r2.len(),
{
    if r2.len() == 0 {
        assert(r1 + r2 =~= r1);
    } else {
        assert((r1 + r2).drop_last() =~= r1 + r2.drop_last());
        assert((r1 + r2).last() == r2.last());
        law_rules_compose(text, r1, r2.drop_last());
    }
}

/// Every rule read from a rules file has a non-empty wrong text, and both
/// of its texts are trimmed.
pub proof fn law_rules_trimmed(text: Seq<char>)
    ensures
        forall|i: int|
            0 <= i < rules_of(lines(text)).len() ==> {
                let r = #[trigger] rules_of(lines(text))[i];
                &&& r.0.len() > 0
                &&& trim(r.0) == r.0
                &&& trim(r.1) == r.1
            },
{
    lemma_rules_trimmed(lines(text));
}

proof fn lemma_rules_trimmed(ls: Seq<Seq<char>>)
    ensures
        forall|i: int|
            0 <= i < rules_of(ls).len() ==> {
                let r = #[trigger] rules_of(ls)[i];
                &&& r.0.len() > 0
                &&& trim(r.0) == r.0
                &&& trim(r.1) == r.1
            },
    decreases ls.len(),
{
    if ls.len() > 0 {
        lemma_rules_trimmed(ls.drop_last());
        let prev = rules_of(ls.drop_last());
        match rule_of(ls.last()) {
            Some(p) => {
                let t = trim(ls.last());
                let k = find_seq(t, "=>"@);
                crate::text::lemma_trim_idempotent(t.take(k));
                crate::text::lemma_trim_idempotent(t.skip(k + 2));
                assert forall|i: int| 0 <= i < rules_of(ls).len() implies {
                    let r = #[trigger] rules_of(ls)[i];
                    &&& r.0.len() > 0
                    &&& trim(r.0) == r.0
                    &&& trim(r.1) == r.1
                } by {
                    if i < prev.len() {
                        assert(rules_of(ls)[i] == prev[i]);
                    }
                }
            },
            None => {},
        }
    }
}

/// A rules file of comments and blank lines holds no rules.
pub proof fn law_comments_give_no_rules(text: Seq<char>)
    requires
        forall|i: int|
            0 <= i < lines(text).len() ==> trim(#[trigger] lines(text)[i]).len() == 0
                || trim(lines(text)[i])[0] == '#',
    ensures
        rules_of(lines(text)).len() == 0,
{
    lemma_no_rules(lines(text));
}

proof fn lemma_no_rules(ls: Seq<Seq<char>>)
    requires
        forall|i: int| 0 <= i < ls.len() ==> trim(#[trigger] ls[i]).len() == 0 || trim(ls[i])[0] == '#',
    ensures
        rules_of(ls).len() == 0,
    decreases ls.len(),
{
    if ls.len() > 0 {
        let p = ls.drop_last();
        assert forall|i: int| 0 <= i < p.len() implies trim(#[trigger] p[i]).len() == 0 || trim(p[i])[0] == '#' by {
            assert(p[i] == ls[i]);
        }
        lemma_no_rules(p);
        assert(ls.last() == ls[ls.len() - 1]);
    }
}

/// A rule whose wrong text matches nowhere leaves the text as it is.
pub proof fn law_no_match_no_change(s: Seq<char>, right: Seq<char>)
    ensures
        replace_spans(s, seq![], right) == s,
{
    assert(s.skip(0) =~= s);
    assert(seq![] + s =~= s);
}

/// With no rules, the subtitle text is only composed (NFC), see [`composed`].
pub proof fn law_no_rules(text: Seq<char>)
    ensures
        corrected(text, seq![]) == Some(text),
{
}

/// Every text of the rules is ASCII.
pub open spec fn rules_ascii(rs: Seq<(Seq<char>, Seq<char>)>) -> bool {
    forall|i: int| 0 <= i < rs.len() ==> is_ascii_chars(#[trigger] rs[i].0) && is_ascii_chars(rs[i].1)
}

proof fn lemma_ascii_concat(a: Seq<char>, b: Seq<char>)
    requires
        is_ascii_chars(a),
        is_ascii_chars(b),
    ensures
        is_ascii_chars(a + b),
{
    assert forall|i: int| 0 <= i < (a + b).len() implies '\0' <= #[trigger] (a + b)[i] <= '\u{7f}' by {
        if i < a.len() {
            assert((a + b)[i] == a[i]);
        } else {
            assert((a + b)[i] == b[i - a.len()]);
        }
    }
}

proof fn lemma_ascii_subrange(s: Seq<char>, x: int, y: int)
    requires
        is_ascii_chars(s),
        0 <= x <= y <= s.len(),
    ensures
        is_ascii_chars(s.subrange(x, y)),
{
    assert forall|i: int| 0 <= i < s.subrange(x, y).len() implies '\0' <= #[trigger] s.subrange(x, y)[i] <= '\u{7f}' by {
        assert(s.subrange(x, y)[i] == s[i + x]);
    }
}

proof fn lemma_char_at_byte_props(s: Seq<char>, k: int)
    requires
        is_boundary(s, k),
    ensures
        0 <= char_at_byte(s, k) <= s.len(),
        crate::text::byte_len(s.take(char_at_byte(s, k))) == k,
{
}

proof fn lemma_char_at_byte_mono(s: Seq<char>, k1: int, k2: int)
    requires
        is_boundary(s, k1),
        is_boundary(s, k2),
        k1 <= k2,
    ensures
        char_at_byte(s, k1) <= char_at_byte(s, k2),
{
    lemma_char_at_byte_props(s, k1);
    lemma_char_at_byte_props(s, k2);
    let i = char_at_byte(s, k1);
    let j = char_at_byte(s, k2);
    if i > j {
        crate::text::lemma_byte_len_mono(s, j, i);
    }
}

/// A capital first letter of ASCII text is ASCII.
proof fn lemma_replacement_ascii(m: Seq<char>, right: Seq<char>)
    requires
        is_ascii_chars(right),
    ensures
        is_ascii_chars(replacement(m, right)),
{
    if m.len() > 0 && is_upper(m[0]) && right.len() > 0 {
        let c = right[0];
        assert('\0' <= c <= '\u{7f}');
        let u = ascii_upper(c);
        assert('\0' <= u <= '\u{7f}');
        assert(is_ascii_chars(seq![u]));
        assert(upper_first(c) == seq![u]);
        lemma_ascii_subrange(right, 1, right.len() as int);
        assert(right.drop_first() =~= right.subrange(1, right.len() as int));
        lemma_ascii_concat(seq![u], right.drop_first());
    }
}

proof fn lemma_replaced_upto_ascii(s: Seq<char>, sp: Seq<(int, int)>, right: Seq<char>, k: int)
    requires
        is_ascii_chars(s),
        is_ascii_chars(right),
        spans_ok(s, sp),
        0 <= k <= sp.len(),
    ensures
        is_ascii_chars(replaced_upto(s, sp, right, k)),
        0 <= end_before(s, sp, k) <= s.len(),
    decreases k,
{
    if k > 0 {
        lemma_replaced_upto_ascii(s, sp, right, k - 1);
        let a = char_at_byte(s, sp[k - 1].0);
        let b = char_at_byte(s, sp[k - 1].1);
        assert(sp[k - 1].0 <= sp[k - 1].1);
        lemma_char_at_byte_mono(s, sp[k - 1].0, sp[k - 1].1);
        lemma_char_at_byte_props(s, sp[k - 1].0);
        lemma_char_at_byte_props(s, sp[k - 1].1);
        if k > 1 {
            assert(sp[k - 2].1 <= sp[k - 1].0);
            lemma_char_at_byte_mono(s, sp[k - 2].1, sp[k - 1].0);
        }
        let e = end_before(s, sp, k - 1);
        assert(e <= a);
        lemma_ascii_subrange(s, e, a);
        lemma_ascii_subrange(s, a, b);
        lemma_replacement_ascii(s.subrange(a, b), right);
        lemma_ascii_concat(replaced_upto(s, sp, right, k - 1), s.subrange(e, a));
        lemma_ascii_concat(replaced_upto(s, sp, right, k - 1) + s.subrange(e, a), replacement(s.subrange(a, b), right));
    }
}

/// Rules of ASCII texts turn ASCII text into ASCII text.
proof fn lemma_corrected_ascii(text: Seq<char>, rules: Seq<(Seq<char>, Seq<char>)>)
    requires
        is_ascii_chars(text),
        rules_ascii(rules),
    ensures
        corrected(text, rules) matches Some(t) ==> is_ascii_chars(t),
    decreases rules.len(),
{
    if rules.len() > 0 {
        let p = rules.drop_last();
        assert(rules_ascii(p)) by {
            assert forall|i: int| 0 <= i < p.len() implies is_ascii_chars(#[trigger] p[i].0) && is_ascii_chars(p[i].1) by {
                assert(p[i] == rules[i]);
            }
        }
        lemma_corrected_ascii(text, p);
        match corrected(text, p) {
            Some(t) => {
                let rule = rules.last();
                assert(rule == rules[rules.len() - 1]);
                assert(composed(rule.1) == rule.1);
                match regex_spans(pattern_of(composed(rule.0)), t) {
                    Some(sp) => {
                        if spans_ok(t, sp) {
                            lemma_replaced_upto_ascii(t, sp, rule.1, sp.len() as int);
                            let e = end_before(t, sp, sp.len() as int);
                            lemma_ascii_subrange(t, e, t.len() as int);
                            assert(t.skip(e) =~= t.subrange(e, t.len() as int));
                            lemma_ascii_concat(replaced_upto(t, sp, rule.1, sp.len() as int), t.skip(e));
                        }
                    },
                    None => {},
                }
            },
            None => {},
        }
    }
}

/// Correcting is applying the rules one after another: on ASCII subtitle
/// text with rules of ASCII texts, correcting with `p1` followed by `p2`
/// gives what correcting with `p1` and then correcting the result with `p2`
/// gives (and fails where either does); with no rules the text comes back
/// as it is.
pub proof fn law_corrections_compose(
    srt: Seq<char>,
    p1: Seq<(Seq<char>, Seq<char>)>,
    p2: Seq<(Seq<char>, Seq<char>)>,
)
    requires
        is_ascii_chars(srt),
        rules_ascii(p1),
    ensures
        corrected(composed(srt), p1 + p2) == match corrected(composed(srt), p1) {
            Some(t) => corrected(composed(t), p2),
            None => None,
        },
        corrected(composed(srt), seq![]) == Some(srt),
{
    law_rules_compose(srt, p1, p2);
    lemma_corrected_ascii(srt, p1);
}

} // verus!
