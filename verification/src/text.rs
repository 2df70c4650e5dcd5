//! Character-level helpers shared by the subtitle formats: whitespace,
//! trimming, line and word splitting, joining and literal replacement.
use vstd::prelude::*;

verus! {

/// `String::push` appends one character.
pub assume_specification[ String::push ](s: &mut String, ch: char)
    ensures
        final(s)@ == old(s)@.push(ch),
;

// ------------------------------------------------------------------ conversions

/// The characters of a string slice, in order.
pub fn to_chars(s: &str) -> (v: Vec<char>)
    ensures
        v@ == s@,
{
    let mut v: Vec<char> = Vec::new();
    for c in it: s.chars()
        invariant
            v@ == it.seq().take(it.index() as int),
    {
        v.push(c);
    }
    assert(v@ =~= s@);
    v
}

/// A string holding the given characters.
pub fn from_chars(v: &[char]) -> (s: String)
    ensures
        s@ == v@,
{
    let mut s = String::new();
    let mut i: usize = 0;
    while i < v.len()
        invariant
            i <= v.len(),
            s@ == v@.take(i as int),
        decreases v.len() - i,
    {
        s.push(v[i]);
        assert(v@.take(i + 1) =~= v@.take(i as int).push(v@[i as int]));
        i += 1;
    }
    assert(v@.take(v.len() as int) =~= v@);
    s
}

/// The characters `v[lo..hi]` as a new vector.
pub fn slice_chars(v: &[char], lo: usize, hi: usize) -> (r: Vec<char>)
    requires
        lo <= hi <= v@.len(),
    ensures
        r@ == v@.subrange(lo as int, hi as int),
{
    let mut r: Vec<char> = Vec::new();
    let mut i = lo;
    while i < hi
        invariant
            lo <= i <= hi,
            hi <= v@.len(),
            r@ == v@.subrange(lo as int, i as int),
        decreases hi - i,
    {
        r.push(v[i]);
        assert(v@.subrange(lo as int, i + 1) =~= v@.subrange(lo as int, i as int).push(v@[i as int]));
        i += 1;
    }
    r
}

/// Appends the characters of `src` to `dst`.
pub fn push_all(dst: &mut Vec<char>, src: &[char])
    ensures
        final(dst)@ == old(dst)@ + src@,
{
    let mut i: usize = 0;
    while i < src.len()
        invariant
            i <= src@.len(),
            dst@ == old(dst)@ + src@.take(i as int),
        decreases src.len() - i,
    {
        dst.push(src[i]);
        assert(src@.take(i + 1) =~= src@.take(i as int).push(src@[i as int]));
        i += 1;
    }
    assert(src@.take(src@.len() as int) =~= src@);
}

/// Appends the characters of a string slice to `dst`.
pub fn push_str(dst: &mut Vec<char>, src: &str)
    ensures
        final(dst)@ == old(dst)@ + src@,
{
    let c = to_chars(src);
    push_all(dst, c.as_slice());
}

/// Whether two character sequences are equal.
pub fn chars_eq(a: &[char], b: &[char]) -> (r: bool)
    ensures
        r == (a@ == b@),
{
    if a.len() != b.len() {
        return false;
    }
    let mut i: usize = 0;
    while i < a.len()
        invariant
            a@.len() == b@.len(),
            i <= a@.len(),
            forall|j: int| 0 <= j < i ==> a@[j] == b@[j],
        decreases a.len() - i,
    {
        if a[i] != b[i] {
            return false;
        }
        i += 1;
    }
    assert(a@ =~= b@);
    true
}

// ------------------------------------------------------------------ whitespace

/// Unicode `White_Space`, the set that `char::is_whitespace` tests.
pub open spec fn is_ws(c: char) -> bool {
    let u = c as u32;
    (0x09 <= u <= 0x0d) || u == 0x20 || u == 0x85 || u == 0xa0 || u == 0x1680 || (0x2000 <= u
        <= 0x200a) || u == 0x2028 || u == 0x2029 || u == 0x202f || u == 0x205f || u == 0x3000
}

/// Executable test of [`is_ws`].
pub fn is_whitespace(c: char) -> (r: bool)
    ensures
        r == is_ws(c),
{
    let u = c as u32;
    (0x09 <= u && u <= 0x0d) || u == 0x20 || u == 0x85 || u == 0xa0 || u == 0x1680 || (0x2000 <= u
        && u <= 0x200a) || u == 0x2028 || u == 0x2029 || u == 0x202f || u == 0x205f || u == 0x3000
}

/// Whether every character of `s` is whitespace (true of the empty sequence).
pub open spec fn all_ws(s: Seq<char>) -> bool {
    forall|i: int| 0 <= i < s.len() ==> is_ws(#[trigger] s[i])
}

/// `s` without its leading whitespace.
pub open spec fn trim_start(s: Seq<char>) -> Seq<char>
    decreases s.len(),
{
    if s.len() > 0 && is_ws(s[0]) {
        trim_start(s.drop_first())
    } else {
        s
    }
}

/// `s` without its trailing whitespace.
pub open spec fn trim_end(s: Seq<char>) -> Seq<char>
    decreases s.len(),
{
    if s.len() > 0 && is_ws(s.last()) {
        trim_end(s.drop_last())
    } else {
        s
    }
}

/// `s` without leading and trailing whitespace, as `str::trim`.
pub open spec fn trim(s: Seq<char>) -> Seq<char> {
    trim_end(trim_start(s))
}

pub proof fn lemma_trim_start_at(s: Seq<char>, k: int)
    requires
        0 <= k <= s.len(),
        forall|j: int| 0 <= j < k ==> is_ws(#[trigger] s[j]),
        k == s.len() || !is_ws(s[k]),
    ensures
        trim_start(s) == s.subrange(k, s.len() as int),
    decreases k,
{
    if k == 0 {
        assert(s.subrange(0, s.len() as int) =~= s);
    } else {
        let t = s.drop_first();
        assert forall|j: int| 0 <= j < k - 1 implies is_ws(#[trigger] t[j]) by {
            assert(t[j] == s[j + 1]);
        }
        lemma_trim_start_at(t, k - 1);
        assert(t.subrange(k - 1, t.len() as int) =~= s.subrange(k, s.len() as int));
    }
}

pub proof fn lemma_trim_end_at(s: Seq<char>, k: int)
    requires
        0 <= k <= s.len(),
        forall|j: int| k <= j < s.len() ==> is_ws(#[trigger] s[j]),
        k == 0 || !is_ws(s[k - 1]),
    ensures
        trim_end(s) == s.subrange(0, k),
    decreases s.len() - k,
{
    if k == s.len() {
        assert(s.subrange(0, k) =~= s);
    } else {
        let t = s.drop_last();
        assert forall|j: int| k <= j < t.len() implies is_ws(#[trigger] t[j]) by {
            assert(t[j] == s[j]);
        }
        lemma_trim_end_at(t, k);
        assert(t.subrange(0, k) =~= s.subrange(0, k));
    }
}

pub proof fn lemma_trim_start_first(s: Seq<char>)
    ensures
        trim_start(s).len() == 0 || !is_ws(trim_start(s)[0]),
    decreases s.len(),
{
    if s.len() > 0 && is_ws(s[0]) {
        lemma_trim_start_first(s.drop_first());
    }
}

pub proof fn lemma_trim_end_prefix(s: Seq<char>)
    ensures
        trim_end(s).len() <= s.len(),
        trim_end(s) == s.take(trim_end(s).len() as int),
        trim_end(s).len() == 0 || !is_ws(trim_end(s).last()),
        (s.len() > 0 && !is_ws(s[0])) ==> trim_end(s).len() > 0,
    decreases s.len(),
{
    if s.len() > 0 && is_ws(s.last()) {
        lemma_trim_end_prefix(s.drop_last());
        let t = trim_end(s.drop_last());
        assert(s.drop_last().take(t.len() as int) =~= s.take(t.len() as int));
        if s.len() == 1 {
            assert(!is_ws(s[0]) ==> false);
        }
    } else {
        assert(s.take(s.len() as int) =~= s);
    }
}

/// What `trim` leaves is empty or starts and ends with a character that is
/// not whitespace.
pub proof fn lemma_trim_ends(s: Seq<char>)
    ensures
        trim(s).len() == 0 || (!is_ws(trim(s)[0]) && !is_ws(trim(s).last())),
{
    let t0 = trim_start(s);
    lemma_trim_start_first(s);
    lemma_trim_end_prefix(t0);
    if trim(s).len() > 0 {
        assert(trim(s)[0] == t0[0]);
    }
}

/// Trimming twice is trimming once.
pub proof fn lemma_trim_idempotent(s: Seq<char>)
    ensures
        trim(trim(s)) == trim(s),
{
    let t = trim(s);
    lemma_trim_ends(s);
    if t.len() == 0 {
        assert(trim_start(t) == t);
    } else {
        lemma_trim_start_at(t, 0);
        assert(t.subrange(0, t.len() as int) =~= t);
        lemma_trim_end_at(t, t.len() as int);
        assert(t.subrange(0, t.len() as int) =~= t);
    }
}

/// Bounds of the trimmed part of `v`: `trim(v@) == v@[lo..hi]`.
pub fn trim_bounds(v: &[char]) -> (r: (usize, usize))
    ensures
        r.0 <= r.1 <= v@.len(),
        trim(v@) == v@.subrange(r.0 as int, r.1 as int),
        trim_start(v@) == v@.subrange(r.0 as int, v@.len() as int),
{
    let n = v.len();
    let mut lo: usize = 0;
    while lo < n && is_whitespace(v[lo])
        invariant
            lo <= n == v@.len(),
            forall|j: int| 0 <= j < lo ==> is_ws(#[trigger] v@[j]),
        decreases n - lo,
    {
        lo += 1;
    }
    proof {
        lemma_trim_start_at(v@, lo as int);
    }
    let ghost t = v@.subrange(lo as int, n as int);
    let mut hi: usize = n;
    while hi > lo && is_whitespace(v[hi - 1])
        invariant
            lo <= hi <= n == v@.len(),
            t == v@.subrange(lo as int, n as int),
            forall|j: int| hi <= j < n ==> is_ws(#[trigger] v@[j]),
        decreases hi - lo,
    {
        hi -= 1;
    }
    proof {
        assert forall|j: int| hi - lo <= j < t.len() implies is_ws(#[trigger] t[j]) by {
            assert(t[j] == v@[j + lo]);
        }
        if hi > lo {
            assert(t[hi - lo - 1] == v@[hi - 1]);
        }
        lemma_trim_end_at(t, hi - lo);
        assert(t.subrange(0, hi - lo) =~= v@.subrange(lo as int, hi as int));
    }
    (lo, hi)
}

/// `str::trim` on a character vector.
pub fn trim_chars(v: &[char]) -> (r: Vec<char>)
    ensures
        r@ == trim(v@),
{
    let (lo, hi) = trim_bounds(v);
    slice_chars(v, lo, hi)
}

// ------------------------------------------------------------------ searching

/// Index of the first `c` in `s`, or `s.len()` when there is none.
pub open spec fn index_of(s: Seq<char>, c: char) -> int
    decreases s.len(),
{
    if s.len() == 0 {
        0
    } else if s[0] == c {
        0
    } else {
        1 + index_of(s.drop_first(), c)
    }
}

pub proof fn lemma_index_of(s: Seq<char>, c: char, k: int)
    requires
        0 <= k <= s.len(),
        forall|j: int| 0 <= j < k ==> #[trigger] s[j] != c,
        k == s.len() || s[k] == c,
    ensures
        index_of(s, c) == k,
    decreases k,
{
    if k > 0 {
        let t = s.drop_first();
        assert forall|j: int| 0 <= j < k - 1 implies #[trigger] t[j] != c by {
            assert(t[j] == s[j + 1]);
        }
        lemma_index_of(t, c, k - 1);
    }
}

pub proof fn lemma_index_of_props(s: Seq<char>, c: char)
    ensures
        0 <= index_of(s, c) <= s.len(),
        forall|j: int| 0 <= j < index_of(s, c) ==> #[trigger] s[j] != c,
        index_of(s, c) < s.len() ==> s[index_of(s, c)] == c,
    decreases s.len(),
{
    if s.len() > 0 && s[0] != c {
        let t = s.drop_first();
        lemma_index_of_props(t, c);
        assert forall|j: int| 0 <= j < index_of(s, c) implies #[trigger] s[j] != c by {
            if j > 0 {
                assert(s[j] == t[j - 1]);
            }
        }
    }
}

/// Index of the first `c` in `v` at or after `from`, or `v.len()`.
pub fn find_char(v: &[char], c: char, from: usize) -> (r: usize)
    requires
        from <= v@.len(),
    ensures
        from <= r <= v@.len(),
        r - from == index_of(v@.subrange(from as int, v@.len() as int), c),
{
    let mut i = from;
    while i < v.len() && v[i] != c
        invariant
            from <= i <= v@.len(),
            forall|j: int| from <= j < i ==> #[trigger] v@[j] != c,
        decreases v.len() - i,
    {
        i += 1;
    }
    proof {
        let t = v@.subrange(from as int, v@.len() as int);
        assert forall|j: int| 0 <= j < i - from implies #[trigger] t[j] != c by {
            assert(t[j] == v@[j + from]);
        }
        lemma_index_of(t, c, i - from);
    }
    i
}

/// Whether `pat` occurs in `s` at position `i`.
pub open spec fn occurs_at(s: Seq<char>, pat: Seq<char>, i: int) -> bool {
    0 <= i && i + pat.len() <= s.len() && s.subrange(i, i + pat.len()) == pat
}

/// Whether `pat` occurs anywhere in `s`, as `str::contains`.
pub open spec fn contains_seq(s: Seq<char>, pat: Seq<char>) -> bool {
    exists|i: int| occurs_at(s, pat, i)
}

/// Index of the first occurrence of `pat` in `s`, or `s.len()` when there is none.
pub open spec fn find_seq(s: Seq<char>, pat: Seq<char>) -> int
    decreases s.len(),
{
    if occurs_at(s, pat, 0) {
        0
    } else if s.len() == 0 {
        0
    } else {
        1 + find_seq(s.drop_first(), pat)
    }
}

pub proof fn lemma_occurs_shift(s: Seq<char>, pat: Seq<char>, i: int)
    requires
        s.len() > 0,
        i >= 0,
    ensures
        occurs_at(s.drop_first(), pat, i) == occurs_at(s, pat, i + 1),
{
    if occurs_at(s, pat, i + 1) {
        assert(s.drop_first().subrange(i, i + pat.len()) =~= s.subrange(i + 1, i + 1 + pat.len()));
    }
    if occurs_at(s.drop_first(), pat, i) {
        assert(s.drop_first().subrange(i, i + pat.len()) =~= s.subrange(i + 1, i + 1 + pat.len()));
    }
}

pub proof fn lemma_find_seq(s: Seq<char>, pat: Seq<char>, k: int)
    requires
        0 <= k <= s.len(),
        forall|j: int| 0 <= j < k ==> !#[trigger] occurs_at(s, pat, j),
        k == s.len() || occurs_at(s, pat, k),
    ensures
        find_seq(s, pat) == k,
    decreases k,
{
    if k > 0 {
        let t = s.drop_first();
        assert(!occurs_at(s, pat, 0));
        assert forall|j: int| 0 <= j < k - 1 implies !#[trigger] occurs_at(t, pat, j) by {
            lemma_occurs_shift(s, pat, j);
            assert(!occurs_at(s, pat, j + 1));
        }
        if k < s.len() {
            lemma_occurs_shift(s, pat, k - 1);
        }
        lemma_find_seq(t, pat, k - 1);
    }
}

/// Whether `pat` occurs in `v` at position `i`.
pub fn occurs_at_exec(v: &[char], pat: &[char], i: usize) -> (r: bool)
    ensures
        r == occurs_at(v@, pat@, i as int),
{
    if i > v.len() || pat.len() > v.len() - i {
        return false;
    }
    let mut k: usize = 0;
    while k < pat.len()
        invariant
            i + pat@.len() <= v@.len(),
            k <= pat@.len(),
            pat@.len() == pat.len(),
            v@.len() == v.len(),
            forall|j: int| 0 <= j < k ==> v@[i + j] == pat@[j],
        decreases pat.len() - k,
    {
        if v[i + k] != pat[k] {
            assert(v@.subrange(i as int, i + pat@.len())[k as int] != pat@[k as int]);
            return false;
        }
        k += 1;
    }
    assert(v@.subrange(i as int, i + pat@.len()) =~= pat@);
    true
}

/// Index of the first occurrence of `pat` in `v` at or after `from`, or `v.len()`.
pub fn find_seq_exec(v: &[char], pat: &[char], from: usize) -> (r: usize)
    requires
        from <= v@.len(),
    ensures
        from <= r <= v@.len(),
        r - from == find_seq(v@.subrange(from as int, v@.len() as int), pat@),
{
    let mut i = from;
    while i < v.len() && !occurs_at_exec(v, pat, i)
        invariant
            from <= i <= v@.len(),
            forall|j: int| from <= j < i ==> !#[trigger] occurs_at(v@, pat@, j),
        decreases v.len() - i,
    {
        i += 1;
    }
    proof {
        let t = v@.subrange(from as int, v@.len() as int);
        assert forall|j: int| 0 <= j < t.len() implies #[trigger] occurs_at(t, pat@, j)
            == occurs_at(v@, pat@, j + from) by {
            if occurs_at(t, pat@, j) {
                assert(t.subrange(j, j + pat@.len()) =~= v@.subrange(j + from, j + from
                    + pat@.len()));
            }
            if occurs_at(v@, pat@, j + from) {
                assert(t.subrange(j, j + pat@.len()) =~= v@.subrange(j + from, j + from
                    + pat@.len()));
            }
        }
        assert forall|j: int| 0 <= j < i - from implies !#[trigger] occurs_at(t, pat@, j) by {
            assert(!occurs_at(v@, pat@, j + from));
        }
        if i < v.len() {
            assert(occurs_at(t, pat@, i - from));
        }
        lemma_find_seq(t, pat@, i - from);
    }
    i
}

pub proof fn lemma_find_seq_props(s: Seq<char>, pat: Seq<char>)
    ensures
        0 <= find_seq(s, pat) <= s.len(),
        forall|j: int| 0 <= j < find_seq(s, pat) ==> !#[trigger] occurs_at(s, pat, j),
        find_seq(s, pat) < s.len() ==> occurs_at(s, pat, find_seq(s, pat)),
        contains_seq(s, pat) <==> (find_seq(s, pat) < s.len() || occurs_at(s, pat, s.len() as int)),
    decreases s.len(),
{
    if !occurs_at(s, pat, 0) && s.len() > 0 {
        let t = s.drop_first();
        lemma_find_seq_props(t, pat);
        assert forall|j: int| 0 <= j < find_seq(s, pat) implies !#[trigger] occurs_at(s, pat, j) by {
            if j > 0 {
                lemma_occurs_shift(s, pat, j - 1);
            }
        }
        if find_seq(s, pat) < s.len() {
            lemma_occurs_shift(s, pat, find_seq(t, pat));
        }
        lemma_occurs_shift(s, pat, t.len() as int);
        if contains_seq(s, pat) {
            let w = choose|w: int| occurs_at(s, pat, w);
            if w > 0 {
                lemma_occurs_shift(s, pat, w - 1);
                assert(occurs_at(t, pat, w - 1));
            }
        }
        if contains_seq(t, pat) {
            let w = choose|w: int| occurs_at(t, pat, w);
            lemma_occurs_shift(s, pat, w);
        }
    }
}


// ------------------------------------------------------------------ lines

/// The views of a sequence of character vectors.
pub open spec fn views(v: Seq<Vec<char>>) -> Seq<Seq<char>> {
    v.map_values(|x: Vec<char>| x@)
}

/// `l` without one trailing carriage return.
pub open spec fn strip_cr(l: Seq<char>) -> Seq<char> {
    if l.len() > 0 && l.last() == '\r' {
        l.drop_last()
    } else {
        l
    }
}

/// The lines of `s`, as `str::lines`: split at `\n`, a `\r` before the `\n`
/// dropped, and no empty line after a final line ending.
pub open spec fn lines(s: Seq<char>) -> Seq<Seq<char>>
    decreases s.len(),
{
    if s.len() == 0 {
        seq![]
    } else {
        let k = index_of(s, '\n');
        if k >= s.len() || k < 0 {
            seq![s]
        } else {
            seq![strip_cr(s.take(k))] + lines(s.skip(k as int + 1))
        }
    }
}

/// `str::lines` on a character vector.
pub fn lines_of(v: &[char]) -> (r: Vec<Vec<char>>)
    ensures
        views(r@) == lines(v@),
{
    let n = v.len();
    let mut r: Vec<Vec<char>> = Vec::new();
    let mut pos: usize = 0;
    proof {
        assert(v@.subrange(0, n as int) =~= v@);
        assert(views(r@) + lines(v@) =~= lines(v@));
    }
    while pos < n
        invariant
            pos <= n == v@.len(),
            lines(v@) == views(r@) + lines(v@.subrange(pos as int, n as int)),
        decreases n - pos,
    {
        let ghost s = v@.subrange(pos as int, n as int);
        let k = find_char(v, '\n', pos);
        proof {
            lemma_index_of_props(s, '\n');
        }
        if k == n {
            let piece = slice_chars(v, pos, n);
            let ghost before = views(r@);
            r.push(piece);
            proof {
                assert(views(r@) =~= before.push(s));
                assert(lines(v@.subrange(n as int, n as int)) =~= Seq::<Seq<char>>::empty());
                assert(lines(s) == seq![s]);
                assert(views(r@) + lines(v@.subrange(n as int, n as int)) =~= before + seq![s]);
            }
            pos = n;
        } else {
            let mut piece = slice_chars(v, pos, k);
            if piece.len() > 0 && piece[piece.len() - 1] == '\r' {
                piece.pop();
                assert(piece@ =~= strip_cr(s.take(k - pos)));
            } else {
                assert(piece@ =~= strip_cr(s.take(k - pos)));
            }
            let ghost before = views(r@);
            r.push(piece);
            proof {
                assert(views(r@) =~= before.push(piece@));
                assert(s.skip(k - pos + 1) =~= v@.subrange(k + 1, n as int));
                assert(lines(s) == seq![strip_cr(s.take(k - pos))] + lines(s.skip(k - pos + 1)));
                assert(views(r@) + lines(v@.subrange(k + 1, n as int)) =~= before + lines(s));
            }
            pos = k + 1;
        }
    }
    proof {
        assert(lines(v@.subrange(n as int, n as int)) =~= Seq::<Seq<char>>::empty());
        assert(views(r@) + Seq::<Seq<char>>::empty() =~= views(r@));
    }
    r
}

// ------------------------------------------------------------------ words

/// Index of the first whitespace character of `s`, or `s.len()`.
pub open spec fn index_ws(s: Seq<char>) -> nat
    decreases s.len(),
{
    if s.len() == 0 {
        0
    } else if is_ws(s[0]) {
        0
    } else {
        1 + index_ws(s.drop_first())
    }
}

pub proof fn lemma_index_ws_props(s: Seq<char>)
    ensures
        index_ws(s) <= s.len(),
        forall|j: int| 0 <= j < index_ws(s) ==> !is_ws(#[trigger] s[j]),
        index_ws(s) < s.len() ==> is_ws(s[index_ws(s) as int]),
    decreases s.len(),
{
    if s.len() > 0 && !is_ws(s[0]) {
        let t = s.drop_first();
        lemma_index_ws_props(t);
        assert forall|j: int| 0 <= j < index_ws(s) implies !is_ws(#[trigger] s[j]) by {
            if j > 0 {
                assert(s[j] == t[j - 1]);
            }
        }
    }
}

pub proof fn lemma_index_ws(s: Seq<char>, k: int)
    requires
        0 <= k <= s.len(),
        forall|j: int| 0 <= j < k ==> !is_ws(#[trigger] s[j]),
        k == s.len() || is_ws(s[k]),
    ensures
        index_ws(s) == k,
    decreases k,
{
    if k > 0 {
        let t = s.drop_first();
        assert forall|j: int| 0 <= j < k - 1 implies !is_ws(#[trigger] t[j]) by {
            assert(t[j] == s[j + 1]);
        }
        lemma_index_ws(t, k - 1);
    }
}

/// The whitespace-separated words of `s`, as `str::split_whitespace`.
pub open spec fn words(s: Seq<char>) -> Seq<Seq<char>>
    decreases s.len(),
{
    if s.len() == 0 {
        seq![]
    } else if is_ws(s[0]) {
        words(s.drop_first())
    } else {
        let k = index_ws(s);
        proof {
            lemma_index_ws_props(s);
        }
        seq![s.take(k as int)] + words(s.skip(k as int))
    }
}

/// Whether `s` holds no whitespace.
pub open spec fn no_ws(s: Seq<char>) -> bool {
    forall|j: int| 0 <= j < s.len() ==> !is_ws(#[trigger] s[j])
}

/// The words of a text are not empty and hold no whitespace.
pub proof fn lemma_words_no_ws(s: Seq<char>)
    ensures
        forall|i: int| 0 <= i < words(s).len() ==> (#[trigger] words(s)[i]).len() > 0 && no_ws(words(s)[i]),
    decreases s.len(),
{
    if s.len() > 0 {
        if is_ws(s[0]) {
            lemma_words_no_ws(s.drop_first());
            assert(words(s) == words(s.drop_first()));
        } else {
            let k = index_ws(s);
            lemma_index_ws_props(s);
            lemma_words_no_ws(s.skip(k as int));
            let r = words(s);
            assert(r == seq![s.take(k as int)] + words(s.skip(k as int)));
            assert forall|i: int| 0 <= i < r.len() implies (#[trigger] r[i]).len() > 0 && no_ws(r[i]) by {
                if i > 0 {
                    assert(r[i] == words(s.skip(k as int))[i - 1]);
                } else {
                    assert(r[0] == s.take(k as int));
                    assert forall|j: int| 0 <= j < r[0].len() implies !is_ws(#[trigger] r[0][j]) by {
                        assert(r[0][j] == s[j]);
                    }
                }
            }
        }
    }
}

/// Whether `s` is all whitespace and not empty.
pub open spec fn ws_run(s: Seq<char>) -> bool {
    s.len() > 0 && all_ws(s)
}

/// Leading whitespace makes no word.
pub proof fn lemma_words_after_ws(r: Seq<char>, b: Seq<char>)
    requires
        all_ws(r),
    ensures
        words(r + b) == words(b),
    decreases r.len(),
{
    if r.len() > 0 {
        assert((r + b)[0] == r[0]);
        assert((r + b).drop_first() =~= r.drop_first() + b);
        lemma_words_after_ws(r.drop_first(), b);
    } else {
        assert(r + b =~= b);
    }
}

/// Whitespace between two texts separates their words.
pub proof fn lemma_words_split(a: Seq<char>, r: Seq<char>, b: Seq<char>)
    requires
        ws_run(r),
    ensures
        words(a + r + b) == words(a) + words(b),
    decreases a.len(),
{
    let s = a + r + b;
    if a.len() == 0 {
        assert(s =~= r + b);
        lemma_words_after_ws(r, b);
        assert(words(a) =~= Seq::<Seq<char>>::empty());
        assert(words(a) + words(b) =~= words(b));
    } else if is_ws(a[0]) {
        assert(s[0] == a[0]);
        assert(s.drop_first() =~= a.drop_first() + r + b);
        lemma_words_split(a.drop_first(), r, b);
        assert(words(s) == words(s.drop_first()));
        assert(words(a) == words(a.drop_first()));
    } else {
        let ka = index_ws(a);
        lemma_index_ws_props(a);
        assert(s[0] == a[0]);
        if ka < a.len() {
            assert forall|j: int| 0 <= j < ka implies !is_ws(#[trigger] s[j]) by {
                assert(s[j] == a[j]);
            }
            assert(is_ws(s[ka as int])) by {
                assert(s[ka as int] == a[ka as int]);
            }
            lemma_index_ws(s, ka as int);
            assert(s.take(ka as int) =~= a.take(ka as int));
            assert(s.skip(ka as int) =~= a.skip(ka as int) + r + b);
            lemma_words_split(a.skip(ka as int), r, b);
            assert(words(s) == seq![s.take(ka as int)] + words(s.skip(ka as int)));
            assert(words(a) == seq![a.take(ka as int)] + words(a.skip(ka as int)));
            assert(words(s) =~= words(a) + words(b));
        } else {
            assert forall|j: int| 0 <= j < a.len() implies !is_ws(#[trigger] s[j]) by {
                assert(s[j] == a[j]);
            }
            assert(is_ws(s[a.len() as int])) by {
                assert(s[a.len() as int] == r[0]);
                assert(is_ws(r[0]));
            }
            lemma_index_ws(s, a.len() as int);
            assert(s.take(a.len() as int) =~= a);
            assert(s.skip(a.len() as int) =~= r + b);
            lemma_words_after_ws(r, b);
            assert(a.skip(a.len() as int) =~= Seq::<char>::empty());
            assert(words(Seq::<char>::empty()) =~= Seq::<Seq<char>>::empty());
            assert(a.take(a.len() as int) =~= a);
            assert(words(a) == seq![a.take(a.len() as int)] + words(a.skip(a.len() as int)));
            assert(words(s) =~= words(a) + words(b));
        }
    }
}

/// The words of each text, in order, run together.
pub open spec fn words_of_all(ps: Seq<Seq<char>>) -> Seq<Seq<char>>
    decreases ps.len(),
{
    if ps.len() == 0 {
        seq![]
    } else {
        words_of_all(ps.drop_last()) + words(ps.last())
    }
}

pub proof fn lemma_words_of_all_concat(x: Seq<Seq<char>>, y: Seq<Seq<char>>)
    ensures
        words_of_all(x + y) == words_of_all(x) + words_of_all(y),
    decreases y.len(),
{
    if y.len() == 0 {
        assert(x + y =~= x);
        assert(words_of_all(x) + words_of_all(y) =~= words_of_all(x));
    } else {
        lemma_words_of_all_concat(x, y.drop_last());
        assert((x + y).drop_last() =~= x + y.drop_last());
        assert((x + y).last() == y.last());
        assert(words_of_all(x) + words_of_all(y) =~= words_of_all(x) + words_of_all(y.drop_last())
            + words(y.last()));
    }
}

pub proof fn lemma_words_of_all_one(x: Seq<char>)
    ensures
        words_of_all(seq![x]) == words(x),
{
    assert(seq![x].drop_last() =~= Seq::<Seq<char>>::empty());
    assert(seq![x].last() == x);
    assert(words_of_all(Seq::<Seq<char>>::empty()) =~= Seq::<Seq<char>>::empty());
    assert(words_of_all(seq![x]) == words_of_all(seq![x].drop_last()) + words(seq![x].last()));
    assert(Seq::<Seq<char>>::empty() + words(x) =~= words(x));
}

/// Trailing whitespace makes no word.
pub proof fn lemma_words_before_ws(a: Seq<char>, r: Seq<char>)
    requires
        all_ws(r),
    ensures
        words(a + r) == words(a),
{
    if r.len() > 0 {
        lemma_words_split(a, r, Seq::<char>::empty());
        assert(a + r + Seq::<char>::empty() =~= a + r);
        assert(words(Seq::<char>::empty()) =~= Seq::<Seq<char>>::empty());
        assert(words(a) + words(Seq::<char>::empty()) =~= words(a));
    } else {
        assert(a + r =~= a);
    }
}

/// Trimming keeps the words.
pub proof fn lemma_words_trim(s: Seq<char>)
    ensures
        words(trim_start(s)) == words(s),
        words(trim_end(s)) == words(s),
        words(trim(s)) == words(s),
    decreases s.len(),
{
    if s.len() > 0 {
        lemma_words_trim(s.drop_last());
        lemma_words_trim(s.drop_first());
        if is_ws(s[0]) {
            assert(words(s) == words(s.drop_first()));
        }
        if is_ws(s.last()) {
            assert(s =~= s.drop_last() + seq![s.last()]);
            lemma_words_before_ws(s.drop_last(), seq![s.last()]);
        }
        lemma_words_trim_end_of(trim_start(s));
    }
}

proof fn lemma_words_trim_end_of(s: Seq<char>)
    ensures
        words(trim_end(s)) == words(s),
    decreases s.len(),
{
    if s.len() > 0 && is_ws(s.last()) {
        lemma_words_trim_end_of(s.drop_last());
        assert(s =~= s.drop_last() + seq![s.last()]);
        lemma_words_before_ws(s.drop_last(), seq![s.last()]);
    }
}

/// A word alone is its own only word.
pub proof fn lemma_words_single(w: Seq<char>)
    requires
        w.len() > 0,
        no_ws(w),
    ensures
        words(w) == seq![w],
{
    lemma_index_ws(w, w.len() as int);
    assert(w.take(w.len() as int) =~= w);
    assert(w.skip(w.len() as int) =~= Seq::<char>::empty());
    assert(words(Seq::<char>::empty()) =~= Seq::<Seq<char>>::empty());
    assert(seq![w] + Seq::<Seq<char>>::empty() =~= seq![w]);
}

/// Texts joined with whitespace have the words of the texts.
pub proof fn lemma_words_join(ps: Seq<Seq<char>>, sep: Seq<char>)
    requires
        ws_run(sep),
    ensures
        words(join(ps, sep)) == words_of_all(ps),
    decreases ps.len(),
{
    if ps.len() == 0 {
        assert(words(Seq::<char>::empty()) =~= Seq::<Seq<char>>::empty());
    } else if ps.len() == 1 {
        lemma_words_of_all_one(ps[0]);
        assert(ps =~= seq![ps[0]]);
    } else {
        lemma_words_join(ps.drop_last(), sep);
        lemma_words_split(join(ps.drop_last(), sep), sep, ps.last());
    }
}

/// The words of a text are those of its lines.
pub proof fn lemma_words_lines(s: Seq<char>)
    ensures
        words_of_all(lines(s)) == words(s),
    decreases s.len(),
{
    if s.len() > 0 {
        let k = index_of(s, '\n');
        lemma_index_of_props(s, '\n');
        if k >= s.len() {
            lemma_words_of_all_one(s);
        } else {
            let a = s.take(k);
            let b = s.skip(k + 1);
            lemma_words_lines(b);
            assert(s =~= a + seq!['\n'] + b);
            assert(ws_run(seq!['\n']));
            lemma_words_split(a, seq!['\n'], b);
            assert(words(strip_cr(a)) == words(a)) by {
                if a.len() > 0 && a.last() == '\r' {
                    assert(a =~= a.drop_last() + seq!['\r']);
                    lemma_words_before_ws(a.drop_last(), seq!['\r']);
                }
            }
            lemma_words_of_all_concat(seq![strip_cr(a)], lines(b));
            lemma_words_of_all_one(strip_cr(a));
        }
    } else {
        assert(words(s) =~= Seq::<Seq<char>>::empty());
    }
}

/// `str::split_whitespace` on a character vector.
pub fn words_of(v: &[char]) -> (r: Vec<Vec<char>>)
    ensures
        views(r@) == words(v@),
{
    let n = v.len();
    let mut r: Vec<Vec<char>> = Vec::new();
    let mut pos: usize = 0;
    proof {
        assert(v@.subrange(0, n as int) =~= v@);
        assert(views(r@) + words(v@) =~= words(v@));
    }
    while pos < n
        invariant
            pos <= n == v@.len(),
            words(v@) == views(r@) + words(v@.subrange(pos as int, n as int)),
        decreases n - pos,
    {
        let ghost s = v@.subrange(pos as int, n as int);
        if is_whitespace(v[pos]) {
            assert(s.drop_first() =~= v@.subrange(pos + 1, n as int));
            pos += 1;
        } else {
            let mut k = pos;
            while k < n && !is_whitespace(v[k])
                invariant
                    pos <= k <= n == v@.len(),
                    forall|j: int| pos <= j < k ==> !is_ws(#[trigger] v@[j]),
                decreases n - k,
            {
                k += 1;
            }
            proof {
                assert forall|j: int| 0 <= j < k - pos implies !is_ws(#[trigger] s[j]) by {
                    assert(s[j] == v@[j + pos]);
                }
                if k < n {
                    assert(s[k - pos] == v@[k as int]);
                }
                lemma_index_ws(s, k - pos);
            }
            let w = slice_chars(v, pos, k);
            let ghost before = views(r@);
            r.push(w);
            proof {
                assert(views(r@) =~= before.push(w@));
                assert(w@ =~= s.take(k - pos));
                assert(s.skip(k - pos) =~= v@.subrange(k as int, n as int));
                assert(views(r@) + words(v@.subrange(k as int, n as int)) =~= before + words(s));
            }
            pos = k;
        }
    }
    proof {
        assert(words(v@.subrange(n as int, n as int)) =~= Seq::<Seq<char>>::empty());
        assert(views(r@) + Seq::<Seq<char>>::empty() =~= views(r@));
    }
    r
}

// ------------------------------------------------------------------ joining

/// The parts joined with `sep` between neighbours, as `[T]::join`.
pub open spec fn join(parts: Seq<Seq<char>>, sep: Seq<char>) -> Seq<char>
    decreases parts.len(),
{
    if parts.len() == 0 {
        seq![]
    } else if parts.len() == 1 {
        parts[0]
    } else {
        join(parts.drop_last(), sep) + sep + parts.last()
    }
}

/// `[T]::join` on character vectors.
pub fn join_chars(parts: &[Vec<char>], sep: &[char]) -> (r: Vec<char>)
    ensures
        r@ == join(views(parts@), sep@),
{
    let mut r: Vec<char> = Vec::new();
    let mut i: usize = 0;
    while i < parts.len()
        invariant
            i <= parts@.len(),
            r@ == join(views(parts@.take(i as int)), sep@),
        decreases parts.len() - i,
    {
        proof {
            assert(views(parts@.take(i + 1)).drop_last() =~= views(parts@.take(i as int)));
            assert(views(parts@.take(i + 1)).last() == parts@[i as int]@);
        }
        if i > 0 {
            push_all(&mut r, sep);
        }
        push_all(&mut r, parts[i].as_slice());
        proof {
            if i == 0 {
                assert(views(parts@.take(1)) =~= seq![parts@[0]@]);
                assert(r@ =~= parts@[0]@);
            }
        }
        i += 1;
    }
    assert(parts@.take(parts@.len() as int) =~= parts@);
    r
}

// ------------------------------------------------------------------ replacing

/// `s` with every `c` replaced by `rep`, as `str::replace` with a `char` pattern.
pub open spec fn replace_char(s: Seq<char>, c: char, rep: Seq<char>) -> Seq<char>
    decreases s.len(),
{
    if s.len() == 0 {
        seq![]
    } else {
        replace_char(s.drop_last(), c, rep) + (if s.last() == c {
            rep
        } else {
            seq![s.last()]
        })
    }
}

/// `str::replace` with a `char` pattern, on a character vector.
pub fn replace_char_exec(v: &[char], c: char, rep: &[char]) -> (r: Vec<char>)
    ensures
        r@ == replace_char(v@, c, rep@),
{
    let mut r: Vec<char> = Vec::new();
    let mut i: usize = 0;
    while i < v.len()
        invariant
            i <= v@.len(),
            r@ == replace_char(v@.take(i as int), c, rep@),
        decreases v.len() - i,
    {
        assert(v@.take(i + 1).drop_last() =~= v@.take(i as int));
        if v[i] == c {
            push_all(&mut r, rep);
        } else {
            r.push(v[i]);
        }
        i += 1;
    }
    assert(v@.take(v@.len() as int) =~= v@);
    r
}

/// `s` with each leftmost non-overlapping occurrence of the non-empty `pat`
/// replaced by `rep`, as `str::replace`.
pub open spec fn replace_seq(s: Seq<char>, pat: Seq<char>, rep: Seq<char>) -> Seq<char>
    recommends
        pat.len() > 0,
    decreases s.len(),
{
    if s.len() == 0 {
        seq![]
    } else if pat.len() > 0 && occurs_at(s, pat, 0) {
        rep + replace_seq(s.skip(pat.len() as int), pat, rep)
    } else {
        seq![s[0]] + replace_seq(s.drop_first(), pat, rep)
    }
}

/// `str::replace` with a non-empty string pattern, on a character vector.
pub fn replace_seq_exec(v: &[char], pat: &[char], rep: &[char]) -> (r: Vec<char>)
    requires
        pat@.len() > 0,
    ensures
        r@ == replace_seq(v@, pat@, rep@),
{
    let n = v.len();
    let mut r: Vec<char> = Vec::new();
    let mut pos: usize = 0;
    proof {
        assert(v@.subrange(0, n as int) =~= v@);
        assert(r@ + replace_seq(v@, pat@, rep@) =~= replace_seq(v@, pat@, rep@));
    }
    while pos < n
        invariant
            pos <= n == v@.len(),
            pat@.len() > 0,
            replace_seq(v@, pat@, rep@) == r@ + replace_seq(
                v@.subrange(pos as int, n as int),
                pat@,
                rep@,
            ),
        decreases n - pos,
    {
        let ghost s = v@.subrange(pos as int, n as int);
        let ghost before = r@;
        if occurs_at_exec(v, pat, pos) {
            proof {
                assert(s.subrange(0, pat@.len() as int) =~= v@.subrange(
                    pos as int,
                    pos + pat@.len(),
                ));
                assert(s.skip(pat@.len() as int) =~= v@.subrange(pos + pat@.len(), n as int));
            }
            push_all(&mut r, rep);
            proof {
                assert(before + replace_seq(s, pat@, rep@) =~= r@ + replace_seq(
                    v@.subrange(pos + pat@.len(), n as int),
                    pat@,
                    rep@,
                ));
            }
            pos = pos + pat.len();
        } else {
            proof {
                if occurs_at(s, pat@, 0) {
                    assert(s.subrange(0, pat@.len() as int) =~= v@.subrange(
                        pos as int,
                        pos + pat@.len(),
                    ));
                }
                assert(s.drop_first() =~= v@.subrange(pos + 1, n as int));
            }
            r.push(v[pos]);
            proof {
                assert(before + replace_seq(s, pat@, rep@) =~= r@ + replace_seq(
                    v@.subrange(pos + 1, n as int),
                    pat@,
                    rep@,
                ));
            }
            pos = pos + 1;
        }
    }
    proof {
        assert(replace_seq(v@.subrange(n as int, n as int), pat@, rep@) =~= Seq::<char>::empty());
        assert(r@ + Seq::<char>::empty() =~= r@);
    }
    r
}


// ------------------------------------------------------------------ UTF-8 lengths

/// The number of bytes that `c` takes in UTF-8.
pub open spec fn utf8_len(c: char) -> nat {
    let u = c as u32;
    if u < 0x80 {
        1
    } else if u < 0x800 {
        2
    } else if u < 0x10000 {
        3
    } else {
        4
    }
}

/// The number of bytes that `s` takes in UTF-8, as `str::len`.
pub open spec fn byte_len(s: Seq<char>) -> nat
    decreases s.len(),
{
    if s.len() == 0 {
        0
    } else {
        byte_len(s.drop_last()) + utf8_len(s.last())
    }
}

/// Executable [`utf8_len`].
pub fn utf8_len_exec(c: char) -> (r: usize)
    ensures
        r == utf8_len(c),
{
    let u = c as u32;
    if u < 0x80 {
        1
    } else if u < 0x800 {
        2
    } else if u < 0x10000 {
        3
    } else {
        4
    }
}

/// Whether byte offset `k` falls between characters of `s`: some prefix of
/// `s` takes exactly `k` bytes (`str::is_char_boundary`).
pub open spec fn is_boundary(s: Seq<char>, k: int) -> bool {
    exists|i: int| 0 <= i <= s.len() && byte_len(s.take(i)) == k
}

pub proof fn lemma_byte_len_mono(s: Seq<char>, i: int, j: int)
    requires
        0 <= i <= j <= s.len(),
    ensures
        byte_len(s.take(i)) + (j - i) <= byte_len(s.take(j)),
    decreases j - i,
{
    if i < j {
        lemma_byte_len_mono(s, i, j - 1);
        assert(s.take(j).drop_last() =~= s.take(j - 1));
    }
}

/// The character index at which byte offset `k` falls, if it is a boundary.
pub fn char_index_of_byte(v: &[char], k: usize) -> (r: Option<usize>)
    requires
        k < usize::MAX - 4,
    ensures
        match r {
            Some(i) => i <= v@.len() && byte_len(v@.take(i as int)) == k,
            None => !is_boundary(v@, k as int),
        },
{
    let mut i: usize = 0;
    let mut b: usize = 0;
    assert(v@.take(0) =~= Seq::<char>::empty());
    while i < v.len() && b < k
        invariant
            i <= v@.len(),
            b == byte_len(v@.take(i as int)),
            b <= k + 4,
            k < usize::MAX - 4,
            i > 0 ==> byte_len(v@.take(i - 1)) < k,
        decreases v.len() - i,
    {
        assert(v@.take(i + 1).drop_last() =~= v@.take(i as int));
        b = b + utf8_len_exec(v[i]);
        i += 1;
    }
    if b == k {
        Some(i)
    } else {
        proof {
            assert forall|j: int| 0 <= j <= v@.len() implies byte_len(#[trigger] v@.take(j)) != k by {
                if j <= i {
                    if j < i {
                        lemma_byte_len_mono(v@, j, i - 1);
                    }
                } else {
                    lemma_byte_len_mono(v@, i as int, j);
                }
            }
        }
        None
    }
}


/// The sum over `ws` of each word's length plus one.
pub open spec fn sum_lens_plus(ws: Seq<Seq<char>>) -> int
    decreases ws.len(),
{
    if ws.len() == 0 {
        0
    } else {
        sum_lens_plus(ws.drop_last()) + ws.last().len() + 1
    }
}

pub proof fn lemma_sum_lens_plus_prefix(ws: Seq<Seq<char>>, i: int)
    requires
        0 <= i <= ws.len(),
    ensures
        sum_lens_plus(ws.take(i)) <= sum_lens_plus(ws),
    decreases ws.len() - i,
{
    if i < ws.len() {
        lemma_sum_lens_plus_prefix(ws, i + 1);
        assert(ws.take(i + 1).drop_last() =~= ws.take(i));
    } else {
        assert(ws.take(i) =~= ws);
    }
}

proof fn lemma_sum_lens_plus_cons(w: Seq<char>, ws: Seq<Seq<char>>)
    ensures
        sum_lens_plus(seq![w] + ws) == w.len() + 1 + sum_lens_plus(ws),
    decreases ws.len(),
{
    if ws.len() > 0 {
        lemma_sum_lens_plus_cons(w, ws.drop_last());
        assert((seq![w] + ws).drop_last() =~= seq![w] + ws.drop_last());
        assert((seq![w] + ws).last() == ws.last());
    } else {
        assert(seq![w] + ws =~= seq![w]);
        assert(seq![w].drop_last() =~= Seq::<Seq<char>>::empty());
        assert(sum_lens_plus(Seq::<Seq<char>>::empty()) == 0);
        assert(seq![w].last() == w);
        assert(sum_lens_plus(seq![w]) == w.len() + 1);
        assert(sum_lens_plus(ws) == 0);
    }
}

pub proof fn lemma_words_len(s: Seq<char>)
    ensures
        words(s).len() <= s.len(),
        forall|i: int| 0 <= i < words(s).len() ==> (#[trigger] words(s)[i]).len() <= s.len()
            && words(s)[i].len() > 0,
        sum_lens_plus(words(s)) <= s.len() + 1,
    decreases s.len(),
{
    if s.len() > 0 {
        if is_ws(s[0]) {
            lemma_words_len(s.drop_first());
        } else {
            let k = index_ws(s);
            lemma_index_ws_props(s);
            lemma_words_len(s.skip(k as int));
            let r = words(s);
            assert(r == seq![s.take(k as int)] + words(s.skip(k as int)));
            assert forall|i: int| 0 <= i < r.len() implies (#[trigger] r[i]).len() <= s.len()
                && r[i].len() > 0 by {
                if i > 0 {
                    assert(r[i] == words(s.skip(k as int))[i - 1]);
                }
            }
            lemma_sum_lens_plus_cons(s.take(k as int), words(s.skip(k as int)));
            if k == s.len() {
                assert(s.skip(k as int).len() == 0);
            } else {
                assert(s.skip(k as int).drop_first() =~= s.skip(k as int + 1));
                lemma_words_len(s.skip(k as int + 1));
                assert(words(s.skip(k as int)) == words(s.skip(k as int + 1)));
            }
        }
    }
}

} // verus!
