//! The decisions of the two pipelines: reading the user's options, where
//! each job's files go, which way a subtitle file is brought in, and the
//! subtitle text each step leaves.
use vstd::prelude::*;
use crate::ass::Style;
use crate::float::{lemma_read_scaled_bound, read_scaled, read_scaled_exec, ScaledRead};
use crate::setup::{join_path, joined};
use crate::srt::{cue_views, hide_before, hide_spec, parse_srt, parse_srt_str, shift, shift_spec, srt_text, write_srt_str, Cue};
use crate::text::{from_chars, push_str, to_chars, trim, trim_chars};
use crate::unicode::{lowercase_of, to_lowercase};
use crate::align::{
    align, align_spec, cue_texts_spec, lemma_weight_sum_mono, split_into_cue_texts, string_views,
    time_bound, weight_sum, word_views, words_in_bound,
};

verus! {

// ------------------------------------------------------------------ options

/// A value of the options object, as far as the pipeline reads it: text,
/// a number (in its decimal rendering), a flag, or anything else.
#[derive(Clone, Debug)]
pub enum JsonValue {
    Str(String),
    Num(String),
    Bool(bool),
    Other,
}

/// An options object: its keys, each once, with their values.
#[derive(Clone, Debug)]
pub struct JsonObject {
    pub fields: Vec<(String, JsonValue)>,
}

/// The value under `k`: the first field with that key.
pub open spec fn lookup(fs: Seq<(String, JsonValue)>, k: Seq<char>) -> Option<JsonValue>
    decreases fs.len(),
{
    if fs.len() == 0 {
        None
    } else if fs[0].0@ == k {
        Some(fs[0].1)
    } else {
        lookup(fs.drop_first(), k)
    }
}

fn lookup_exec<'a>(o: &'a JsonObject, k: &str) -> (r: Option<&'a JsonValue>)
    ensures
        match r {
            Some(v) => lookup(o.fields@, k@) == Some(*v),
            None => lookup(o.fields@, k@) is None,
        },
{
    let kv = to_chars(k);
    let mut i: usize = 0;
    assert(o.fields@.skip(0) =~= o.fields@);
    while i < o.fields.len()
        invariant
            i <= o.fields@.len(),
            kv@ == k@,
            lookup(o.fields@, k@) == lookup(o.fields@.skip(i as int), k@),
        decreases o.fields.len() - i,
    {
        let ghost rest = o.fields@.skip(i as int);
        assert(rest[0] == o.fields@[i as int]);
        assert(rest.drop_first() =~= o.fields@.skip(i + 1));
        let kc = to_chars(o.fields[i].0.as_str());
        if crate::text::chars_eq(kc.as_slice(), kv.as_slice()) {
            return Some(&o.fields[i].1);
        }
        i += 1;
    }
    None
}

/// A non-empty text field.
pub open spec fn str_field(o: JsonObject, k: Seq<char>) -> Option<String> {
    match lookup(o.fields@, k) {
        Some(JsonValue::Str(s)) => if s@.len() > 0 {
            Some(s)
        } else {
            None
        },
        _ => None,
    }
}

/// A flag field, false when absent or not a flag.
pub open spec fn bool_field(o: JsonObject, k: Seq<char>) -> bool {
    match lookup(o.fields@, k) {
        Some(JsonValue::Bool(b)) => b,
        _ => false,
    }
}

/// A numeric field, given as non-empty text or as a number.
pub open spec fn num_field(o: JsonObject, k: Seq<char>) -> Option<String> {
    match lookup(o.fields@, k) {
        Some(JsonValue::Str(s)) => if s@.len() > 0 {
            Some(s)
        } else {
            None
        },
        Some(JsonValue::Num(n)) => Some(n),
        _ => None,
    }
}

fn str_field_exec(o: &JsonObject, k: &str) -> (r: Option<String>)
    ensures
        r == str_field(*o, k@),
{
    match lookup_exec(o, k) {
        Some(JsonValue::Str(s)) => {
            if s.as_str().unicode_len() > 0 {
                Some(s.clone())
            } else {
                None
            }
        },
        _ => None,
    }
}

fn bool_field_exec(o: &JsonObject, k: &str) -> (r: bool)
    ensures
        r == bool_field(*o, k@),
{
    match lookup_exec(o, k) {
        Some(JsonValue::Bool(b)) => *b,
        _ => false,
    }
}

fn num_field_exec(o: &JsonObject, k: &str) -> (r: Option<String>)
    ensures
        r == num_field(*o, k@),
{
    match lookup_exec(o, k) {
        Some(JsonValue::Str(s)) => {
            if s.as_str().unicode_len() > 0 {
                Some(s.clone())
            } else {
                None
            }
        },
        Some(JsonValue::Num(n)) => Some(n.clone()),
        _ => None,
    }
}

/// The style an options object describes, field by field.
pub open spec fn style_of(o: JsonObject) -> Style {
    Style {
        font: str_field(o, "font"@),
        size: num_field(o, "size"@),
        bold: bool_field(o, "bold"@),
        italic: bool_field(o, "italic"@),
        fill: str_field(o, "fill"@),
        outline: num_field(o, "outline"@),
        outline_color: str_field(o, "outline_color"@),
        outline_opacity: num_field(o, "outline_opacity"@),
        box_on: bool_field(o, "box"@),
        box_color: str_field(o, "box_color"@),
        box_opacity: num_field(o, "box_opacity"@),
        align: str_field(o, "align"@),
        margin: num_field(o, "margin"@),
    }
}

/// The style the `style` options describe; none without them.
pub fn style_from_json(style: Option<&JsonObject>) -> (r: Option<Style>)
    ensures
        match style {
            Some(o) => r == Some(style_of(*o)),
            None => r is None,
        },
{
    let s = match style {
        Some(s) => s,
        None => {
            return None;
        },
    };
    Some(
        Style {
            font: str_field_exec(s, "font"),
            size: num_field_exec(s, "size"),
            bold: bool_field_exec(s, "bold"),
            italic: bool_field_exec(s, "italic"),
            fill: str_field_exec(s, "fill"),
            outline: num_field_exec(s, "outline"),
            outline_color: str_field_exec(s, "outline_color"),
            outline_opacity: num_field_exec(s, "outline_opacity"),
            box_on: bool_field_exec(s, "box"),
            box_color: str_field_exec(s, "box_color"),
            box_opacity: num_field_exec(s, "box_opacity"),
            align: str_field_exec(s, "align"),
            margin: num_field_exec(s, "margin"),
        },
    )
}

/// The largest offset held, in milliseconds (about 31,700 years); larger
/// offsets, and infinite ones, are held as this with their sign.
pub const MAX_OFFSET_MS: i64 = 1_000_000_000_000_000;

/// The text of an `offset` option: a number's text, or a string trimmed.
pub open spec fn offset_text(v: Option<JsonValue>) -> Option<Seq<char>> {
    match v {
        Some(JsonValue::Num(n)) => Some(n@),
        Some(JsonValue::Str(s)) => Some(trim(s@)),
        _ => None,
    }
}

/// The offset in milliseconds that an `offset` option gives: its seconds,
/// read as `str::parse::<f64>` reads them, times 1000 and rounded to an
/// integer, halves to even; held within [`MAX_OFFSET_MS`]; 0 when absent,
/// unreadable or NaN.
pub open spec fn offset_ms_spec(v: Option<JsonValue>) -> int {
    match offset_text(v) {
        Some(t) => match read_scaled(t, 3, MAX_OFFSET_MS as nat) {
            ScaledRead::Val(x) => x as int,
            ScaledRead::Over(neg) => if neg {
                -(MAX_OFFSET_MS as int)
            } else {
                MAX_OFFSET_MS as int
            },
            _ => 0,
        },
        None => 0,
    }
}

/// Reads an `offset` option, see [`offset_ms_spec`].
pub fn parse_offset(v: Option<&JsonValue>) -> (r: i64)
    ensures
        r == offset_ms_spec(match v {
            Some(x) => Some(*x),
            None => None,
        }),
{
    let t = match v {
        Some(JsonValue::Num(n)) => to_chars(n.as_str()),
        Some(JsonValue::Str(s)) => {
            let c = to_chars(s.as_str());
            trim_chars(c.as_slice())
        },
        _ => {
            return 0;
        },
    };
    proof {
        lemma_read_scaled_bound(t@, 3, MAX_OFFSET_MS as nat);
    }
    match read_scaled_exec(t.as_slice(), 3, MAX_OFFSET_MS as u128) {
        ScaledRead::Val(x) => x as i64,
        ScaledRead::Over(neg) => {
            if neg {
                0 - MAX_OFFSET_MS
            } else {
                MAX_OFFSET_MS
            }
        },
        _ => 0,
    }
}

// ------------------------------------------------------------------ paths

/// What `std::path::Path::extension` returns for a path with these characters.
pub uninterp spec fn extension_of(p: Seq<char>) -> Option<Seq<char>>;

/// Calls `std::path::Path::extension` and renders it as text; the result is
/// named [`extension_of`].
#[verifier::external_body]
pub(crate) fn path_extension(p: &str) -> (r: Option<String>)
    ensures
        match r {
            Some(e) => extension_of(p@) == Some(e@),
            None => extension_of(p@) is None,
        },
{
    std::path::Path::new(p).extension().map(|e| e.to_string_lossy().into_owned())
}

/// What a path becomes after `std::path::PathBuf::set_extension` with `ext`.
pub uninterp spec fn with_extension_of(p: Seq<char>, ext: Seq<char>) -> Seq<char>;

/// Whether `s` holds no path separator (`/`, nor `\\`).
pub open spec fn no_separator(s: Seq<char>) -> bool {
    forall|i: int| 0 <= i < s.len() ==> #[trigger] s[i] != '/' && s[i] != '\\'
}

/// Calls `std::path::PathBuf::set_extension` on a copy of `p` and renders the
/// result as text; the result is named [`with_extension_of`]. The extension
/// holds no path separator, on which `set_extension` panics.
#[verifier::external_body]
pub(crate) fn with_ext(p: &str, ext: &str) -> (r: String)
    requires
        no_separator(ext@),
    ensures
        r@ == with_extension_of(p@, ext@),
{
    let mut pb = std::path::PathBuf::from(p);
    pb.set_extension(ext);
    pb.to_string_lossy().into_owned()
}

/// The output video of a job: `output.` and the input's extension (`mp4`
/// when it has none) in the job directory.
pub open spec fn output_video_spec(job_dir: Seq<char>, video: Seq<char>) -> Seq<char> {
    let ext = match extension_of(video) {
        Some(e) => if e.len() > 0 {
            e
        } else {
            "mp4"@
        },
        None => "mp4"@,
    };
    joined(job_dir, "output."@ + ext)
}

/// Where a job writes its video, see [`output_video_spec`].
pub fn output_video_path(job_dir: &str, video: &str) -> (r: String)
    ensures
        r@ == output_video_spec(job_dir@, video@),
{
    let ext = match path_extension(video) {
        Some(e) => {
            if e.as_str().unicode_len() > 0 {
                e
            } else {
                "mp4".to_owned()
            }
        },
        None => "mp4".to_owned(),
    };
    let mut name: Vec<char> = Vec::new();
    push_str(&mut name, "output.");
    push_str(&mut name, ext.as_str());
    let n = from_chars(name.as_slice());
    join_path(job_dir, n.as_str())
}

/// A path's extension in lower case, empty when it has none.
pub open spec fn ext_lower_spec(p: Seq<char>) -> Seq<char> {
    lowercase_of(
        match extension_of(p) {
            Some(e) => e,
            None => seq![],
        },
    )
}

/// A path's extension in lower case, see [`ext_lower_spec`].
pub fn ext_lower(p: &str) -> (r: String)
    ensures
        r@ == ext_lower_spec(p@),
{
    let e = match path_extension(p) {
        Some(e) => e,
        None => String::new(),
    };
    to_lowercase(e.as_str())
}

/// Whether a subtitle file's extension says it carries times.
pub open spec fn is_timed_spec(ext: Seq<char>) -> bool {
    ext == "srt"@ || ext == "vtt"@ || ext == "ass"@
}

/// Whether a subtitle file carries times: its extension is `srt`, `vtt` or
/// `ass` in any case.
pub fn is_timed(sub_file: &str) -> (r: bool)
    ensures
        r == is_timed_spec(ext_lower_spec(sub_file@)),
{
    let e = ext_lower(sub_file);
    let v = to_chars(e.as_str());
    let a = to_chars("srt");
    let b = to_chars("vtt");
    let c = to_chars("ass");
    crate::text::chars_eq(v.as_slice(), a.as_slice()) || crate::text::chars_eq(v.as_slice(), b.as_slice())
        || crate::text::chars_eq(v.as_slice(), c.as_slice())
}

// ------------------------------------------------------------------ plans

/// The options of an automatic run, as the pipeline reads them.
#[derive(Clone, Debug)]
pub struct RunOptions {
    pub language: Option<String>,
    pub mode: Option<String>,
    pub offset: Option<JsonValue>,
    pub style: Option<JsonObject>,
}

/// What an automatic run does: its language and mode, its files, whether it
/// hides the speech before an offset, and the style it burns with.
#[derive(Clone, Debug)]
pub struct AutoPlan {
    pub lang: String,
    pub mode: String,
    pub wav: String,
    pub srt: String,
    pub out: String,
    pub hide_before_ms: Option<i64>,
    pub style: Option<Style>,
}

/// The text of an optional string, or `d`.
pub open spec fn opt_or(o: Option<String>, d: Seq<char>) -> Seq<char> {
    match o {
        Some(s) => s@,
        None => d,
    }
}

/// What an automatic run does with these options: Vietnamese and burning by
/// default; audio and subtitles in the job directory; the output is the
/// subtitle file in `srt` mode, else a video; speech before a positive offset
/// is hidden; the style applies when burning.
pub open spec fn auto_plan_ok(p: AutoPlan, job_dir: Seq<char>, video: Seq<char>, o: RunOptions) -> bool {
    let mode = opt_or(o.mode, "burn"@);
    let off = offset_ms_spec(o.offset);
    &&& p.lang@ == opt_or(o.language, "vi"@)
    &&& p.mode@ == mode
    &&& p.wav@ == joined(job_dir, "audio.wav"@)
    &&& p.srt@ == joined(job_dir, "output.srt"@)
    &&& p.out@ == (if mode == "srt"@ {
        joined(job_dir, "output.srt"@)
    } else {
        output_video_spec(job_dir, video)
    })
    &&& p.hide_before_ms == (if off > 0 {
        Some(off as i64)
    } else {
        None
    })
    &&& p.style == (if mode == "burn"@ {
        match o.style {
            Some(s) => Some(style_of(s)),
            None => None,
        }
    } else {
        None
    })
}

fn str_is(s: &str, lit: &str) -> (r: bool)
    ensures
        r == (s@ == lit@),
{
    let a = to_chars(s);
    let b = to_chars(lit);
    crate::text::chars_eq(a.as_slice(), b.as_slice())
}

/// Plans an automatic run, see [`auto_plan_ok`].
pub fn auto_plan(job_dir: &str, video: &str, opts: &RunOptions) -> (p: AutoPlan)
    ensures
        auto_plan_ok(p, job_dir@, video@, *opts),
{
    let lang = match &opts.language {
        Some(l) => l.clone(),
        None => "vi".to_owned(),
    };
    let mode = match &opts.mode {
        Some(m) => m.clone(),
        None => "burn".to_owned(),
    };
    let off = parse_offset(opts.offset.as_ref());
    let srt = join_path(job_dir, "output.srt");
    let out = if str_is(mode.as_str(), "srt") {
        join_path(job_dir, "output.srt")
    } else {
        output_video_path(job_dir, video)
    };
    let style = if str_is(mode.as_str(), "burn") {
        style_from_json(opts.style.as_ref())
    } else {
        None
    };
    AutoPlan {
        lang,
        mode,
        wav: join_path(job_dir, "audio.wav"),
        srt,
        out,
        hide_before_ms: if off > 0 {
            Some(off)
        } else {
            None
        },
        style,
    }
}

/// The settings of a merge run: its language (Vietnamese by default), its
/// mode (burning by default), its offset in milliseconds, and the style when
/// burning.
#[derive(Clone, Debug)]
pub struct MergeSettings {
    pub lang: String,
    pub mode: String,
    pub offset_ms: i64,
    pub style: Option<Style>,
}

/// Reads the settings of a merge run from its options.
pub fn merge_settings(opts: &RunOptions) -> (r: MergeSettings)
    ensures
        r.lang@ == opt_or(opts.language, "vi"@),
        r.mode@ == opt_or(opts.mode, "burn"@),
        r.offset_ms == offset_ms_spec(opts.offset),
        r.style == (if r.mode@ == "burn"@ {
            match opts.style {
                Some(s) => Some(style_of(s)),
                None => None,
            }
        } else {
            None
        }),
{
    let lang = match &opts.language {
        Some(l) => l.clone(),
        None => "vi".to_owned(),
    };
    let mode = match &opts.mode {
        Some(m) => m.clone(),
        None => "burn".to_owned(),
    };
    let style = if str_is(mode.as_str(), "burn") {
        style_from_json(opts.style.as_ref())
    } else {
        None
    };
    MergeSettings { lang, mode, offset_ms: parse_offset(opts.offset.as_ref()), style }
}

/// What merging a subtitle file does: its files, and whether the file
/// carries times (then it is converted and shifted) or is plain text (then
/// it is aligned to the speech).
#[derive(Clone, Debug)]
pub struct MergePlan {
    pub srt: String,
    pub out: String,
    pub timed: bool,
    pub tmp: String,
    pub wav: String,
}

/// Plans a merge of `sub_file` into `video` in `mode`.
pub fn merge_plan(job_dir: &str, video: &str, sub_file: &str, mode: &str) -> (p: MergePlan)
    ensures
        p.srt@ == joined(job_dir@, "output.srt"@),
        p.tmp@ == joined(job_dir@, "src.srt"@),
        p.wav@ == joined(job_dir@, "audio.wav"@),
        p.timed == is_timed_spec(ext_lower_spec(sub_file@)),
        p.out@ == (if mode@ == "srt"@ {
            joined(job_dir@, "output.srt"@)
        } else {
            output_video_spec(job_dir@, video@)
        }),
{
    let out = if str_is(mode, "srt") {
        join_path(job_dir, "output.srt")
    } else {
        output_video_path(job_dir, video)
    };
    MergePlan {
        srt: join_path(job_dir, "output.srt"),
        out,
        timed: is_timed(sub_file),
        tmp: join_path(job_dir, "src.srt"),
        wav: join_path(job_dir, "audio.wav"),
    }
}

/// Whether a timed subtitle file must be converted to SRT first: its
/// extension is not `srt`.
pub fn needs_conversion(sub_file: &str) -> (r: bool)
    ensures
        r == (ext_lower_spec(sub_file@) != "srt"@),
{
    let e = ext_lower(sub_file);
    !str_is(e.as_str(), "srt")
}

// ------------------------------------------------------------------ subtitle steps

/// Whether every cue stays within `i64` when shifted by `offset`.
pub open spec fn shift_fits(cs: Seq<Cue>, offset: int) -> bool {
    forall|i: int|
        0 <= i < cs.len() ==> i64::MIN <= #[trigger] cs[i].start + offset <= i64::MAX && i64::MIN
            <= cs[i].end + offset <= i64::MAX
}

fn shift_fits_exec(cs: &Vec<Cue>, offset: i64) -> (r: bool)
    ensures
        r == shift_fits(cs@, offset as int),
{
    let mut i: usize = 0;
    while i < cs.len()
        invariant
            i <= cs@.len(),
            forall|k: int|
                0 <= k < i ==> i64::MIN <= #[trigger] cs@[k].start + offset <= i64::MAX && i64::MIN
                    <= cs@[k].end + offset <= i64::MAX,
        decreases cs.len() - i,
    {
        let s = cs[i].start as i128 + offset as i128;
        let e = cs[i].end as i128 + offset as i128;
        if s < i64::MIN as i128 || s > i64::MAX as i128 || e < i64::MIN as i128 || e > i64::MAX as i128 {
            return false;
        }
        i += 1;
    }
    true
}

/// The subtitle file of an automatic run after hiding what is said before
/// `t` milliseconds.
pub fn hide_srt(content: &str, t: i64) -> (r: String)
    ensures
        r@ == srt_text(hide_spec(parse_srt(content@), t as int)),
{
    let cues = parse_srt_str(content);
    let hidden = hide_before(cues.as_slice(), t);
    write_srt_str(hidden.as_slice())
}

/// A timed subtitle file shifted by `offset` milliseconds; `None` when a
/// shifted time leaves the `i64` range.
pub fn shift_srt(content: &str, offset: i64) -> (r: Option<String>)
    ensures
        match r {
            Some(s) => s@ == srt_text(shift_spec(parse_srt(content@), offset as int)),
            None => exists|cs: Seq<Cue>| cue_views(cs) == parse_srt(content@) && !shift_fits(cs, offset as int),
        },
{
    let cues = parse_srt_str(content);
    if !shift_fits_exec(&cues, offset) {
        return None;
    }
    let moved = shift(cues.as_slice(), offset);
    Some(write_srt_str(moved.as_slice()))
}

fn weights_fit(ts: &Vec<String>) -> (r: bool)
    ensures
        r == (weight_sum(string_views(ts@)) < 0x100_0000_0000),
{
    let ghost sv = string_views(ts@);
    let mut sum: u64 = 0;
    let mut i: usize = 0;
    while i < ts.len()
        invariant
            i <= ts@.len(),
            sv == string_views(ts@),
            sum == weight_sum(sv.take(i as int)),
            sum < 0x100_0000_0000,
        decreases ts.len() - i,
    {
        assert(sv.take(i + 1).drop_last() =~= sv.take(i as int));
        assert(sv.take(i + 1).last() == ts@[i as int]@);
        let n = ts[i].as_str().unicode_len() as u64;
        let w: u64 = if n == 0 {
            1
        } else if n >= 0x100_0000_0000 {
            proof {
                lemma_weight_sum_mono(sv, i + 1);
            }
            return false;
        } else {
            n
        };
        if sum + w >= 0x100_0000_0000 {
            proof {
                lemma_weight_sum_mono(sv, i + 1);
            }
            return false;
        }
        sum = sum + w;
        i += 1;
    }
    assert(sv.take(ts@.len() as int) =~= sv);
    true
}

fn words_fit(ws: &[(String, i64, i64)]) -> (r: bool)
    ensures
        r == words_in_bound(word_views(ws@)),
{
    let mut i: usize = 0;
    while i < ws.len()
        invariant
            i <= ws@.len(),
            forall|k: int|
                0 <= k < i ==> -time_bound() <= (#[trigger] word_views(ws@)[k]).1 <= time_bound()
                    && -time_bound() <= word_views(ws@)[k].2 <= time_bound(),
        decreases ws.len() - i,
    {
        let b: i64 = 0x1000_0000_0000_0000;
        assert(b == time_bound());
        if ws[i].1 < -b || ws[i].1 > b || ws[i].2 < -b || ws[i].2 > b {
            assert(word_views(ws@)[i as int].1 == ws@[i as int].1);
            return false;
        }
        assert(word_views(ws@)[i as int].1 == ws@[i as int].1);
        i += 1;
    }
    true
}

/// The subtitle file for plain text aligned to the recognised words: the
/// text split into cues of at most 90 characters, the cues timed by the
/// words, then shifted by `offset` milliseconds. `None` when the text or the
/// times are too large to compute with.
pub fn aligned_srt(text: &str, words: &[(String, i64, i64)], offset: i64) -> (r: Option<String>)
    ensures
        r matches Some(s) ==> exists|cs: Seq<Cue>|
            cue_views(cs) == align_spec(cue_texts_spec(text@, 90), word_views(words@))
                && shift_fits(cs, offset as int)
                && s@ == srt_text(shift_spec(cue_views(cs), offset as int)),
        r is None ==> weight_sum(cue_texts_spec(text@, 90)) >= 0x100_0000_0000
            || !words_in_bound(word_views(words@))
            || exists|cs: Seq<Cue>|
                cue_views(cs) == align_spec(cue_texts_spec(text@, 90), word_views(words@))
                    && !shift_fits(cs, offset as int),
{
    let texts = split_into_cue_texts(text, 90);
    if !weights_fit(&texts) || !words_fit(words) {
        return None;
    }
    let cues = align(texts.as_slice(), words);
    if !shift_fits_exec(&cues, offset) {
        return None;
    }
    let moved = shift(cues.as_slice(), offset);
    Some(write_srt_str(moved.as_slice()))
}

/// The non-empty text held under `k`, if any.
pub open spec fn text_under(fs: Seq<(String, JsonValue)>, k: Seq<char>) -> Option<Seq<char>> {
    match lookup(fs, k) {
        Some(JsonValue::Str(s)) => if s@.len() > 0 {
            Some(s@)
        } else {
            None
        },
        _ => None,
    }
}

/// The number under `k` as text (a number, or non-empty text), if any.
pub open spec fn number_under(fs: Seq<(String, JsonValue)>, k: Seq<char>) -> Option<Seq<char>> {
    match lookup(fs, k) {
        Some(JsonValue::Num(n)) => Some(n@),
        _ => text_under(fs, k),
    }
}

/// Whether the flag under `k` is set.
pub open spec fn flag_under(fs: Seq<(String, JsonValue)>, k: Seq<char>) -> bool {
    lookup(fs, k) == Some(JsonValue::Bool(true))
}

/// The characters of an optional string.
pub open spec fn opt_view(o: Option<String>) -> Option<Seq<char>> {
    match o {
        Some(s) => Some(s@),
        None => None,
    }
}

/// Each field of a style is read from the option of its own name: `font`,
/// `fill`, `outline_color`, `box_color` and `align` as non-empty text;
/// `size`, `outline`, `outline_opacity`, `box_opacity` and `margin` as
/// numbers or non-empty text; `bold`, `italic` and `box` as flags. So a
/// field changes only with its own option.
pub proof fn law_style_fields_by_key(o: JsonObject)
    ensures
        opt_view(style_of(o).font) == text_under(o.fields@, "font"@),
        opt_view(style_of(o).fill) == text_under(o.fields@, "fill"@),
        opt_view(style_of(o).outline_color) == text_under(o.fields@, "outline_color"@),
        opt_view(style_of(o).box_color) == text_under(o.fields@, "box_color"@),
        opt_view(style_of(o).align) == text_under(o.fields@, "align"@),
        opt_view(style_of(o).size) == number_under(o.fields@, "size"@),
        opt_view(style_of(o).outline) == number_under(o.fields@, "outline"@),
        opt_view(style_of(o).outline_opacity) == number_under(o.fields@, "outline_opacity"@),
        opt_view(style_of(o).box_opacity) == number_under(o.fields@, "box_opacity"@),
        opt_view(style_of(o).margin) == number_under(o.fields@, "margin"@),
        style_of(o).bold == flag_under(o.fields@, "bold"@),
        style_of(o).italic == flag_under(o.fields@, "italic"@),
        style_of(o).box_on == flag_under(o.fields@, "box"@),
{
}

} // verus!
