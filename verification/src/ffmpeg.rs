//! What the calls to ffmpeg and ffprobe are built from and read back: the
//! output modes, the subtitles filter, the probed dimensions and the
//! progress lines.
use vstd::prelude::*;
use crate::ass::{build_force_style, esc_filter, esc_filter_spec, force_style_ok, force_style_spec, Style};
use crate::num::parse_int;
use crate::pipeline::{with_ext, with_extension_of};
use crate::text::{from_chars, index_of, push_str, slice_chars, to_chars, trim, trim_chars};

verus! {

/// How the subtitles end up in the result.
#[derive(Clone, Copy, Debug, PartialEq, Eq)]
pub enum Mode {
    /// Only the subtitle file.
    Srt,
    /// A subtitle track beside the video.
    Soft,
    /// Drawn into the picture.
    Burn,
}

/// The mode a name stands for, or the message for an unknown one.
pub open spec fn mode_spec(name: Seq<char>) -> Result<Mode, Seq<char>> {
    if name == "srt"@ {
        Ok(Mode::Srt)
    } else if name == "soft"@ {
        Ok(Mode::Soft)
    } else if name == "burn"@ {
        Ok(Mode::Burn)
    } else {
        Err("mode không hợp lệ: "@ + name)
    }
}

fn str_eq(a: &str, b: &str) -> (r: bool)
    ensures
        r == (a@ == b@),
{
    let x = to_chars(a);
    let y = to_chars(b);
    crate::text::chars_eq(x.as_slice(), y.as_slice())
}

/// Reads a mode name: `srt`, `soft` or `burn`, see [`mode_spec`].
pub fn mode_of(name: &str) -> (r: Result<Mode, String>)
    ensures
        match r {
            Ok(m) => mode_spec(name@) == Ok::<Mode, Seq<char>>(m),
            Err(e) => mode_spec(name@) == Err::<Mode, Seq<char>>(e@),
        },
{
    if str_eq(name, "srt") {
        Ok(Mode::Srt)
    } else if str_eq(name, "soft") {
        Ok(Mode::Soft)
    } else if str_eq(name, "burn") {
        Ok(Mode::Burn)
    } else {
        let mut v: Vec<char> = Vec::new();
        push_str(&mut v, "mode không hợp lệ: ");
        push_str(&mut v, name);
        Err(from_chars(v.as_slice()))
    }
}

/// The boxed-band subtitle file written beside a subtitle file: the same
/// path with the extension `ass`.
pub fn band_ass_path(srt: &str) -> (r: String)
    ensures
        r@ == with_extension_of(srt@, "ass"@),
{
    proof {
        reveal_strlit("ass");
    }
    with_ext(srt, "ass")
}

/// `f='path'` for the subtitles filter, the path escaped.
pub open spec fn file_opt(p: Seq<char>) -> Seq<char> {
    "f='"@ + esc_filter_spec(p) + "'"@
}

/// The subtitles filter that burns `srt` into the picture: a boxed style
/// reads the band file beside it, another style adds its `force_style`
/// (when not empty), no style reads the file as it is; a fonts directory,
/// when there is one, is added last.
pub open spec fn burn_filter_spec(srt: Seq<char>, style: Option<Style>, fonts_dir: Option<Seq<char>>) -> Seq<char> {
    let sub = match style {
        Some(s) => if s.box_on {
            file_opt(with_extension_of(srt, "ass"@))
        } else {
            let fs = force_style_spec(Some(s));
            file_opt(srt) + (if fs.len() > 0 {
                ":force_style='"@ + fs + "'"@
            } else {
                seq![]
            })
        },
        None => file_opt(srt),
    };
    let fonts = match fonts_dir {
        Some(d) => ":fontsdir='"@ + esc_filter_spec(d) + "'"@,
        None => seq![],
    };
    "subtitles="@ + sub + fonts
}

fn push_file_opt(v: &mut Vec<char>, p: &str)
    ensures
        final(v)@ == old(v)@ + file_opt(p@),
{
    push_str(v, "f='");
    let e = esc_filter(p);
    push_str(v, e.as_str());
    push_str(v, "'");
}

/// The `-vf` value that burns `srt` in, see [`burn_filter_spec`];
/// `fonts_dir` is the fonts directory when it exists.
#[verifier::rlimit(30)]
pub fn burn_filter(srt: &str, style: Option<&Style>, fonts_dir: Option<&str>) -> (r: String)
    requires
        style matches Some(s) ==> (!s.box_on ==> force_style_ok(*s)),
    ensures
        r@ == burn_filter_spec(
            srt@,
            match style {
                Some(s) => Some(*s),
                None => None,
            },
            match fonts_dir {
                Some(d) => Some(d@),
                None => None,
            },
        ),
{
    let mut v: Vec<char> = Vec::new();
    push_str(&mut v, "subtitles=");
    match style {
        Some(s) => {
            if s.box_on {
                let a = band_ass_path(srt);
                push_file_opt(&mut v, a.as_str());
            } else {
                push_file_opt(&mut v, srt);
                let fs = build_force_style(Some(s));
                if fs.as_str().unicode_len() > 0 {
                    push_str(&mut v, ":force_style='");
                    push_str(&mut v, fs.as_str());
                    push_str(&mut v, "'");
                }
            }
        },
        None => {
            push_file_opt(&mut v, srt);
        },
    }
    match fonts_dir {
        Some(d) => {
            push_str(&mut v, ":fontsdir='");
            let e = esc_filter(d);
            push_str(&mut v, e.as_str());
            push_str(&mut v, "'");
        },
        None => {},
    }
    let ghost st = match style {
        Some(s) => Some(*s),
        None => None,
    };
    let ghost fd = match fonts_dir {
        Some(d) => Some(d@),
        None => None,
    };
    assert(v@ =~= burn_filter_spec(srt@, st, fd));
    from_chars(v.as_slice())
}

/// The width and height that ffprobe printed as `WxH`: the text trimmed,
/// split at `x`, the first two parts trimmed and read as integers; 1920 x
/// 1080 when that fails.
pub open spec fn dims_spec(out: Seq<char>) -> (int, int) {
    let t = trim(out);
    let k = index_of(t, 'x');
    if k >= t.len() {
        (1920, 1080)
    } else {
        let rest = t.skip(k + 1);
        let a = parse_int(trim(t.take(k)));
        let b = parse_int(trim(rest.take(index_of(rest, 'x'))));
        match (a, b) {
            (Some(w), Some(h)) => (w, h),
            _ => (1920, 1080),
        }
    }
}

/// Reads ffprobe's `WxH` output, see [`dims_spec`].
pub fn parse_dimensions(out: &str) -> (r: (i64, i64))
    ensures
        (r.0 as int, r.1 as int) == dims_spec(out@),
{
    let v = to_chars(out);
    let t = trim_chars(v.as_slice());
    let n = t.len();
    let k = crate::text::find_char(t.as_slice(), 'x', 0);
    assert(t@.subrange(0, n as int) =~= t@);
    if k >= n {
        return (1920, 1080);
    }
    let k2 = crate::text::find_char(t.as_slice(), 'x', k + 1);
    let p0 = slice_chars(t.as_slice(), 0, k);
    let p1 = slice_chars(t.as_slice(), k + 1, k2);
    let ghost rest = t@.skip(k + 1);
    assert(rest =~= t@.subrange(k + 1, n as int));
    assert(p1@ =~= rest.take(index_of(rest, 'x')));
    let a = crate::num::parse_i64(trim_chars(p0.as_slice()).as_slice());
    let b = crate::num::parse_i64(trim_chars(p1.as_slice()).as_slice());
    match (a, b) {
        (Some(w), Some(h)) => (w, h),
        _ => (1920, 1080),
    }
}

/// The time an ffmpeg progress line reports: the trimmed integer after a
/// leading `out_time_ms=`.
pub open spec fn out_time_spec(line: Seq<char>) -> Option<int> {
    let p = "out_time_ms="@;
    if line.len() >= p.len() && line.take(p.len() as int) == p {
        parse_int(trim(line.skip(p.len() as int)))
    } else {
        None
    }
}

/// Reads an ffmpeg progress line, see [`out_time_spec`].
pub fn out_time_ms(line: &str) -> (r: Option<i64>)
    ensures
        match r {
            Some(x) => out_time_spec(line@) == Some(x as int),
            None => out_time_spec(line@) is None,
        },
{
    let v = to_chars(line);
    let p = to_chars("out_time_ms=");
    if v.len() < p.len() {
        return None;
    }
    let head = slice_chars(v.as_slice(), 0, p.len());
    if !crate::text::chars_eq(head.as_slice(), p.as_slice()) {
        return None;
    }
    let rest = slice_chars(v.as_slice(), p.len(), v.len());
    assert(rest@ =~= v@.skip(p@.len() as int));
    let t = trim_chars(rest.as_slice());
    crate::num::parse_i64(t.as_slice())
}

} // verus!
