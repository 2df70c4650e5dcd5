//! Where the speech model is kept and where it is fetched from. Paths are
//! held as text and joined as `PathBuf::join` joins them on Unix.
use vstd::prelude::*;
use crate::text::{from_chars, push_str, to_chars};

verus! {

/// The whisper model the application uses.
pub const MODEL: &'static str = "large-v3";

/// `comp` appended to `base` as `PathBuf::join` does on Unix: an absolute
/// `comp` replaces `base`, else a `/` goes between them unless `base` is
/// empty or already ends in one.
pub open spec fn joined(base: Seq<char>, comp: Seq<char>) -> Seq<char> {
    if comp.len() > 0 && comp[0] == '/' {
        comp
    } else if base.len() > 0 && base.last() != '/' {
        base + seq!['/'] + comp
    } else {
        base + comp
    }
}

/// Joins two paths, see [`joined`].
pub fn join_path(base: &str, comp: &str) -> (r: String)
    ensures
        r@ == joined(base@, comp@),
{
    let b = to_chars(base);
    let c = to_chars(comp);
    if c.len() > 0 && c[0] == '/' {
        return from_chars(c.as_slice());
    }
    let mut v = b;
    if v.len() > 0 && v[v.len() - 1] != '/' {
        v.push('/');
    }
    crate::text::push_all(&mut v, c.as_slice());
    assert(v@ =~= joined(base@, comp@));
    from_chars(v.as_slice())
}

/// The model's file name.
pub open spec fn model_filename_spec() -> Seq<char> {
    "ggml-large-v3.bin"@
}

/// The model's file name: `ggml-`, the model, `.bin`.
pub fn model_filename() -> (r: String)
    ensures
        r@ == model_filename_spec(),
{
    let mut v: Vec<char> = Vec::new();
    push_str(&mut v, "ggml-");
    push_str(&mut v, MODEL);
    push_str(&mut v, ".bin");
    proof {
        reveal_strlit("ggml-");
        reveal_strlit("large-v3");
        reveal_strlit(".bin");
        reveal_strlit("ggml-large-v3.bin");
    }
    assert(v@ =~= model_filename_spec());
    from_chars(v.as_slice())
}

/// Where the model is downloaded from.
pub open spec fn model_url_spec() -> Seq<char> {
    "https://huggingface.co/ggerganov/whisper.cpp/resolve/main/ggml-large-v3.bin"@
}

/// Where the model is downloaded from: the whisper.cpp repository's files
/// on Hugging Face, then the model's file name.
pub fn model_url() -> (r: String)
    ensures
        r@ == model_url_spec(),
{
    let mut v: Vec<char> = Vec::new();
    push_str(&mut v, "https://huggingface.co/ggerganov/whisper.cpp/resolve/main/");
    let f = model_filename();
    push_str(&mut v, f.as_str());
    proof {
        reveal_strlit("https://huggingface.co/ggerganov/whisper.cpp/resolve/main/");
        reveal_strlit("ggml-large-v3.bin");
        reveal_strlit("https://huggingface.co/ggerganov/whisper.cpp/resolve/main/ggml-large-v3.bin");
    }
    assert(v@ =~= model_url_spec());
    from_chars(v.as_slice())
}

/// Calls `dirs::data_dir` and renders the path as text. It depends on the
/// platform and the environment, so nothing is stated of it.
#[verifier::external_body]
fn platform_data_dir() -> Option<String> {
    dirs::data_dir().map(|p| p.to_string_lossy().into_owned())
}

/// The application's data directory under the platform's data directory
/// `base` (the current directory when there is none).
pub open spec fn data_dir_spec(base: Option<Seq<char>>) -> Seq<char> {
    joined(
        match base {
            Some(b) => b,
            None => "."@,
        },
        "AutoSub"@,
    )
}

/// The models directory under the data directory `data`.
pub open spec fn models_dir_spec(data: Seq<char>) -> Seq<char> {
    joined(data, "models"@)
}

/// The model file under the data directory `data`.
pub open spec fn model_path_spec(data: Seq<char>) -> Seq<char> {
    joined(models_dir_spec(data), model_filename_spec())
}

/// The characters of an optional text.
pub open spec fn opt_chars(o: Option<&str>) -> Option<Seq<char>> {
    match o {
        Some(s) => Some(s@),
        None => None,
    }
}

/// The characters of an optional string.
pub open spec fn opt_string(o: Option<String>) -> Option<Seq<char>> {
    match o {
        Some(s) => Some(s@),
        None => None,
    }
}

/// The application's data directory under the platform's data directory
/// `base`, see [`data_dir_spec`].
pub fn data_dir_in(base: Option<&str>) -> (r: String)
    ensures
        r@ == data_dir_spec(opt_chars(base)),
{
    match base {
        Some(b) => join_path(b, "AutoSub"),
        None => join_path(".", "AutoSub"),
    }
}

/// The models directory under the platform's data directory `base`.
pub fn models_dir_in(base: Option<&str>) -> (r: String)
    ensures
        r@ == models_dir_spec(data_dir_spec(opt_chars(base))),
{
    let d = data_dir_in(base);
    join_path(d.as_str(), "models")
}

/// The model file under the platform's data directory `base`.
pub fn model_path_in(base: Option<&str>) -> (r: String)
    ensures
        r@ == model_path_spec(data_dir_spec(opt_chars(base))),
{
    let d = models_dir_in(base);
    let f = model_filename();
    join_path(d.as_str(), f.as_str())
}

/// The application's data directory: `AutoSub` under the platform's data
/// directory, or under `.` when the platform gives none.
pub fn data_dir() -> (r: String)
    ensures
        exists|b: Option<Seq<char>>| r@ == data_dir_spec(b),
{
    let base = platform_data_dir();
    let r = match &base {
        Some(b) => data_dir_in(Some(b.as_str())),
        None => data_dir_in(None),
    };
    assert(r@ == data_dir_spec(opt_string(base)));
    r
}

/// The directory the model is kept in: `models` under the data directory.
pub fn models_dir() -> (r: String)
    ensures
        exists|b: Option<Seq<char>>| r@ == models_dir_spec(data_dir_spec(b)),
{
    let base = platform_data_dir();
    let r = match &base {
        Some(b) => models_dir_in(Some(b.as_str())),
        None => models_dir_in(None),
    };
    assert(r@ == models_dir_spec(data_dir_spec(opt_string(base))));
    r
}

/// The model file: its file name in the models directory.
pub fn model_path() -> (r: String)
    ensures
        exists|b: Option<Seq<char>>| r@ == model_path_spec(data_dir_spec(b)),
{
    let base = platform_data_dir();
    let r = match &base {
        Some(b) => model_path_in(Some(b.as_str())),
        None => model_path_in(None),
    };
    assert(r@ == model_path_spec(data_dir_spec(opt_string(base))));
    r
}

/// Where the model is written while it downloads: the model path with the
/// extension `part`.
pub fn model_part_path() -> (r: String)
    ensures
        exists|b: Option<Seq<char>>|
            r@ == crate::pipeline::with_extension_of(model_path_spec(data_dir_spec(b)), "part"@),
{
    let p = model_path();
    let ghost b = choose|b: Option<Seq<char>>| p@ == model_path_spec(data_dir_spec(b));
    proof {
        reveal_strlit("part");
    }
    let r = crate::pipeline::with_ext(p.as_str(), "part");
    assert(r@ == crate::pipeline::with_extension_of(model_path_spec(data_dir_spec(b)), "part"@));
    r
}

/// Calls `std::path::Path::exists`. It depends on what is on disk, so
/// nothing is stated of it.
#[verifier::external_body]
pub(crate) fn path_exists(p: &str) -> bool {
    std::path::Path::new(p).exists()
}

/// Calls `dirs::home_dir` and renders the path as text. It depends on the
/// platform and the environment, so nothing is stated of it.
#[verifier::external_body]
fn platform_home_dir() -> Option<String> {
    dirs::home_dir().map(|p| p.to_string_lossy().into_owned())
}

/// A model fetched earlier by hand: its file name in `whisper-models` under
/// the home directory `home`.
pub open spec fn home_model_spec(home: Seq<char>) -> Seq<char> {
    joined(joined(home, "whisper-models"@), model_filename_spec())
}

/// The model file in `whisper-models` under the home directory `home`.
pub fn home_model_path_in(home: &str) -> (r: String)
    ensures
        r@ == home_model_spec(home@),
{
    let d = join_path(home, "whisper-models");
    let f = model_filename();
    join_path(d.as_str(), f.as_str())
}

/// Where the model is looked for, in order: the model path under the
/// platform's data directory `base`, then `whisper-models` under the home
/// directory `home` when there is one.
pub open spec fn model_candidates_spec(base: Option<Seq<char>>, home: Option<Seq<char>>) -> Seq<Seq<char>> {
    seq![model_path_spec(data_dir_spec(base))] + match home {
        Some(h) => seq![home_model_spec(h)],
        None => Seq::<Seq<char>>::empty(),
    }
}

/// The places the model is looked for, see [`model_candidates_spec`].
pub fn model_candidates_in(base: Option<&str>, home: Option<&str>) -> (r: Vec<String>)
    ensures
        crate::align::string_views(r@) == model_candidates_spec(opt_chars(base), opt_chars(home)),
{
    let mut r: Vec<String> = Vec::new();
    r.push(model_path_in(base));
    match home {
        Some(h) => r.push(home_model_path_in(h)),
        None => {},
    }
    assert(crate::align::string_views(r@) =~= model_candidates_spec(opt_chars(base), opt_chars(home)));
    r
}

/// The first of `cands` that `present` says exists, if any.
pub open spec fn found_spec(cands: Seq<Seq<char>>, present: Seq<bool>) -> Option<Seq<char>> {
    let k = crate::tools::first_present(present, 0);
    if k < cands.len() {
        Some(cands[k])
    } else {
        None
    }
}

/// Of `cands`, where `present[k]` says whether `cands[k]` exists, the first
/// that exists; see [`found_spec`].
pub fn find_present(cands: &[String], present: &[bool]) -> (r: Option<String>)
    requires
        cands@.len() == present@.len(),
    ensures
        opt_string(r) == found_spec(crate::align::string_views(cands@), present@),
{
    let ghost cv = crate::align::string_views(cands@);
    let mut i: usize = 0;
    while i < cands.len()
        invariant
            i <= cands@.len() == present@.len(),
            cv == crate::align::string_views(cands@),
            crate::tools::first_present(present@, 0) == crate::tools::first_present(present@, i as int),
        decreases cands.len() - i,
    {
        if present[i] {
            assert(cv[i as int] == cands@[i as int]@);
            return Some(cands[i].clone());
        }
        i += 1;
    }
    None
}

/// The model file to use: the model path under the platform's data
/// directory when it exists, else `~/whisper-models/ggml-large-v3.bin` when
/// that exists, else none. Which files exist and where the platform keeps
/// its directories is not stated; the choice among them is.
pub fn resolve_model_path() -> (r: Option<String>)
    ensures
        exists|b: Option<Seq<char>>, h: Option<Seq<char>>, p: Seq<bool>|
            p.len() == model_candidates_spec(b, h).len()
                && opt_string(r) == #[trigger] found_spec(model_candidates_spec(b, h), p),
{
    let base = platform_data_dir();
    let home = platform_home_dir();
    let b: Option<&str> = match &base {
        Some(x) => Some(x.as_str()),
        None => None,
    };
    let h: Option<&str> = match &home {
        Some(x) => Some(x.as_str()),
        None => None,
    };
    let cands = model_candidates_in(b, h);
    let mut present: Vec<bool> = Vec::new();
    let mut i: usize = 0;
    while i < cands.len()
        invariant
            i <= cands@.len(),
            present@.len() == i,
        decreases cands.len() - i,
    {
        present.push(path_exists(cands[i].as_str()));
        i += 1;
    }
    let r = find_present(cands.as_slice(), present.as_slice());
    assert(opt_string(r) == found_spec(model_candidates_spec(opt_chars(b), opt_chars(h)), present@));
    r
}

/// Whether a model file is on disk where [`resolve_model_path`] looks. It
/// depends on what is on disk, so nothing is stated of it.
pub fn model_exists() -> bool {
    resolve_model_path().is_some()
}

/// Wherever the platform keeps user data, the model file is
/// `AutoSub/models/ggml-large-v3.bin` under it.
pub proof fn law_model_path_suffix(b: Option<Seq<char>>)
    ensures
        crate::align::ends_with(model_path_spec(data_dir_spec(b)), "AutoSub/models/ggml-large-v3.bin"@),
{
    reveal_strlit("AutoSub");
    reveal_strlit("models");
    reveal_strlit("ggml-large-v3.bin");
    reveal_strlit("AutoSub/models/ggml-large-v3.bin");
    reveal_strlit(".");
    let base = match b {
        Some(x) => x,
        None => "."@,
    };
    let d = data_dir_spec(b);
    assert(d.len() >= 7 && d.subrange(d.len() - 7, d.len() as int) =~= "AutoSub"@);
    assert(d.last() == 'b');
    let m = models_dir_spec(d);
    assert(m =~= d + "/models"@) by {
        reveal_strlit("/models");
    }
    let p = model_path_spec(d);
    assert(p =~= d + "/models"@ + seq!['/'] + "ggml-large-v3.bin"@) by {
        reveal_strlit("/models");
    }
    assert(p.skip(p.len() - 32) =~= "AutoSub/models/ggml-large-v3.bin"@) by {
        reveal_strlit("/models");
    }
}

} // verus!
