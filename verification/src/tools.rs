//! The external programs and resources the pipeline uses: the bundled
//! resources directory first, the development tree as a fallback.
use vstd::prelude::*;
use crate::setup::{join_path, joined, path_exists};

verus! {

/// Paths to the tools and bundled resources.
#[derive(Clone, Debug)]
pub struct Tools {
    pub ffmpeg: String,
    pub ffprobe: String,
    pub whisper_cli: String,
    pub fonts_dir: String,
    pub corrections_file: String,
    pub model: String,
}

/// What `std::path::Path::parent` returns for a path with these characters.
pub uninterp spec fn parent_of(p: Seq<char>) -> Option<Seq<char>>;

/// Calls `std::path::Path::parent` and renders the result as text; the
/// result is named [`parent_of`].
#[verifier::external_body]
pub(crate) fn path_parent(p: &str) -> (r: Option<String>)
    ensures
        match r {
            Some(q) => parent_of(p@) == Some(q@),
            None => parent_of(p@) is None,
        },
{
    std::path::Path::new(p).parent().map(|q| q.to_string_lossy().into_owned())
}

/// The index of the first `true` in `present` at `i` or later, or its
/// length when there is none.
pub open spec fn first_present(present: Seq<bool>, i: int) -> int
    decreases present.len() - i,
{
    if i >= present.len() || i < 0 {
        present.len() as int
    } else if present[i] {
        i
    } else {
        first_present(present, i + 1)
    }
}

/// The candidate chosen when `present` says which of `cands` exist: the
/// first that exists, else the first candidate.
pub open spec fn pick_spec(cands: Seq<Seq<char>>, present: Seq<bool>) -> Seq<char> {
    let k = first_present(present, 0);
    if k < cands.len() {
        cands[k]
    } else {
        cands[0]
    }
}

proof fn lemma_first_present(present: Seq<bool>, i: int)
    requires
        0 <= i <= present.len(),
    ensures
        i <= first_present(present, i) <= present.len(),
        first_present(present, i) < present.len() ==> present[first_present(present, i)],
        forall|j: int| i <= j < first_present(present, i) ==> !#[trigger] present[j],
    decreases present.len() - i,
{
    if i < present.len() && !present[i] {
        lemma_first_present(present, i + 1);
    }
}

/// Of `cands`, where `present[k]` says whether `cands[k]` exists, the first
/// that exists, else the first candidate; see [`pick_spec`].
pub fn pick_existing(cands: &[String], present: &[bool]) -> (r: String)
    requires
        cands@.len() == present@.len(),
        cands@.len() >= 1,
    ensures
        r@ == pick_spec(crate::align::string_views(cands@), present@),
{
    let ghost cv = crate::align::string_views(cands@);
    let mut i: usize = 0;
    while i < cands.len()
        invariant
            i <= cands@.len() == present@.len(),
            cv == crate::align::string_views(cands@),
            first_present(present@, 0) == first_present(present@, i as int),
        decreases cands.len() - i,
    {
        if present[i] {
            assert(cv[i as int] == cands@[i as int]@);
            return cands[i].clone();
        }
        i += 1;
    }
    assert(cv[0] == cands@[0]@);
    cands[0].clone()
}

/// The first of `cands` that exists on disk, else the first of them.
fn first_existing(cands: &[String]) -> (r: String)
    requires
        cands@.len() >= 1,
    ensures
        exists|p: Seq<bool>|
            p.len() == cands@.len() && r@ == pick_spec(crate::align::string_views(cands@), p),
{
    let mut present: Vec<bool> = Vec::new();
    let mut i: usize = 0;
    while i < cands.len()
        invariant
            i <= cands@.len(),
            present@.len() == i,
        decreases cands.len() - i,
    {
        present.push(path_exists(cands[i].as_str()));
        i += 1;
    }
    pick_existing(cands, present.as_slice())
}

/// The candidate `res/bundled` or `dev/name` that [`pick_spec`] gives for
/// some answer to which of the two exist.
pub open spec fn picked(r: Seq<char>, res: Seq<char>, bundled: Seq<char>, dev: Seq<char>, name: Seq<char>) -> bool {
    exists|p: Seq<bool>|
        p.len() == 2 && r == pick_spec(seq![joined(res, bundled), joined(dev, name)], p)
}

/// The first of `res/bundled` and `dev/name` that exists, else the first.
fn choose_of(res: &str, bundled: &str, dev: &str, name: &str) -> (r: String)
    ensures
        picked(r@, res@, bundled@, dev@, name@),
{
    let cands = [join_path(res, bundled), join_path(dev, name)];
    let r = first_existing(&cands);
    assert(crate::align::string_views(cands@) =~= seq![joined(res@, bundled@), joined(dev@, name@)]);
    r
}

/// The bundled directory, or the development binaries directory.
pub open spec fn res_dir(manifest: Seq<char>, resource_dir: Option<String>) -> Seq<char> {
    match resource_dir {
        Some(d) => d@,
        None => joined(manifest, "binaries"@),
    }
}

/// What a resolved set of tools holds: each tool is the first of its
/// bundled candidate under `res_dir` and its development candidate that
/// exists, else the bundled one; the model is `model`.
pub open spec fn resolved(t: Tools, manifest: Seq<char>, resource_dir: Option<String>, model: String) -> bool {
    let dev_bin = joined(manifest, "binaries"@);
    let up = parent_of(manifest).unwrap();
    let res = res_dir(manifest, resource_dir);
    &&& picked(t.ffmpeg@, res, "binaries/ffmpeg"@, dev_bin, "ffmpeg"@)
    &&& picked(t.ffprobe@, res, "binaries/ffprobe"@, dev_bin, "ffprobe"@)
    &&& picked(t.whisper_cli@, res, "binaries/whisper-cli"@, dev_bin, "whisper-cli"@)
    &&& picked(t.fonts_dir@, res, "assets/fonts"@, up, "assets/fonts"@)
    &&& picked(t.corrections_file@, res, "corrections.txt"@, up, "webapp/corrections.txt"@)
    &&& t.model == model
}

/// Chooses each tool among the bundled resources `resource_dir` (the
/// development binaries when absent) and the development tree around
/// `manifest_dir`, taking the first that exists.
pub fn resolve(manifest_dir: &str, resource_dir: Option<String>, model: String) -> (t: Tools)
    requires
        parent_of(manifest_dir@) is Some,
    ensures
        resolved(t, manifest_dir@, resource_dir, model),
{
    let dev_bin = join_path(manifest_dir, "binaries");
    let up = match path_parent(manifest_dir) {
        Some(q) => q,
        None => {
            return Tools {
                ffmpeg: String::new(),
                ffprobe: String::new(),
                whisper_cli: String::new(),
                fonts_dir: String::new(),
                corrections_file: String::new(),
                model,
            };
        },
    };
    let res = match &resource_dir {
        Some(d) => d.clone(),
        None => dev_bin.clone(),
    };
    assert(res@ == res_dir(manifest_dir@, resource_dir));
    let ffmpeg = choose_of(res.as_str(), "binaries/ffmpeg", dev_bin.as_str(), "ffmpeg");
    let ffprobe = choose_of(res.as_str(), "binaries/ffprobe", dev_bin.as_str(), "ffprobe");
    let whisper_cli = choose_of(res.as_str(), "binaries/whisper-cli", dev_bin.as_str(), "whisper-cli");
    let fonts_dir = choose_of(res.as_str(), "assets/fonts", up.as_str(), "assets/fonts");
    let corrections_file = choose_of(res.as_str(), "corrections.txt", up.as_str(), "webapp/corrections.txt");
    Tools { ffmpeg, ffprobe, whisper_cli, fonts_dir, corrections_file, model }
}

/// [`resolve`] where `manifest_dir` has a parent directory; `None` where it
/// has none.
pub fn try_resolve(manifest_dir: &str, resource_dir: Option<String>, model: String) -> (r: Option<Tools>)
    ensures
        r is Some <==> parent_of(manifest_dir@) is Some,
        r matches Some(t) ==> resolved(t, manifest_dir@, resource_dir, model),
{
    match path_parent(manifest_dir) {
        Some(_) => Some(resolve(manifest_dir, resource_dir, model)),
        None => None,
    }
}

} // verus!
