//! Naming of jobs: each run works in a directory of its own under the
//! application's data directory, named by the time it started.
use vstd::prelude::*;
use crate::num::{fmt_hex, hex_str};
use crate::setup::{data_dir, data_dir_spec, join_path, joined};
use crate::text::from_chars;

verus! {

/// A job's name: the time in nanoseconds, in lower-case hexadecimal.
pub fn job_id_of(nanos: u128) -> (r: String)
    ensures
        r@ == hex_str(nanos as nat, false),
{
    let v = fmt_hex(nanos, false);
    from_chars(v.as_slice())
}

/// Reads the system clock as nanoseconds since the Unix epoch; `None` when
/// the clock is before the epoch. It depends on the time, so nothing is
/// stated of it.
#[verifier::external_body]
fn unix_nanos() -> Option<u128> {
    std::time::SystemTime::now().duration_since(std::time::UNIX_EPOCH).ok().map(|d| d.as_nanos())
}

/// A new job's name: the current time in nanoseconds (0 when the clock is
/// before the epoch), see [`job_id_of`].
pub fn job_id() -> (r: String)
    ensures
        exists|n: nat| r@ == hex_str(n, false),
{
    let n = match unix_nanos() {
        Some(n) => n,
        None => 0,
    };
    job_id_of(n)
}

/// The directory of the job `id` under the data directory `data`.
pub open spec fn job_dir_spec(data: Seq<char>, id: Seq<char>) -> Seq<char> {
    joined(joined(data, "jobs"@), id)
}

/// The directory of the job `id` under the data directory `data`, see
/// [`job_dir_spec`].
pub fn job_dir_in(data: &str, id: &str) -> (r: String)
    ensures
        r@ == job_dir_spec(data@, id@),
{
    let j = join_path(data, "jobs");
    join_path(j.as_str(), id)
}

/// A new job's directory: `jobs` and a new job name under the data directory.
pub fn new_job_dir() -> (r: String)
    ensures
        exists|b: Option<Seq<char>>, n: nat| r@ == job_dir_spec(data_dir_spec(b), hex_str(n, false)),
{
    let d = data_dir();
    let id = job_id();
    let ghost b = choose|b: Option<Seq<char>>| d@ == data_dir_spec(b);
    let ghost n = choose|n: nat| id@ == hex_str(n, false);
    let r = job_dir_in(d.as_str(), id.as_str());
    assert(r@ == job_dir_spec(data_dir_spec(b), hex_str(n, false)));
    r
}

} // verus!
