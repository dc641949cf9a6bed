use vstd::prelude::*;
use vstd::string::StringExecFns;

verus! {

/// How the moment of writing is spelled in a file's name: year, month, day,
/// hour, minute and second.
pub const STAMP_PATTERN: &'static str = "%Y-%m-%d_%H_%M_%S";

/// The directory that the files go to.
pub open spec fn output_directory(windows: bool) -> Seq<char> {
    if windows {
        seq!['c', ':', '/', 't', 'e', 'm', 'p', '/']
    } else {
        seq!['/', 't', 'm', 'p', '/']
    }
}

/// The path of the file `name`, written at the moment `stamp`, with the
/// extension `suffix`.
pub open spec fn os_path(windows: bool, name: Seq<char>, stamp: Seq<char>, suffix: Seq<char>) -> Seq<
    char,
> {
    output_directory(windows) + name + seq!['_'] + stamp + seq!['.'] + suffix
}

/// Reads the clock with chrono's `Utc::now` and spells the moment with
/// `DateTime::format`, following `pattern`. Nothing is claimed of the text that
/// comes back: it changes with the time of the call. The only pattern admitted
/// is `STAMP_PATTERN`, which chrono can spell for every moment; `Utc::now`
/// itself gives up on a clock that stands before the year 1970.
#[verifier::external_body]
fn utc_stamp(pattern: &str) -> (stamp: String)
    requires
        pattern@ == STAMP_PATTERN@,
{
    chrono::Utc::now().format(pattern).to_string()
}

/// The path of the file `name`, written at the moment `stamp`, with the
/// extension `suffix`: below `c:/temp/` on Windows, and below `/tmp/` elsewhere.
pub fn stamped_path(name: &str, stamp: &str, suffix: &str, windows: bool) -> (path: String)
    ensures
        path@ == os_path(windows, name@, stamp@, suffix@),
{
    proof {
        reveal_strlit("c:/temp/");
        reveal_strlit("/tmp/");
        reveal_strlit("_");
        reveal_strlit(".");
    }
    let mut path = if windows {
        String::from_str("c:/temp/")
    } else {
        String::from_str("/tmp/")
    };
    assert(path@ =~= output_directory(windows));
    path.append(name);
    path.append("_");
    path.append(stamp);
    path.append(".");
    path.append(suffix);
    assert(path@ =~= os_path(windows, name@, stamp@, suffix@));
    path
}

/// A path for a new file `name` with the extension `suffix`. The moment of the
/// call, in universal time, is made part of the name, so that two files written
/// at different seconds do not collide.
pub fn create_os_path(name: &str, suffix: &str, windows: bool) -> (path: String)
    ensures
        exists|stamp: Seq<char>| path@ == os_path(windows, name@, stamp, suffix@),
{
    let stamp = utc_stamp(STAMP_PATTERN);
    let path = stamped_path(name, stamp.as_str(), suffix, windows);
    assert(path@ == os_path(windows, name@, stamp@, suffix@));
    path
}

} // verus!
