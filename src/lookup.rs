use vstd::prelude::*;
use vstd::string::StringSliceAdditionalSpecFns;
use vstd::utf8::encode_utf8;

use crate::error::LookupError;
use crate::records::{extract_versions, first_is_latest, latest_first, live_versions, records};

verus! {

/// Where the registry index keeps its cache, relative to the home directory.
pub const CACHE_DIR: &'static str = ".cargo/registry/index/github.com-1ecc6299db9ec823/.cache";

/// Relies on dirs::home_dir for the user's home directory. It depends on the
/// environment, so nothing is stated of it; a home directory that is not
/// valid Unicode counts as none.
#[verifier::external_body]
fn home_dir() -> (r: Option<String>) {
    match dirs::home_dir() {
        Some(p) => p.into_os_string().into_string().ok(),
        None => None,
    }
}

/// The cache root under a home directory, when there is one: the home
/// directory followed by the cache's place under it.
pub fn cache_root_under(home: Option<String>) -> (r: Result<Vec<String>, LookupError>)
    ensures
        match home {
            Some(h) => r matches Ok(dirs) && dirs@.len() == 2 && dirs@[0]@ == h@ && dirs@[1]@
                == CACHE_DIR@,
            None => r == Err::<Vec<String>, LookupError>(LookupError::Environment),
        },
{
    match home {
        Some(h) => {
            let mut dirs: Vec<String> = Vec::new();
            dirs.push(h);
            dirs.push(CACHE_DIR.to_owned());
            Ok(dirs)
        },
        None => Err(LookupError::Environment),
    }
}

/// The cache root under the user's home directory.
pub fn cache_root() -> (r: Result<Vec<String>, LookupError>)
    ensures
        r matches Ok(dirs) ==> dirs@.len() == 2 && dirs@[1]@ == CACHE_DIR@,
        r matches Err(e) ==> e == LookupError::Environment,
{
    cache_root_under(home_dir())
}

/// The first of `entries` that is exactly `name`.
pub fn pick_entry(entries: &Vec<String>, name: &str) -> (r: Option<usize>)
    ensures
        match r {
            Some(i) => i < entries@.len() && entries@[i as int]@ == name@ && forall|j: int|
                0 <= j < i ==> (#[trigger] entries@[j])@ != name@,
            None => forall|j: int| 0 <= j < entries@.len() ==> (#[trigger] entries@[j])@ != name@,
        },
{
    let target = name.to_owned();
    let mut i: usize = 0;
    while i < entries.len()
        invariant
            i <= entries@.len(),
            target@ == name@,
            forall|j: int| 0 <= j < i ==> (#[trigger] entries@[j])@ != name@,
        decreases entries@.len() - i,
    {
        if entries[i] == target {
            return Some(i);
        }
        i += 1;
    }
    None
}

/// The live versions of a package's cache file, latest first; `NotFound` when
/// the file holds no live version.
pub fn versions_in(content: &str) -> (r: Result<Vec<String>, LookupError>)
    ensures
        latest_first(content.spec_bytes()).len() == 0 <==> r == Err::<Vec<String>, LookupError>(
            LookupError::NotFound,
        ),
        r is Err ==> r == Err::<Vec<String>, LookupError>(LookupError::NotFound),
        r matches Ok(v) ==> v@.map_values(|s: String| encode_utf8(s@)) == latest_first(
            content.spec_bytes(),
        ),
        r matches Ok(v) ==> encode_utf8(v@[0]@) == live_versions(
            content.spec_bytes(),
            records(content.spec_bytes()),
        ).last(),
{
    let v = extract_versions(content);
    if v.len() == 0 {
        Err(LookupError::NotFound)
    } else {
        proof {
            first_is_latest(content.spec_bytes());
            assert(v@.map_values(|s: String| encode_utf8(s@))[0] == encode_utf8(v@[0]@));
        }
        Ok(v)
    }
}

} // verus!
