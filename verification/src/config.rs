//! Profile configuration: the resolved provider settings for one named
//! profile, and the selection of a profile out of a loaded configuration.

use vstd::prelude::*;
use vstd::string::StringExecFns;
use crate::errors::AuthError;

verus! {

/// The resolved configuration of one profile: everything the two OAuth
/// exchanges need to address the provider.
pub struct AppConfig {
    pub client_id: String,
    pub client_secret: Option<String>,
    pub tenant_id: String,
    pub scope: String,
}

/// Relies on dirs::config_dir: the platform's configuration directory,
/// if one can be determined; converted to a string, which fails for a
/// non-UTF-8 path. The result depends on the process environment, so
/// nothing is promised of it.
#[verifier::external_body]
pub(crate) fn config_base_dir() -> Option<String> {
    dirs::config_dir().and_then(|p| p.to_str().map(|s| s.to_string()))
}

/// The path of the configuration file relative to the base directory.
pub open spec fn config_rel_path_spec() -> Seq<char> {
    "msoauth/config.toml"@
}

/// Joins a base directory with the configuration file's fixed relative
/// path: the result is exactly the base, a separator, and
/// `msoauth/config.toml`.
pub fn config_path_in(base: &str) -> (r: String)
    ensures
        r@ == base@ + "/"@ + config_rel_path_spec(),
{
    let mut p = base.to_owned();
    p.append("/");
    p.append("msoauth/config.toml");
    p
}

/// Where the configuration file lives: the platform configuration
/// directory joined by `config_path_in` with a fixed relative path.
/// `None` when no base directory can be determined.
pub fn config_path() -> (r: Option<String>)
    ensures
        r matches Some(p) ==> exists|base: Seq<char>|
            p@ == base + "/"@ + config_rel_path_spec(),
{
    match config_base_dir() {
        Some(base) => Some(config_path_in(base.as_str())),
        None => None,
    }
}

/// Picks the configuration of the named profile out of the loaded
/// configuration: the first entry under that name, or `ProfileNotFound`
/// when no entry carries it.
pub fn select_profile<'a>(entries: &'a Vec<(String, AppConfig)>, name: &str) -> (r: Result<
    &'a AppConfig,
    AuthError,
>)
    ensures
        r matches Ok(c) ==> exists|i: int|
            0 <= i < entries@.len() && (#[trigger] entries@[i].0@) == name@ && *c
                == entries@[i].1 && (forall|j: int| 0 <= j < i ==> entries@[j].0@ != name@),
        r matches Err(e) ==> e is ProfileNotFound && forall|i: int|
            0 <= i < entries@.len() ==> entries@[i].0@ != name@,
{
    let wanted = name.to_owned();
    let n = entries.len();
    let mut k: usize = 0;
    while k < n
        invariant
            n == entries@.len(),
            k <= n,
            wanted@ == name@,
            forall|i: int| 0 <= i < k ==> entries@[i].0@ != name@,
        decreases n - k,
    {
        if entries[k].0 == wanted {
            return Ok(&entries[k].1);
        }
        k += 1;
    }
    Err(AuthError::ProfileNotFound)
}

} // verus!
