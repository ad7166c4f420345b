//! The credential record and the expiry policy.

use vstd::prelude::*;
use vstd::string::StringExecFns;

verus! {

/// Safety margin, in seconds, subtracted from a token's nominal expiry:
/// a token that expires within this window counts as unusable, so that a
/// downstream consumer never holds a token that lapses mid-request.
pub const SKEW_SECS: u64 = 300;

/// One cached credential, as persisted per profile.
///
/// `expires_at` is the absolute expiry in epoch seconds, stamped by this
/// system as time-of-receipt plus `expires_in`; a record that lacks it is
/// treated as unusable, never as an error.
pub struct TokenResponse {
    pub access_token: String,
    pub refresh_token: Option<String>,
    pub expires_in: u64,
    pub token_type: String,
    pub expires_at: Option<u64>,
}

/// What the expiry policy holds of a record at wall-clock time `now`:
/// usable only if an absolute expiry is present and lies strictly beyond
/// `now` plus the skew margin.
pub open spec fn spec_token_valid(token: TokenResponse, now: u64) -> bool {
    match token.expires_at {
        Some(e) => e > now + SKEW_SECS,
        None => false,
    }
}

/// The expiry policy: is the stored credential still usable at `now`?
pub fn token_valid(token: &TokenResponse, now: u64) -> (r: bool)
    ensures
        r == spec_token_valid(*token, now),
{
    match token.expires_at {
        Some(e) => e > SKEW_SECS && e - SKEW_SECS - 1 >= now,
        None => false,
    }
}

/// The path of a profile's credential record, relative to the base
/// configuration directory.
pub open spec fn token_rel_path_spec(profile: Seq<char>) -> Seq<char> {
    "msoauth/"@ + profile + ".json"@
}

/// Builds the relative path of a profile's credential record.
pub fn token_rel_path(profile: &str) -> (r: String)
    ensures
        r@ == token_rel_path_spec(profile@),
{
    let mut out = "msoauth/".to_owned();
    out.append(profile);
    out.append(".json");
    out
}

/// Joins a base directory with a profile's relative record path: the
/// result is exactly the base, a separator, and `msoauth/<profile>.json`,
/// so for any one base it is deterministic in the profile and, by
/// `lemma_token_paths_distinct`, collision-free across profiles.
pub fn token_path_in(base: &str, profile: &str) -> (r: String)
    ensures
        r@ == base@ + "/"@ + token_rel_path_spec(profile@),
{
    let mut p = base.to_owned();
    p.append("/");
    let rel = token_rel_path(profile);
    p.append(rel.as_str());
    p
}

/// Where a profile's credential record lives: the platform configuration
/// directory joined by `token_path_in` with the profile's relative path.
/// `None` when no base directory can be determined.
pub fn token_path(profile: &str) -> (r: Option<String>)
    ensures
        r matches Some(p) ==> exists|base: Seq<char>|
            p@ == base + "/"@ + token_rel_path_spec(profile@),
{
    match crate::config::config_base_dir() {
        Some(base) => Some(token_path_in(base.as_str(), profile)),
        None => None,
    }
}

/// No two profiles collide on one storage path: the relative path is
/// injective in the profile name.
pub proof fn lemma_token_paths_distinct(p1: Seq<char>, p2: Seq<char>)
    requires
        p1 != p2,
    ensures
        token_rel_path_spec(p1) != token_rel_path_spec(p2),
{
    reveal_strlit("msoauth/");
    reveal_strlit(".json");
    let a1 = token_rel_path_spec(p1);
    let a2 = token_rel_path_spec(p2);
    if p1.len() != p2.len() {
        assert(a1.len() != a2.len());
    } else {
        assert(!(p1 =~= p2));
        let k = choose|k: int| 0 <= k < p1.len() && p1[k] != p2[k];
        assert(a1[8 + k] == p1[k]);
        assert(a2[8 + k] == p2[k]);
    }
}

} // verus!
