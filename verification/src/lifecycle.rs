//! The lifecycle orchestrator's decisions: which operation the command
//! line selects, when a stored credential is returned as-is, when a
//! refresh is owed, and when a refresh can be attempted at all.

use vstd::prelude::*;
use crate::errors::AuthError;
use crate::token::TokenResponse;
use crate::token::spec_token_valid;
use crate::token::token_valid;

verus! {

/// The command-line flags, resolved to plain values.
pub struct Cli {
    /// Print the current access token, refreshing first if needed.
    pub print_token: bool,
    /// Force a token refresh.
    pub refresh: bool,
    /// Start the device login flow.
    pub login: bool,
    /// Delete the saved token file.
    pub clear_token: bool,
    /// Profile name; the default profile when absent.
    pub profile: Option<String>,
}

/// The operation one invocation performs.
#[derive(Debug, PartialEq, Eq, Structural)]
pub enum Command {
    /// Print a usable access token, refreshing first if the stored one
    /// is unusable.
    PrintToken,
    /// Unconditionally refresh the stored credential.
    Refresh,
    /// Run the full device-code flow.
    Login,
    /// Remove the stored credential.
    ClearToken,
    /// No flag: try a refresh, and fall back to a device login on any
    /// refresh failure.
    Default,
}

/// Which operation the flags select, in the tool's precedence order:
/// clearing wins over printing, printing over refresh, refresh over
/// login; with no flag set, the default fallback operation runs.
pub open spec fn spec_command_of(cli: Cli) -> Command {
    if cli.clear_token {
        Command::ClearToken
    } else if cli.print_token {
        Command::PrintToken
    } else if cli.refresh {
        Command::Refresh
    } else if cli.login {
        Command::Login
    } else {
        Command::Default
    }
}

/// Resolves the flags to the operation to perform.
pub fn command_of(cli: &Cli) -> (r: Command)
    ensures
        r == spec_command_of(*cli),
{
    if cli.clear_token {
        Command::ClearToken
    } else if cli.print_token {
        Command::PrintToken
    } else if cli.refresh {
        Command::Refresh
    } else if cli.login {
        Command::Login
    } else {
        Command::Default
    }
}

/// The name under which configuration and credential are looked up: the
/// `--profile` argument, or `"default"`.
pub fn profile_name(cli: &Cli) -> (r: &str)
    ensures
        cli.profile matches Some(p) ==> r@ == p@,
        cli.profile is None ==> r@ == "default"@,
{
    match &cli.profile {
        Some(p) => p.as_str(),
        None => "default",
    }
}

/// What the get-token operation does next, once the store has answered.
pub enum GetTokenPlan {
    /// The stored credential is still usable: hand out its access token
    /// unchanged.
    UseStored(String),
    /// Absent, unusable or expired: a refresh is owed before any token
    /// can be handed out.
    MustRefresh,
}

/// Decides the get-token operation from the store's answer and the
/// clock: a stored, usable credential is returned as it stands, and
/// everything else forces a refresh.
pub fn get_token_plan(stored: &Option<TokenResponse>, now: u64) -> (r: GetTokenPlan)
    ensures
        (stored matches Some(t) && spec_token_valid(*t, now)) ==> (r matches
            GetTokenPlan::UseStored(a) && stored matches Some(t) && a@ == t.access_token@),
        !(stored matches Some(t) && spec_token_valid(*t, now)) ==> r is MustRefresh,
{
    match stored {
        Some(t) => {
            if token_valid(t, now) {
                GetTokenPlan::UseStored(t.access_token.clone())
            } else {
                GetTokenPlan::MustRefresh
            }
        },
        None => GetTokenPlan::MustRefresh,
    }
}

/// Whether a refresh can be attempted: it needs a stored credential that
/// carries a refresh token. A missing record is the distinguished
/// not-found condition; a record without a refresh token can only be
/// replaced by a new device login.
pub fn refresh_plan(stored: &Option<TokenResponse>) -> (r: Result<String, AuthError>)
    ensures
        match stored {
            Some(t) => match t.refresh_token {
                Some(rt) => r matches Ok(x) && x@ == rt@,
                None => r matches Err(e) && e is MissingRefreshToken,
            },
            None => r matches Err(e) && e is TokenFileNotFound,
        },
{
    match stored {
        Some(t) => {
            match &t.refresh_token {
                Some(rt) => Ok(rt.clone()),
                None => Err(AuthError::MissingRefreshToken),
            }
        },
        None => Err(AuthError::TokenFileNotFound),
    }
}

/// What the default (flagless) operation does after its refresh attempt:
/// success ends the invocation, any failure falls back to a device
/// login rather than surfacing the error.
#[derive(Debug, PartialEq, Eq, Structural)]
pub enum DefaultNext {
    Done,
    FallBackToLogin,
}

/// Decides the default operation's second step from the outcome of its
/// refresh attempt.
pub fn default_fallback(refresh_succeeded: bool) -> (r: DefaultNext)
    ensures
        r == (if refresh_succeeded {
            DefaultNext::Done
        } else {
            DefaultNext::FallBackToLogin
        }),
{
    if refresh_succeeded {
        DefaultNext::Done
    } else {
        DefaultNext::FallBackToLogin
    }
}

} // verus!
