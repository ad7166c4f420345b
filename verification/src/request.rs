//! The token-exchange side: endpoint URLs, form-encoded request bodies
//! for the three OAuth exchanges, and the per-attempt decision of the
//! device-code poll loop.

use vstd::prelude::*;
use vstd::string::StrSliceExecFns;
use vstd::string::StringExecFns;
use crate::config::AppConfig;
use crate::errors::AuthError;
use crate::token::TokenResponse;

verus! {

// ---------------------------------------------------------------------
// Endpoint URLs
// ---------------------------------------------------------------------
/// The provider's device-authorization endpoint for a tenant.
pub open spec fn device_code_url_spec(tenant: Seq<char>) -> Seq<char> {
    "https://login.microsoftonline.com/"@ + tenant + "/oauth2/v2.0/devicecode"@
}

/// The provider's token endpoint for a tenant.
pub open spec fn token_url_spec(tenant: Seq<char>) -> Seq<char> {
    "https://login.microsoftonline.com/"@ + tenant + "/oauth2/v2.0/token"@
}

pub fn device_code_url(tenant: &str) -> (r: String)
    ensures
        r@ == device_code_url_spec(tenant@),
{
    let mut out = "https://login.microsoftonline.com/".to_owned();
    out.append(tenant);
    out.append("/oauth2/v2.0/devicecode");
    out
}

pub fn token_url(tenant: &str) -> (r: String)
    ensures
        r@ == token_url_spec(tenant@),
{
    let mut out = "https://login.microsoftonline.com/".to_owned();
    out.append(tenant);
    out.append("/oauth2/v2.0/token");
    out
}

// ---------------------------------------------------------------------
// Request bodies
// ---------------------------------------------------------------------
/// The key/value pairs of a parameter list, as character sequences.
pub open spec fn pairs_view(v: Seq<(String, String)>) -> Seq<(Seq<char>, Seq<char>)> {
    v.map_values(|p: (String, String)| (p.0@, p.1@))
}

/// Parameters of a device-code issuance request.
pub open spec fn device_params_spec(client_id: Seq<char>, scope: Seq<char>) -> Seq<
    (Seq<char>, Seq<char>),
> {
    seq![("client_id"@, client_id), ("scope"@, scope)]
}

/// Parameters of one poll of the token endpoint during a device flow;
/// the client secret is sent only where the profile has one.
pub open spec fn poll_params_spec(
    client_id: Seq<char>,
    client_secret: Option<Seq<char>>,
    device_code: Seq<char>,
) -> Seq<(Seq<char>, Seq<char>)> {
    seq![
        ("grant_type"@, "urn:ietf:params:oauth:grant-type:device_code"@),
        ("client_id"@, client_id),
    ] + (match client_secret {
        Some(s) => seq![("client_secret"@, s)],
        None => Seq::<(Seq<char>, Seq<char>)>::empty(),
    }) + seq![("device_code"@, device_code)]
}

/// Parameters of a refresh-token exchange.
pub open spec fn refresh_params_spec(
    client_id: Seq<char>,
    refresh_token: Seq<char>,
    scope: Seq<char>,
) -> Seq<(Seq<char>, Seq<char>)> {
    seq![
        ("grant_type"@, "refresh_token"@),
        ("client_id"@, client_id),
        ("refresh_token"@, refresh_token),
        ("scope"@, scope),
    ]
}

pub fn device_code_params(config: &AppConfig) -> (r: Vec<(String, String)>)
    ensures
        pairs_view(r@) == device_params_spec(config.client_id@, config.scope@),
{
    let mut v: Vec<(String, String)> = Vec::new();
    v.push(("client_id".to_owned(), config.client_id.clone()));
    v.push(("scope".to_owned(), config.scope.clone()));
    proof {
        assert(pairs_view(v@) =~= device_params_spec(config.client_id@, config.scope@));
    }
    v
}

pub fn poll_params(config: &AppConfig, device_code: &str) -> (r: Vec<(String, String)>)
    ensures
        pairs_view(r@) == poll_params_spec(
            config.client_id@,
            match config.client_secret {
                Some(s) => Some(s@),
                None => None,
            },
            device_code@,
        ),
{
    let mut v: Vec<(String, String)> = Vec::new();
    v.push((
        "grant_type".to_owned(),
        "urn:ietf:params:oauth:grant-type:device_code".to_owned(),
    ));
    v.push(("client_id".to_owned(), config.client_id.clone()));
    match &config.client_secret {
        Some(s) => {
            v.push(("client_secret".to_owned(), s.clone()));
        },
        None => {},
    }
    v.push(("device_code".to_owned(), device_code.to_owned()));
    proof {
        assert(pairs_view(v@) =~= poll_params_spec(
            config.client_id@,
            match config.client_secret {
                Some(s) => Some(s@),
                None => None,
            },
            device_code@,
        ));
    }
    v
}

pub fn refresh_params(config: &AppConfig, refresh_token: &str) -> (r: Vec<(String, String)>)
    ensures
        pairs_view(r@) == refresh_params_spec(config.client_id@, refresh_token@, config.scope@),
{
    let mut v: Vec<(String, String)> = Vec::new();
    v.push(("grant_type".to_owned(), "refresh_token".to_owned()));
    v.push(("client_id".to_owned(), config.client_id.clone()));
    v.push(("refresh_token".to_owned(), refresh_token.to_owned()));
    v.push(("scope".to_owned(), config.scope.clone()));
    proof {
        assert(pairs_view(v@) =~= refresh_params_spec(
            config.client_id@,
            refresh_token@,
            config.scope@,
        ));
    }
    v
}

/// What serde_urlencoded::to_string returns for a given pair list: the
/// form encoding depends on the pairs alone.
pub uninterp spec fn form_encoded(pairs: Seq<(Seq<char>, Seq<char>)>) -> Seq<char>;

/// Relies on serde_urlencoded::to_string: serializes a sequence of
/// key/value pairs as `k1=v1&k2=v2` with percent-encoding; the result is
/// a function of the pairs alone. On string keys and string values the
/// serializer has no error path — it only appends each pair — so success
/// is promised.
#[verifier::external_body]
fn form_urlencode(pairs: &Vec<(String, String)>) -> (r: Option<String>)
    ensures
        r is Some,
        r matches Some(s) ==> s@ == form_encoded(pairs_view(pairs@)),
{
    match serde_urlencoded::to_string(pairs) {
        Ok(s) => Some(s),
        Err(_) => None,
    }
}

/// The form-encoded body of one device-flow poll, ready to post to the
/// token endpoint.
pub fn poll_request_body(config: &AppConfig, device_code: &str) -> (r: Option<String>)
    ensures
        r is Some,
        r matches Some(s) ==> s@ == form_encoded(
            poll_params_spec(
                config.client_id@,
                match config.client_secret {
                    Some(sec) => Some(sec@),
                    None => None,
                },
                device_code@,
            ),
        ),
{
    let pairs = poll_params(config, device_code);
    form_urlencode(&pairs)
}

/// The form-encoded body of a device-code issuance request.
pub fn device_code_request_body(config: &AppConfig) -> (r: Option<String>)
    ensures
        r is Some,
        r matches Some(s) ==> s@ == form_encoded(
            device_params_spec(config.client_id@, config.scope@),
        ),
{
    let pairs = device_code_params(config);
    form_urlencode(&pairs)
}

/// The form-encoded body of a refresh-token exchange.
pub fn refresh_request_body(config: &AppConfig, refresh_token: &str) -> (r: Option<String>)
    ensures
        r is Some,
        r matches Some(s) ==> s@ == form_encoded(
            refresh_params_spec(config.client_id@, refresh_token@, config.scope@),
        ),
{
    let pairs = refresh_params(config, refresh_token);
    form_urlencode(&pairs)
}

// ---------------------------------------------------------------------
// The poll-loop decision
// ---------------------------------------------------------------------
/// Does `t` occur in `s` as a contiguous run?
pub open spec fn has_substring(s: Seq<char>, t: Seq<char>) -> bool {
    exists|i: int| 0 <= i <= s.len() - t.len() && #[trigger] s.subrange(i, i + t.len()) == t
}

pub(crate) fn match_at(s: &str, t: &str, i: usize) -> (r: bool)
    requires
        i + t@.len() <= s@.len(),
        s@.len() <= usize::MAX,
    ensures
        r == (s@.subrange(i as int, i + t@.len()) == t@),
{
    let m = t.unicode_len();
    let mut k: usize = 0;
    while k < m
        invariant
            m == t@.len(),
            i + m <= s@.len(),
            s@.len() <= usize::MAX,
            k <= m,
            forall|j: int| 0 <= j < k ==> s@[i + j] == t@[j],
        decreases m - k,
    {
        if s.get_char(i + k) != t.get_char(k) {
            proof {
                assert(s@.subrange(i as int, i + t@.len())[k as int] != t@[k as int]);
            }
            return false;
        }
        k += 1;
    }
    proof {
        assert(s@.subrange(i as int, i + t@.len()) =~= t@);
    }
    true
}

/// Substring search, stated exactly: true just where `t` occurs in `s`.
pub fn contains_str(s: &str, t: &str) -> (r: bool)
    ensures
        r == has_substring(s@, t@),
{
    let n = s.unicode_len();
    let m = t.unicode_len();
    if m > n {
        proof {
            assert(!has_substring(s@, t@));
        }
        return false;
    }
    if m == 0 {
        proof {
            assert(s@.subrange(0, 0 + t@.len() as int) =~= t@);
        }
        return true;
    }
    let mut i: usize = 0;
    while i <= n - m
        invariant
            n == s@.len(),
            m == t@.len(),
            0 < m <= n,
            i <= n - m + 1,
            forall|j: int| 0 <= j < i ==> #[trigger] s@.subrange(j, j + t@.len()) != t@,
        decreases n - i,
    {
        if match_at(s, t, i) {
            return true;
        }
        i += 1;
    }
    proof {
        assert(!has_substring(s@, t@));
    }
    false
}

/// What one poll response means for the flow.
#[derive(Debug, PartialEq, Eq, Structural)]
pub enum PollOutcome {
    /// HTTP success: the body carries the new credential.
    Complete,
    /// The human has not finished the browser step yet: wait one
    /// interval and poll again.
    Pending,
    /// A terminal provider failure: abort the flow.
    Abort,
}

/// The provider's sentinel distinguishing expected delay from failure.
pub open spec fn pending_sentinel() -> Seq<char> {
    "authorization_pending"@
}

/// How one poll response is classified: success completes the flow, a
/// failure whose body carries the pending sentinel keeps polling, and
/// any other failure aborts.
pub open spec fn spec_classify(status_success: bool, body: Seq<char>) -> PollOutcome {
    if status_success {
        PollOutcome::Complete
    } else if has_substring(body, pending_sentinel()) {
        PollOutcome::Pending
    } else {
        PollOutcome::Abort
    }
}

/// Classifies one poll of the token endpoint from the HTTP status and
/// the response body.
pub fn classify_poll_response(status_success: bool, body: &str) -> (r: PollOutcome)
    ensures
        r == spec_classify(status_success, body@),
{
    if status_success {
        PollOutcome::Complete
    } else if contains_str(body, "authorization_pending") {
        PollOutcome::Pending
    } else {
        PollOutcome::Abort
    }
}

// ---------------------------------------------------------------------
// The poll loop as a state machine
// ---------------------------------------------------------------------
/// One round trip of the poll loop, as the loop's driver hands it in:
/// either an HTTP success already split into the response's fields,
/// together with the wall-clock time of receipt, or an HTTP failure with
/// its body.
pub enum PollEvent {
    Response {
        access_token: String,
        refresh_token: Option<String>,
        token_type: String,
        expires_in: u64,
        now: u64,
    },
    Failure { body: String },
}

/// What the loop's driver must do after one poll.
pub enum PollStep {
    /// Persist this credential and end the flow.
    Store(TokenResponse),
    /// Authorization is still pending: wait one interval and poll again.
    Continue,
    /// Terminal failure: abort the flow, surfacing the provider's body
    /// verbatim; nothing is persisted.
    Fail(String),
}

/// The poll decision: a success becomes a credential stamped with
/// `expires_at` = receipt time plus `expires_in`; a failure keeps the
/// loop alive only where its body carries the pending sentinel.
pub open spec fn spec_poll_step(e: PollEvent) -> PollStep {
    match e {
        PollEvent::Response { access_token, refresh_token, token_type, expires_in, now } => {
            PollStep::Store(
                TokenResponse {
                    access_token,
                    refresh_token,
                    expires_in,
                    token_type,
                    expires_at: Some((now + expires_in) as u64),
                },
            )
        },
        PollEvent::Failure { body } => {
            if has_substring(body@, pending_sentinel()) {
                PollStep::Continue
            } else {
                PollStep::Fail(body)
            }
        },
    }
}

/// Decides one iteration of the device-code poll loop.
pub fn poll_step(e: PollEvent) -> (r: PollStep)
    requires
        e matches PollEvent::Response { expires_in, now, .. } ==> now + expires_in <= u64::MAX,
    ensures
        r == spec_poll_step(e),
{
    match e {
        PollEvent::Response { access_token, refresh_token, token_type, expires_in, now } => {
            PollStep::Store(
                TokenResponse {
                    access_token,
                    refresh_token,
                    expires_in,
                    token_type,
                    expires_at: Some(now + expires_in),
                },
            )
        },
        PollEvent::Failure { body } => {
            if contains_str(body.as_str(), "authorization_pending") {
                PollStep::Continue
            } else {
                PollStep::Fail(body)
            }
        },
    }
}

/// Decides the outcome of a refresh-token exchange: a success becomes a
/// credential stamped exactly as the poll decision stamps one, and a
/// failure surfaces the provider's body verbatim.
pub fn refresh_step(e: PollEvent) -> (r: Result<TokenResponse, AuthError>)
    requires
        e matches PollEvent::Response { expires_in, now, .. } ==> now + expires_in <= u64::MAX,
    ensures
        e is Response ==> (r matches Ok(t) && spec_poll_step(e) == PollStep::Store(t)),
        match e {
            PollEvent::Failure { body } => r matches Err(err) && err matches
                AuthError::NetworkOrProviderError(b) && b == body,
            _ => true,
        },
{
    match e {
        PollEvent::Response { access_token, refresh_token, token_type, expires_in, now } => {
            Ok(
                TokenResponse {
                    access_token,
                    refresh_token,
                    expires_in,
                    token_type,
                    expires_at: Some(now + expires_in),
                },
            )
        },
        PollEvent::Failure { body } => Err(AuthError::NetworkOrProviderError(body)),
    }
}

/// The whole poll loop over a sequence of round trips: the decision of
/// the first event that is not `Continue`, or `None` when every event so
/// far left the flow pending.
pub open spec fn spec_poll_run(events: Seq<PollEvent>) -> Option<PollStep>
    decreases events.len(),
{
    if events.len() == 0 {
        None
    } else {
        match spec_poll_step(events[0]) {
            PollStep::Continue => spec_poll_run(events.subrange(1, events.len() as int)),
            r => Some(r),
        }
    }
}

/// Polling ignores any run of pending responses: the loop's outcome is
/// the decision of the first decisive event.
pub proof fn lemma_poll_skips_pending(events: Seq<PollEvent>, k: int)
    requires
        0 <= k < events.len(),
        forall|i: int| 0 <= i < k ==> spec_poll_step(#[trigger] events[i]) is Continue,
        !(spec_poll_step(events[k]) is Continue),
    ensures
        spec_poll_run(events) == Some(spec_poll_step(events[k])),
    decreases k,
{
    if k == 0 {
        assert(spec_poll_run(events) == Some(spec_poll_step(events[0])));
    } else {
        assert(spec_poll_step(events[0]) is Continue);
        let tail = events.subrange(1, events.len() as int);
        assert forall|i: int| 0 <= i < k - 1 implies spec_poll_step(
            #[trigger] tail[i],
        ) is Continue by {
            assert(tail[i] == events[i + 1]);
        }
        assert(tail[k - 1] == events[k]);
        lemma_poll_skips_pending(tail, k - 1);
    }
}

/// Any number of "authorization pending" responses followed by one HTTP
/// success ends the loop with the success's credential, whose
/// `expires_at` is the receipt time plus the response's `expires_in`.
pub proof fn lemma_poll_pending_then_success(events: Seq<PollEvent>, k: int)
    requires
        0 <= k < events.len(),
        forall|i: int| 0 <= i < k ==> spec_poll_step(#[trigger] events[i]) is Continue,
        events[k] is Response,
    ensures
        spec_poll_run(events) matches Some(step) && step == spec_poll_step(events[k]),
        spec_poll_run(events) matches Some(step) && step matches PollStep::Store(t) && {
            &&& events[k] matches PollEvent::Response {
                access_token,
                refresh_token,
                token_type,
                expires_in,
                now,
            }
            &&& t.access_token == access_token
            &&& t.refresh_token == refresh_token
            &&& t.token_type == token_type
            &&& t.expires_in == expires_in
            &&& t.expires_at == Some((now + expires_in) as u64)
        },
{
    lemma_poll_skips_pending(events, k);
}

/// Whatever the provider answered, a credential handed to the store is
/// always stamped: its absolute expiry is never absent.
pub proof fn lemma_stored_always_stamped(e: PollEvent)
    ensures
        spec_poll_step(e) matches PollStep::Store(t) ==> t.expires_at is Some,
{
}

/// Any number of pending responses followed by one failure that does not
/// carry the pending sentinel aborts the loop: the provider's body is
/// surfaced verbatim and no credential is stored.
pub proof fn lemma_poll_abort_stores_nothing(events: Seq<PollEvent>, k: int)
    requires
        0 <= k < events.len(),
        forall|i: int| 0 <= i < k ==> spec_poll_step(#[trigger] events[i]) is Continue,
        events[k] matches PollEvent::Failure { body } && !has_substring(
            body@,
            pending_sentinel(),
        ),
    ensures
        spec_poll_run(events) matches Some(step) && step matches PollStep::Fail(b)
            && events[k] matches PollEvent::Failure { body } && b == body,
        !(spec_poll_run(events) matches Some(PollStep::Store(_))),
{
    lemma_poll_skips_pending(events, k);
}

} // verus!
