use msoauth::codec::{decode_stored, encode_token, parse_token, ReadOutcome};
use msoauth::config::{config_path, config_path_in, select_profile, AppConfig};
use msoauth::errors::AuthError;
use msoauth::lifecycle::{
    command_of, default_fallback, get_token_plan, profile_name, refresh_plan, Cli, Command,
    DefaultNext, GetTokenPlan,
};
use msoauth::request::{
    classify_poll_response, device_code_request_body, device_code_url, poll_request_body,
    poll_step, refresh_request_body, refresh_step, token_url, PollEvent, PollOutcome, PollStep,
};
use msoauth::token::{token_path, token_path_in, token_rel_path, token_valid, TokenResponse};

fn sample_token(refresh: Option<&str>, expires_at: Option<u64>) -> TokenResponse {
    TokenResponse {
        access_token: "at-123".to_string(),
        refresh_token: refresh.map(|s| s.to_string()),
        expires_in: 3600,
        token_type: "Bearer".to_string(),
        expires_at,
    }
}

fn sample_config(secret: Option<&str>) -> AppConfig {
    AppConfig {
        client_id: "client-1".to_string(),
        client_secret: secret.map(|s| s.to_string()),
        tenant_id: "tenant-9".to_string(),
        scope: "https://graph.microsoft.com/.default".to_string(),
    }
}

// ----- expiry policy -----

#[test]
fn usable_beyond_skew() {
    let t = sample_token(None, Some(1_000_000));
    assert!(token_valid(&t, 999_699));
}

#[test]
fn unusable_at_skew_boundary() {
    let t = sample_token(None, Some(1_000_000));
    // expires_at == now + 300 exactly: not usable
    assert!(!token_valid(&t, 999_700));
    assert!(!token_valid(&t, 999_701));
}

#[test]
fn unusable_when_expiry_absent() {
    let t = sample_token(Some("rt"), None);
    assert!(!token_valid(&t, 0));
}

#[test]
fn unusable_when_expired() {
    let t = sample_token(None, Some(100));
    assert!(!token_valid(&t, 100));
    assert!(!token_valid(&t, 5_000));
}

// ----- codec -----

#[test]
fn encode_exact_record() {
    let t = sample_token(Some("rt-9"), Some(7200));
    assert_eq!(
        encode_token(&t),
        "{\"access_token\":\"at-123\",\"refresh_token\":\"rt-9\",\"expires_in\":3600,\"token_type\":\"Bearer\",\"expires_at\":7200}"
    );
}

#[test]
fn encode_nulls() {
    let t = sample_token(None, None);
    assert_eq!(
        encode_token(&t),
        "{\"access_token\":\"at-123\",\"refresh_token\":null,\"expires_in\":3600,\"token_type\":\"Bearer\",\"expires_at\":null}"
    );
}

fn assert_same(a: &TokenResponse, b: &TokenResponse) {
    assert_eq!(a.access_token, b.access_token);
    assert_eq!(a.refresh_token, b.refresh_token);
    assert_eq!(a.expires_in, b.expires_in);
    assert_eq!(a.token_type, b.token_type);
    assert_eq!(a.expires_at, b.expires_at);
}

#[test]
fn round_trip_plain() {
    let t = sample_token(Some("rt-9"), Some(7200));
    let back = parse_token(&encode_token(&t)).expect("round trip");
    assert_same(&t, &back);
}

#[test]
fn round_trip_nulls() {
    let t = sample_token(None, None);
    let back = parse_token(&encode_token(&t)).expect("round trip");
    assert_same(&t, &back);
}

#[test]
fn round_trip_escaped_content() {
    let t = TokenResponse {
        access_token: "a\"b\\c".to_string(),
        refresh_token: Some("x\\\"y".to_string()),
        expires_in: 0,
        token_type: "Bearer".to_string(),
        expires_at: Some(u64::MAX),
    };
    let back = parse_token(&encode_token(&t)).expect("round trip");
    assert_same(&t, &back);
}

#[test]
fn control_characters_are_hex_escaped() {
    let t = TokenResponse {
        access_token: "x\ny".to_string(),
        refresh_token: Some("a\tb\u{1}".to_string()),
        expires_in: 1,
        token_type: "Bearer".to_string(),
        expires_at: None,
    };
    let text = encode_token(&t);
    assert_eq!(
        text,
        "{\"access_token\":\"x\\u000ay\",\"refresh_token\":\"a\\u0009b\\u0001\",\"expires_in\":1,\"token_type\":\"Bearer\",\"expires_at\":null}"
    );
    let back = parse_token(&text).expect("round trip");
    assert_same(&t, &back);
}

#[test]
fn parse_rejects_raw_control_characters() {
    let raw_newline = "{\"access_token\":\"x\ny\",\"refresh_token\":null,\"expires_in\":1,\"token_type\":\"Bearer\",\"expires_at\":null}";
    assert!(parse_token(raw_newline).is_none());
    let uppercase_hex = "{\"access_token\":\"x\\u000Ay\",\"refresh_token\":null,\"expires_in\":1,\"token_type\":\"Bearer\",\"expires_at\":null}";
    assert!(parse_token(uppercase_hex).is_none());
}

#[test]
fn parse_rejects_garbage() {
    assert!(parse_token("").is_none());
    assert!(parse_token("{}").is_none());
    assert!(parse_token("{\"access_token\": \"x\"}").is_none());
}

#[test]
fn parse_accepts_only_canonical_records() {
    let canonical = "{\"access_token\":\"a\",\"refresh_token\":null,\"expires_in\":30,\"token_type\":\"Bearer\",\"expires_at\":null}";
    let t = parse_token(canonical).expect("canonical record");
    assert_eq!(encode_token(&t), canonical);
    // a leading zero and trailing content are both refused
    let zero_padded = canonical.replace(":30,", ":030,");
    assert!(parse_token(&zero_padded).is_none());
    let mut trailing = canonical.to_string();
    trailing.push(' ');
    assert!(parse_token(&trailing).is_none());
}

#[test]
fn read_missing_is_not_found() {
    assert!(matches!(decode_stored(None), ReadOutcome::NotFound));
}

#[test]
fn read_corrupt_is_unreadable() {
    assert!(matches!(
        decode_stored(Some("not json")),
        ReadOutcome::Unreadable
    ));
}

#[test]
fn read_back_written_record() {
    let t = sample_token(Some("rt"), Some(99));
    let text = encode_token(&t);
    match decode_stored(Some(&text)) {
        ReadOutcome::Found(back) => assert_same(&t, &back),
        _ => panic!("expected the stored credential"),
    }
}

// ----- endpoints and request bodies -----

#[test]
fn endpoint_urls() {
    assert_eq!(
        device_code_url("tenant-9"),
        "https://login.microsoftonline.com/tenant-9/oauth2/v2.0/devicecode"
    );
    assert_eq!(
        token_url("tenant-9"),
        "https://login.microsoftonline.com/tenant-9/oauth2/v2.0/token"
    );
}

#[test]
fn device_code_body_is_form_encoded() {
    let cfg = sample_config(None);
    let body = device_code_request_body(&cfg).expect("encodable");
    assert_eq!(
        body,
        "client_id=client-1&scope=https%3A%2F%2Fgraph.microsoft.com%2F.default"
    );
}

#[test]
fn poll_body_without_secret() {
    let cfg = sample_config(None);
    let body = poll_request_body(&cfg, "dev-1").expect("encodable");
    assert_eq!(
        body,
        "grant_type=urn%3Aietf%3Aparams%3Aoauth%3Agrant-type%3Adevice_code&client_id=client-1&device_code=dev-1"
    );
}

#[test]
fn poll_body_with_secret() {
    let cfg = sample_config(Some("s3cr3t"));
    let body = poll_request_body(&cfg, "dev-1").expect("encodable");
    assert_eq!(
        body,
        "grant_type=urn%3Aietf%3Aparams%3Aoauth%3Agrant-type%3Adevice_code&client_id=client-1&client_secret=s3cr3t&device_code=dev-1"
    );
}

#[test]
fn refresh_body() {
    let cfg = sample_config(None);
    let body = refresh_request_body(&cfg, "rt 1").expect("encodable");
    assert_eq!(
        body,
        "grant_type=refresh_token&client_id=client-1&refresh_token=rt+1&scope=https%3A%2F%2Fgraph.microsoft.com%2F.default"
    );
}

// ----- the poll loop -----

#[test]
fn classify_success_pending_abort() {
    assert_eq!(classify_poll_response(true, ""), PollOutcome::Complete);
    assert_eq!(
        classify_poll_response(false, "{\"error\":\"authorization_pending\"}"),
        PollOutcome::Pending
    );
    assert_eq!(
        classify_poll_response(false, "{\"error\":\"expired_token\"}"),
        PollOutcome::Abort
    );
}

#[test]
fn poll_success_stamps_expiry() {
    let step = poll_step(PollEvent::Response {
        access_token: "new-at".to_string(),
        refresh_token: Some("new-rt".to_string()),
        token_type: "Bearer".to_string(),
        expires_in: 3600,
        now: 1_000,
    });
    match step {
        PollStep::Store(t) => {
            assert_eq!(t.access_token, "new-at");
            assert_eq!(t.refresh_token.as_deref(), Some("new-rt"));
            assert_eq!(t.expires_in, 3600);
            assert_eq!(t.token_type, "Bearer");
            assert_eq!(t.expires_at, Some(4_600));
        }
        _ => panic!("a success must store the credential"),
    }
}

#[test]
fn poll_pending_continues_then_success_wins() {
    let events = vec![
        PollEvent::Failure {
            body: "{\"error\":\"authorization_pending\"}".to_string(),
        },
        PollEvent::Failure {
            body: "more authorization_pending noise".to_string(),
        },
        PollEvent::Response {
            access_token: "at-final".to_string(),
            refresh_token: None,
            token_type: "Bearer".to_string(),
            expires_in: 60,
            now: 10,
        },
    ];
    let mut stored: Option<TokenResponse> = None;
    let mut rounds = 0;
    for e in events {
        rounds += 1;
        match poll_step(e) {
            PollStep::Store(t) => {
                stored = Some(t);
                break;
            }
            PollStep::Continue => continue,
            PollStep::Fail(body) => panic!("unexpected abort: {}", body),
        }
    }
    assert_eq!(rounds, 3);
    let t = stored.expect("a credential after the success");
    assert_eq!(t.access_token, "at-final");
    assert_eq!(t.expires_at, Some(70));
}

#[test]
fn poll_abort_stores_nothing() {
    let events = vec![
        PollEvent::Failure {
            body: "{\"error\":\"authorization_pending\"}".to_string(),
        },
        PollEvent::Failure {
            body: "{\"error\":\"access_denied\"}".to_string(),
        },
    ];
    let mut stored: Option<TokenResponse> = None;
    let mut aborted: Option<String> = None;
    for e in events {
        match poll_step(e) {
            PollStep::Store(t) => {
                stored = Some(t);
                break;
            }
            PollStep::Continue => continue,
            PollStep::Fail(body) => {
                aborted = Some(body);
                break;
            }
        }
    }
    assert!(stored.is_none());
    assert_eq!(aborted.as_deref(), Some("{\"error\":\"access_denied\"}"));
}

#[test]
fn refresh_success_and_failure() {
    match refresh_step(PollEvent::Response {
        access_token: "r-at".to_string(),
        refresh_token: Some("r-rt".to_string()),
        token_type: "Bearer".to_string(),
        expires_in: 100,
        now: 50,
    }) {
        Ok(t) => {
            assert_eq!(t.access_token, "r-at");
            assert_eq!(t.expires_at, Some(150));
        }
        Err(_) => panic!("a success must refresh"),
    }
    match refresh_step(PollEvent::Failure {
        body: "{\"error\":\"invalid_grant\"}".to_string(),
    }) {
        Err(AuthError::NetworkOrProviderError(body)) => {
            assert_eq!(body, "{\"error\":\"invalid_grant\"}");
        }
        _ => panic!("a failure must surface the body"),
    }
}

// ----- configuration and paths -----

#[test]
fn profile_selection() {
    let entries = vec![
        ("default".to_string(), sample_config(None)),
        ("work".to_string(), sample_config(Some("s"))),
    ];
    match select_profile(&entries, "work") {
        Ok(c) => assert_eq!(c.client_secret.as_deref(), Some("s")),
        Err(_) => panic!("the work profile exists"),
    }
    match select_profile(&entries, "home") {
        Err(AuthError::ProfileNotFound) => {}
        _ => panic!("a missing profile is ProfileNotFound"),
    }
}

#[test]
fn relative_token_paths() {
    assert_eq!(token_rel_path("work"), "msoauth/work.json");
    assert_eq!(token_rel_path("default"), "msoauth/default.json");
    assert_ne!(token_rel_path("a"), token_rel_path("b"));
}

#[test]
fn joined_paths_are_exact() {
    assert_eq!(
        token_path_in("/home/u/.config", "work"),
        "/home/u/.config/msoauth/work.json"
    );
    assert_eq!(
        token_path_in("/home/u/.config", "default"),
        "/home/u/.config/msoauth/default.json"
    );
    assert_eq!(
        config_path_in("/home/u/.config"),
        "/home/u/.config/msoauth/config.toml"
    );
}

#[test]
fn absolute_paths_end_with_relative_ones() {
    if let Some(p) = token_path("work") {
        assert!(p.ends_with("/msoauth/work.json"));
    }
    if let Some(p) = config_path() {
        assert!(p.ends_with("/msoauth/config.toml"));
    }
}

// ----- orchestrator decisions -----

fn flags(print_token: bool, refresh: bool, login: bool, clear_token: bool) -> Cli {
    Cli {
        print_token,
        refresh,
        login,
        clear_token,
        profile: None,
    }
}

#[test]
fn command_precedence() {
    assert_eq!(command_of(&flags(false, false, false, true)), Command::ClearToken);
    assert_eq!(command_of(&flags(true, true, true, true)), Command::ClearToken);
    assert_eq!(command_of(&flags(true, true, true, false)), Command::PrintToken);
    assert_eq!(command_of(&flags(false, true, true, false)), Command::Refresh);
    assert_eq!(command_of(&flags(false, false, true, false)), Command::Login);
    assert_eq!(command_of(&flags(false, false, false, false)), Command::Default);
}

#[test]
fn default_profile_name() {
    let mut cli = flags(false, false, false, false);
    assert_eq!(profile_name(&cli), "default");
    cli.profile = Some("work".to_string());
    assert_eq!(profile_name(&cli), "work");
}

#[test]
fn get_token_uses_fresh_credential() {
    let stored = Some(sample_token(None, Some(10_000)));
    match get_token_plan(&stored, 1_000) {
        GetTokenPlan::UseStored(a) => assert_eq!(a, "at-123"),
        GetTokenPlan::MustRefresh => panic!("a usable credential is returned as it stands"),
    }
}

#[test]
fn get_token_refreshes_inside_skew() {
    // expires 10 seconds from now: within the 300-second margin
    let stored = Some(sample_token(Some("rt"), Some(1_010)));
    assert!(matches!(
        get_token_plan(&stored, 1_000),
        GetTokenPlan::MustRefresh
    ));
}

#[test]
fn get_token_refreshes_when_absent() {
    assert!(matches!(
        get_token_plan(&None, 1_000),
        GetTokenPlan::MustRefresh
    ));
}

#[test]
fn refresh_plan_variants() {
    match refresh_plan(&None) {
        Err(AuthError::TokenFileNotFound) => {}
        _ => panic!("no record: TokenFileNotFound"),
    }
    match refresh_plan(&Some(sample_token(None, Some(1)))) {
        Err(AuthError::MissingRefreshToken) => {}
        _ => panic!("no refresh token: MissingRefreshToken"),
    }
    match refresh_plan(&Some(sample_token(Some("rt-7"), Some(1)))) {
        Ok(rt) => assert_eq!(rt, "rt-7"),
        Err(_) => panic!("a refresh token is handed out"),
    }
}

#[test]
fn default_falls_back_to_login() {
    assert_eq!(default_fallback(true), DefaultNext::Done);
    assert_eq!(default_fallback(false), DefaultNext::FallBackToLogin);
}

#[test]
fn error_messages() {
    assert_eq!(AuthError::ConfigMissing.message(), "config file not found");
    assert_eq!(
        AuthError::NetworkOrProviderError("boom".to_string()).message(),
        "provider error: boom"
    );
    assert_eq!(
        AuthError::MissingRefreshToken.message(),
        "missing refresh token"
    );
}

// ----- whole-lifecycle scenarios over the decision layer -----

#[test]
fn first_login_for_fresh_profile() {
    // no token file for "work": get-token cannot use or refresh anything
    let stored: Option<TokenResponse> = None;
    assert!(matches!(
        get_token_plan(&stored, 500),
        GetTokenPlan::MustRefresh
    ));
    assert!(matches!(
        refresh_plan(&stored),
        Err(AuthError::TokenFileNotFound)
    ));
    // so the flow escalates to a device login; the provider answers the
    // second poll
    let events = vec![
        PollEvent::Failure {
            body: "{\"error\":\"authorization_pending\"}".to_string(),
        },
        PollEvent::Response {
            access_token: "mocked-at".to_string(),
            refresh_token: Some("mocked-rt".to_string()),
            token_type: "Bearer".to_string(),
            expires_in: 3600,
            now: 500,
        },
    ];
    let mut stored_text: Option<String> = None;
    for e in events {
        match poll_step(e) {
            PollStep::Store(t) => {
                stored_text = Some(encode_token(&t));
                break;
            }
            PollStep::Continue => continue,
            PollStep::Fail(body) => panic!("unexpected abort: {}", body),
        }
    }
    // the record persisted under the work profile reads back intact
    assert_eq!(token_rel_path("work"), "msoauth/work.json");
    let text = stored_text.expect("a credential was stored");
    match decode_stored(Some(&text)) {
        ReadOutcome::Found(t) => {
            assert_eq!(t.access_token, "mocked-at");
            assert_eq!(t.expires_at, Some(4_100));
            assert!(token_valid(&t, 500));
        }
        _ => panic!("the stored record must read back"),
    }
}

#[test]
fn stored_but_stale_credential_triggers_refresh() {
    // expires 10 seconds in the future: 10 < 300, so get-token refreshes
    let now = 2_000;
    let stored = Some(sample_token(Some("rt-live"), Some(now + 10)));
    assert!(matches!(
        get_token_plan(&stored, now),
        GetTokenPlan::MustRefresh
    ));
    let rt = match refresh_plan(&stored) {
        Ok(rt) => rt,
        Err(_) => panic!("the stale record still carries a refresh token"),
    };
    assert_eq!(rt, "rt-live");
    // the provider accepts the refresh and a fresh credential is stored
    match refresh_step(PollEvent::Response {
        access_token: "fresh-at".to_string(),
        refresh_token: Some("fresh-rt".to_string()),
        token_type: "Bearer".to_string(),
        expires_in: 3600,
        now,
    }) {
        Ok(t) => {
            assert_eq!(t.expires_at, Some(now + 3600));
            assert!(token_valid(&t, now));
            assert_eq!(t.access_token, "fresh-at");
        }
        Err(_) => panic!("the refresh succeeds"),
    }
}
