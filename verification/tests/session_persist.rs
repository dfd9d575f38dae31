use dotti_core::identity::AuthError;
use dotti_core::identity::Credentials;
use dotti_core::identity::resolve;
use dotti_core::persist::PersistedState;
use dotti_core::persist::decode;
use dotti_core::persist::default_state;
use dotti_core::persist::encode;
use dotti_core::persist::load;
use dotti_core::session::SessionError;
use dotti_core::session::SessionManager;
use dotti_core::session::SessionStatus;

fn creds(space: &str, token: &str, cloud: bool, endpoint: Option<&str>) -> Credentials {
    Credentials {
        space_id: String::from(space),
        shared_token: String::from(token),
        cloud_sync_enabled: cloud,
        custom_auth_endpoint: endpoint.map(String::from),
    }
}

fn good_creds() -> Credentials {
    creds("space-1", "tok", true, None)
}

#[test]
fn resolve_accepts_valid_credentials() {
    let ctx = resolve(&good_creds()).unwrap();
    assert_eq!(ctx.space_id, "space-1");
    assert_eq!(ctx.shared_token, "tok");
    assert!(ctx.cloud_sync_enabled);
    assert!(ctx.custom_auth_endpoint.is_none());
}

#[test]
fn resolve_rejects_empty_space_id() {
    assert!(matches!(resolve(&creds("", "tok", true, None)), Err(AuthError::InvalidSpaceId)));
}

#[test]
fn resolve_rejects_malformed_space_id() {
    assert!(matches!(
        resolve(&creds("bad space!", "tok", true, None)),
        Err(AuthError::InvalidSpaceId)
    ));
}

#[test]
fn resolve_rejects_missing_token_when_cloud_enabled() {
    assert!(matches!(resolve(&creds("space-1", "", true, None)), Err(AuthError::MissingToken)));
}

#[test]
fn resolve_allows_missing_token_without_cloud() {
    assert!(resolve(&creds("space-1", "", false, None)).is_ok());
}

#[test]
fn resolve_rejects_bad_endpoint() {
    assert!(matches!(
        resolve(&creds("space-1", "tok", true, Some("ftp://auth"))),
        Err(AuthError::InvalidEndpoint)
    ));
    assert!(matches!(
        resolve(&creds("space-1", "tok", true, Some("http://"))),
        Err(AuthError::InvalidEndpoint)
    ));
}

#[test]
fn resolve_accepts_http_and_https_endpoints() {
    assert!(resolve(&creds("space-1", "tok", true, Some("http://auth.example"))).is_ok());
    assert!(resolve(&creds("space-1", "tok", true, Some("https://auth.example"))).is_ok());
}

#[test]
fn start_with_empty_space_id_fails_with_invalid_space_id() {
    let mut sm = SessionManager::new(creds("", "tok", true, None));
    let r = sm.start();
    assert!(matches!(r, Err(SessionError::AuthFailed(AuthError::InvalidSpaceId))));
    assert!(matches!(
        sm.status(),
        SessionStatus::Failed(SessionError::AuthFailed(AuthError::InvalidSpaceId))
    ));
}

#[test]
fn start_reaches_active_on_engine_acceptance() {
    let mut sm = SessionManager::new(good_creds());
    assert!(matches!(sm.status(), SessionStatus::Unconfigured));
    assert!(sm.start().is_ok());
    assert!(matches!(sm.status(), SessionStatus::Starting));
    sm.engine_accepted(7);
    assert!(matches!(sm.status(), SessionStatus::Active));
}

#[test]
fn engine_rejection_records_failure_reason() {
    let mut sm = SessionManager::new(good_creds());
    assert!(sm.start().is_ok());
    sm.engine_rejected(String::from("relay unreachable"));
    assert!(matches!(
        sm.status(),
        SessionStatus::Failed(SessionError::EngineStartFailed(r)) if r == "relay unreachable"
    ));
}

#[test]
fn configure_while_active_returns_already_running() {
    let mut sm = SessionManager::new(good_creds());
    sm.start().unwrap();
    sm.engine_accepted(1);
    let r = sm.configure(creds("other", "t2", false, None));
    assert!(matches!(r, Err(SessionError::AlreadyRunning)));
    assert_eq!(sm.credentials().space_id, "space-1");
    assert_eq!(sm.credentials().shared_token, "tok");
    assert!(matches!(sm.status(), SessionStatus::Active));
}

#[test]
fn configure_while_starting_returns_already_running() {
    let mut sm = SessionManager::new(good_creds());
    sm.start().unwrap();
    assert!(matches!(
        sm.configure(creds("other", "t2", false, None)),
        Err(SessionError::AlreadyRunning)
    ));
}

#[test]
fn failed_session_recovers_without_process_restart() {
    let mut sm = SessionManager::new(creds("", "", true, None));
    assert!(sm.start().is_err());
    assert!(matches!(sm.status(), SessionStatus::Failed(_)));
    assert!(sm.configure(good_creds()).is_ok());
    assert!(sm.start().is_ok());
    sm.engine_accepted(2);
    assert!(matches!(sm.status(), SessionStatus::Active));
}

#[test]
fn restart_after_stop_reaches_active() {
    let mut sm = SessionManager::new(good_creds());
    sm.start().unwrap();
    sm.engine_accepted(1);
    sm.stop();
    assert!(matches!(sm.status(), SessionStatus::Stopped));
    assert!(sm.configure(creds("space-2", "tok2", true, None)).is_ok());
    assert!(sm.start().is_ok());
    sm.engine_accepted(9);
    assert!(matches!(sm.status(), SessionStatus::Active));
    assert_eq!(sm.credentials().space_id, "space-2");
}

#[test]
fn stop_is_idempotent() {
    let mut sm = SessionManager::new(good_creds());
    sm.start().unwrap();
    sm.engine_accepted(1);
    sm.stop();
    sm.stop();
    assert!(matches!(sm.status(), SessionStatus::Stopped));
}

#[test]
fn stop_before_acceptance_cancels_start() {
    let mut sm = SessionManager::new(good_creds());
    sm.start().unwrap();
    sm.stop();
    assert!(matches!(sm.status(), SessionStatus::Stopped));
    sm.engine_accepted(3);
    assert!(matches!(sm.status(), SessionStatus::Stopped));
}

#[test]
fn load_missing_snapshot_returns_default() {
    let st = load(None);
    assert_eq!(st.label, "Dotti");
    assert_eq!(st.credentials.space_id, "");
    assert_eq!(st.credentials.shared_token, "");
    assert!(st.credentials.cloud_sync_enabled);
    assert!(st.credentials.custom_auth_endpoint.is_none());
}

#[test]
fn load_corrupted_snapshot_returns_default() {
    let st = load(Some([1u8, 2, 3, 4].as_slice()));
    assert_eq!(st.label, "Dotti");
    let st2 = decode(&[]);
    assert_eq!(st2.label, "Dotti");
}

#[test]
fn load_truncated_snapshot_returns_default() {
    let full = encode(&PersistedState {
        label: String::from("mine"),
        credentials: good_creds(),
    });
    let cut = &full[..full.len() - 1];
    let st = load(Some(cut));
    assert_eq!(st.label, "Dotti");
    assert_eq!(st.credentials.space_id, "");
}

#[test]
fn snapshot_round_trip_without_endpoint() {
    let state = PersistedState {
        label: String::from("my chat"),
        credentials: creds("space-9", "secret", false, None),
    };
    let bytes = encode(&state);
    let back = load(Some(&bytes));
    assert_eq!(back.label, "my chat");
    assert_eq!(back.credentials.space_id, "space-9");
    assert_eq!(back.credentials.shared_token, "secret");
    assert!(!back.credentials.cloud_sync_enabled);
    assert!(back.credentials.custom_auth_endpoint.is_none());
}

#[test]
fn snapshot_round_trip_with_endpoint() {
    let state = PersistedState {
        label: String::from("Dotti"),
        credentials: creds("space-1", "tok", true, Some("https://auth.example.com")),
    };
    let bytes = encode(&state);
    let back = decode(&bytes);
    assert_eq!(back.credentials.custom_auth_endpoint.as_deref(), Some("https://auth.example.com"));
    assert!(back.credentials.cloud_sync_enabled);
}

#[test]
fn snapshot_encoding_is_exact() {
    let state = PersistedState {
        label: String::from("A"),
        credentials: creds("", "", false, None),
    };
    let bytes = encode(&state);
    let mut expected: Vec<u8> = vec![0xD0, 0x77, 1];
    expected.extend_from_slice(&[1, 0, 0, 0, 0, 0, 0, 0]);
    expected.push(b'A');
    expected.extend_from_slice(&[0, 0, 0, 0, 0, 0, 0, 0]);
    expected.extend_from_slice(&[0, 0, 0, 0, 0, 0, 0, 0]);
    expected.push(0);
    expected.push(0);
    assert_eq!(bytes, expected);
}

#[test]
fn default_state_matches_spec() {
    let st = default_state();
    assert_eq!(st.label, "Dotti");
    assert!(st.credentials.cloud_sync_enabled);
}

#[test]
fn start_reports_missing_token_and_bad_endpoint() {
    let mut sm = SessionManager::new(creds("space-1", "", true, None));
    assert!(matches!(
        sm.start(),
        Err(SessionError::AuthFailed(AuthError::MissingToken))
    ));
    assert!(sm.configure(creds("space-1", "tok", true, Some("not a url"))).is_ok());
    assert!(matches!(
        sm.start(),
        Err(SessionError::AuthFailed(AuthError::InvalidEndpoint))
    ));
    assert!(matches!(
        sm.status(),
        SessionStatus::Failed(SessionError::AuthFailed(AuthError::InvalidEndpoint))
    ));
}

#[test]
fn start_while_running_is_rejected_and_harmless() {
    let mut sm = SessionManager::new(good_creds());
    sm.start().unwrap();
    sm.engine_accepted(1);
    assert!(matches!(sm.start(), Err(SessionError::AlreadyRunning)));
    assert!(matches!(sm.status(), SessionStatus::Active));
}
