//! Session manager: owns the lifecycle of one sync session.  The lifecycle
//! is a state machine over explicit spec transition functions; the engine
//! itself is an external collaborator, so starting hands the authorization
//! material out and the engine's acceptance or rejection comes back as an
//! event.

use vstd::prelude::*;

verus! {

use crate::identity::AuthContext;
use crate::identity::AuthError;
use crate::identity::CredModel;
use crate::identity::Credentials;
use crate::identity::creds_valid;
use crate::identity::first_auth_error;
use crate::identity::resolve;

/// Why a session is not running.
#[derive(Debug)]
pub enum SessionError {
    AuthFailed(AuthError),
    EngineStartFailed(String),
    AlreadyRunning,
}

/// Abstract value of a session error.
pub ghost enum ErrorModel {
    AuthFailed(AuthError),
    EngineStartFailed(Seq<char>),
    AlreadyRunning,
}

impl View for SessionError {
    type V = ErrorModel;

    open spec fn view(&self) -> ErrorModel {
        match self {
            SessionError::AuthFailed(e) => ErrorModel::AuthFailed(*e),
            SessionError::EngineStartFailed(r) => ErrorModel::EngineStartFailed(r@),
            SessionError::AlreadyRunning => ErrorModel::AlreadyRunning,
        }
    }
}

impl Clone for SessionError {
    fn clone(&self) -> (r: Self)
        ensures
            r@ == self@,
    {
        match self {
            SessionError::AuthFailed(e) => SessionError::AuthFailed(*e),
            SessionError::EngineStartFailed(s) => SessionError::EngineStartFailed(s.clone()),
            SessionError::AlreadyRunning => SessionError::AlreadyRunning,
        }
    }
}

/// Health of the session, as the manager tracks it: intent to run, not live
/// connectivity.
#[derive(Debug)]
pub enum SessionStatus {
    Unconfigured,
    Starting,
    Active,
    Stopped,
    Failed(SessionError),
}

/// Abstract value of a session status.
pub ghost enum StatusModel {
    Unconfigured,
    Starting,
    Active,
    Stopped,
    Failed(ErrorModel),
}

impl View for SessionStatus {
    type V = StatusModel;

    open spec fn view(&self) -> StatusModel {
        match self {
            SessionStatus::Unconfigured => StatusModel::Unconfigured,
            SessionStatus::Starting => StatusModel::Starting,
            SessionStatus::Active => StatusModel::Active,
            SessionStatus::Stopped => StatusModel::Stopped,
            SessionStatus::Failed(e) => StatusModel::Failed(e@),
        }
    }
}

impl Clone for SessionStatus {
    fn clone(&self) -> (r: Self)
        ensures
            r@ == self@,
    {
        match self {
            SessionStatus::Unconfigured => SessionStatus::Unconfigured,
            SessionStatus::Starting => SessionStatus::Starting,
            SessionStatus::Active => SessionStatus::Active,
            SessionStatus::Stopped => SessionStatus::Stopped,
            SessionStatus::Failed(e) => SessionStatus::Failed(e.clone()),
        }
    }
}

/// Abstract state of the session manager.
pub ghost struct ManagerModel {
    pub credentials: CredModel,
    pub status: StatusModel,
    pub started_at: Option<u64>,
}

/// The states in which credentials may be replaced and a start attempted:
/// no session is live or pending.
pub open spec fn can_configure(s: StatusModel) -> bool {
    s is Unconfigured || s is Stopped || s is Failed
}

/// Replacing credentials: a no-op while a session is live or pending.
pub open spec fn configure_model(m: ManagerModel, c: CredModel) -> ManagerModel {
    if can_configure(m.status) {
        ManagerModel { credentials: c, status: m.status, started_at: m.started_at }
    } else {
        m
    }
}

/// Starting: validation decides between a pending start and a recorded
/// failure; a live or pending session is left untouched.
pub open spec fn start_model(m: ManagerModel) -> ManagerModel {
    if !can_configure(m.status) {
        m
    } else if creds_valid(m.credentials) {
        ManagerModel { credentials: m.credentials, status: StatusModel::Starting, started_at: m.started_at }
    } else {
        ManagerModel {
            credentials: m.credentials,
            status: StatusModel::Failed(ErrorModel::AuthFailed(first_auth_error(m.credentials))),
            started_at: m.started_at,
        }
    }
}

/// The engine accepted the start request: the session is active from `now`.
pub open spec fn accept_model(m: ManagerModel, now: u64) -> ManagerModel {
    if m.status is Starting {
        ManagerModel { credentials: m.credentials, status: StatusModel::Active, started_at: Some(now) }
    } else {
        m
    }
}

/// The engine rejected the start request.
pub open spec fn reject_model(m: ManagerModel, reason: Seq<char>) -> ManagerModel {
    if m.status is Starting {
        ManagerModel {
            credentials: m.credentials,
            status: StatusModel::Failed(ErrorModel::EngineStartFailed(reason)),
            started_at: m.started_at,
        }
    } else {
        m
    }
}

/// Stopping: ends a live or pending session; anywhere else it is a no-op,
/// never an error.
pub open spec fn stop_model(m: ManagerModel) -> ManagerModel {
    if m.status is Active || m.status is Starting {
        ManagerModel { credentials: m.credentials, status: StatusModel::Stopped, started_at: m.started_at }
    } else {
        m
    }
}

/// Owns the one session: its credentials, its status, and when it became
/// active.  No other component mutates these.
pub struct SessionManager {
    credentials: Credentials,
    status: SessionStatus,
    started_at: Option<u64>,
}

impl View for SessionManager {
    type V = ManagerModel;

    closed spec fn view(&self) -> ManagerModel {
        ManagerModel {
            credentials: self.credentials@,
            status: self.status@,
            started_at: self.started_at,
        }
    }
}

impl SessionManager {
    /// A manager starts unconfigured, holding whatever credentials were
    /// restored at startup.
    pub fn new(credentials: Credentials) -> (r: Self)
        ensures
            r@.credentials == credentials@,
            r@.status is Unconfigured,
            r@.started_at is None,
    {
        SessionManager { credentials, status: SessionStatus::Unconfigured, started_at: None }
    }

    /// Pure read of the session health.
    pub fn status(&self) -> (r: SessionStatus)
        ensures
            r@ == self@.status,
    {
        self.status.clone()
    }

    /// Whether the session is live: remote deliveries are applied only then.
    pub fn is_active(&self) -> (r: bool)
        ensures
            r == (self@.status is Active),
    {
        match self.status {
            SessionStatus::Active => true,
            _ => false,
        }
    }

    /// The credentials the manager currently holds.
    pub fn credentials(&self) -> (r: Credentials)
        ensures
            r@ == self@.credentials,
    {
        self.credentials.clone()
    }

    /// Replaces the stored credentials, unless a session is live or pending:
    /// credentials must not change under a running session, so that case is
    /// rejected with `AlreadyRunning` and leaves everything unchanged.
    pub fn configure(&mut self, credentials: Credentials) -> (r: Result<(), SessionError>)
        ensures
            final(self)@ == configure_model(old(self)@, credentials@),
            r is Ok <==> can_configure(old(self)@.status),
            r matches Err(e) ==> e@ is AlreadyRunning,
    {
        match self.status {
            SessionStatus::Active | SessionStatus::Starting => Err(SessionError::AlreadyRunning),
            _ => {
                self.credentials = credentials;
                Ok(())
            },
        }
    }

    /// Requests a start.  Validation failures record `Failed` and report the
    /// error; valid credentials leave the session pending (`Starting`) and
    /// hand back the authorization material the caller must feed to the
    /// engine's start primitive.  A live or pending session is rejected.
    pub fn start(&mut self) -> (r: Result<AuthContext, SessionError>)
        ensures
            final(self)@ == start_model(old(self)@),
            r is Ok <==> (can_configure(old(self)@.status) && creds_valid(old(self)@.credentials)),
            r matches Ok(ctx) ==> ctx@ == old(self)@.credentials,
            !can_configure(old(self)@.status) ==> (r matches Err(e) && e@ is AlreadyRunning),
            can_configure(old(self)@.status) && !creds_valid(old(self)@.credentials) ==> (
            r matches Err(e) && e@ == ErrorModel::AuthFailed(first_auth_error(old(self)@.credentials))),
    {
        match self.status {
            SessionStatus::Active | SessionStatus::Starting => {
                return Err(SessionError::AlreadyRunning);
            },
            _ => {},
        }
        match resolve(&self.credentials) {
            Ok(ctx) => {
                self.status = SessionStatus::Starting;
                Ok(ctx)
            },
            Err(e) => {
                self.status = SessionStatus::Failed(SessionError::AuthFailed(e));
                Err(SessionError::AuthFailed(e))
            },
        }
    }

    /// The engine accepted the start request: the session is active.  The
    /// caller reports the acceptance time.
    pub fn engine_accepted(&mut self, now: u64)
        ensures
            final(self)@ == accept_model(old(self)@, now),
    {
        match self.status {
            SessionStatus::Starting => {
                self.status = SessionStatus::Active;
                self.started_at = Some(now);
            },
            _ => {},
        }
    }

    /// The engine rejected the start request, with its reason.
    pub fn engine_rejected(&mut self, reason: String)
        ensures
            final(self)@ == reject_model(old(self)@, reason@),
    {
        match self.status {
            SessionStatus::Starting => {
                self.status = SessionStatus::Failed(SessionError::EngineStartFailed(reason));
            },
            _ => {},
        }
    }

    /// Ends the session.  Idempotent, and safe at any time: stopping a
    /// session that is not live or pending changes nothing.
    pub fn stop(&mut self)
        ensures
            final(self)@ == stop_model(old(self)@),
    {
        match self.status {
            SessionStatus::Active | SessionStatus::Starting => {
                self.status = SessionStatus::Stopped;
            },
            _ => {},
        }
    }
}

/// Credential guard: replacing credentials under a live session changes
/// nothing at all.
pub proof fn lemma_credential_guard(m: ManagerModel, c: CredModel)
    requires
        m.status is Active,
    ensures
        configure_model(m, c) == m,
{
}

/// Session restart: whatever state the manager is in, stopping it, giving it
/// valid credentials and starting again reaches `Active` once the engine
/// accepts.  A failed session never needs a process restart to recover.
pub proof fn lemma_session_restart(m: ManagerModel, c: CredModel, now: u64)
    requires
        creds_valid(c),
    ensures
        accept_model(start_model(configure_model(stop_model(m), c)), now).status is Active,
        accept_model(start_model(configure_model(stop_model(m), c)), now).started_at == Some(now),
        accept_model(start_model(configure_model(stop_model(m), c)), now).credentials == c,
{
}

} // verus!
