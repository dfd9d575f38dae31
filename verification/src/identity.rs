//! Identity provider: prepares the authorization material for joining a
//! synchronization space.  Pure validation, no side effects: the handshake
//! itself belongs to the underlying sync engine.

use vstd::prelude::*;

verus! {

/// The credentials a peer presents to join a space.
pub struct Credentials {
    pub space_id: String,
    pub shared_token: String,
    pub cloud_sync_enabled: bool,
    pub custom_auth_endpoint: Option<String>,
}

/// Abstract value of a set of credentials.
pub ghost struct CredModel {
    pub space_id: Seq<char>,
    pub shared_token: Seq<char>,
    pub cloud_sync_enabled: bool,
    pub custom_auth_endpoint: Option<Seq<char>>,
}

impl View for Credentials {
    type V = CredModel;

    open spec fn view(&self) -> CredModel {
        CredModel {
            space_id: self.space_id@,
            shared_token: self.shared_token@,
            cloud_sync_enabled: self.cloud_sync_enabled,
            custom_auth_endpoint: match self.custom_auth_endpoint {
                Some(e) => Some(e@),
                None => None,
            },
        }
    }
}

impl Clone for Credentials {
    fn clone(&self) -> (r: Self)
        ensures
            r@ == self@,
    {
        Credentials {
            space_id: self.space_id.clone(),
            shared_token: self.shared_token.clone(),
            cloud_sync_enabled: self.cloud_sync_enabled,
            custom_auth_endpoint: match &self.custom_auth_endpoint {
                Some(e) => Some(e.clone()),
                None => None,
            },
        }
    }
}

/// Validation failures when preparing authorization material.
#[derive(Clone, Copy, PartialEq, Eq, Structural, Debug)]
pub enum AuthError {
    InvalidSpaceId,
    MissingToken,
    InvalidEndpoint,
}

/// Authorization material for the underlying sync engine, produced only by
/// `resolve` and consumed only by the session manager.
pub struct AuthContext {
    pub space_id: String,
    pub shared_token: String,
    pub cloud_sync_enabled: bool,
    pub custom_auth_endpoint: Option<String>,
}

impl View for AuthContext {
    type V = CredModel;

    open spec fn view(&self) -> CredModel {
        CredModel {
            space_id: self.space_id@,
            shared_token: self.shared_token@,
            cloud_sync_enabled: self.cloud_sync_enabled,
            custom_auth_endpoint: match self.custom_auth_endpoint {
                Some(e) => Some(e@),
                None => None,
            },
        }
    }
}

/// A character the space identifier grammar accepts: ASCII letters, digits,
/// `-` and `_`.
pub open spec fn space_id_char(c: char) -> bool {
    ||| ('a' <= c && c <= 'z')
    ||| ('A' <= c && c <= 'Z')
    ||| ('0' <= c && c <= '9')
    ||| c == '-'
    ||| c == '_'
}

/// A well-formed space identifier: non-empty, every character from the
/// identifier grammar.
pub open spec fn valid_space_id(s: Seq<char>) -> bool {
    s.len() > 0 && forall|i: int| 0 <= i < s.len() ==> space_id_char(#[trigger] s[i])
}

/// A well-formed auth endpoint: an http or https URL with a non-empty
/// remainder after the scheme.
pub open spec fn valid_endpoint(s: Seq<char>) -> bool {
    ||| (s.len() > 7 && s[0] == 'h' && s[1] == 't' && s[2] == 't' && s[3] == 'p' && s[4] == ':'
        && s[5] == '/' && s[6] == '/')
    ||| (s.len() > 8 && s[0] == 'h' && s[1] == 't' && s[2] == 't' && s[3] == 'p' && s[4] == 's'
        && s[5] == ':' && s[6] == '/' && s[7] == '/')
}

/// All three validation rules together: when they hold, a session may start.
pub open spec fn creds_valid(c: CredModel) -> bool {
    &&& valid_space_id(c.space_id)
    &&& (c.cloud_sync_enabled ==> c.shared_token.len() > 0)
    &&& (c.custom_auth_endpoint matches Some(e) ==> valid_endpoint(e))
}

/// The error `resolve` reports for invalid credentials: the rules are
/// checked in order, space identifier first, then token, then endpoint.
pub open spec fn first_auth_error(c: CredModel) -> AuthError {
    if !valid_space_id(c.space_id) {
        AuthError::InvalidSpaceId
    } else if c.cloud_sync_enabled && c.shared_token.len() == 0 {
        AuthError::MissingToken
    } else {
        AuthError::InvalidEndpoint
    }
}

fn check_space_id(s: &str) -> (r: bool)
    ensures
        r == valid_space_id(s@),
{
    let n = s.unicode_len();
    if n == 0 {
        return false;
    }
    let mut i: usize = 0;
    while i < n
        invariant
            0 <= i <= n,
            n == s@.len(),
            forall|k: int| 0 <= k < i ==> space_id_char(#[trigger] s@[k]),
        decreases n - i,
    {
        let c = s.get_char(i);
        let ok = (('a' <= c && c <= 'z') || ('A' <= c && c <= 'Z') || ('0' <= c && c <= '9') || c
            == '-' || c == '_');
        if !ok {
            return false;
        }
        i += 1;
    }
    true
}

fn check_endpoint(s: &str) -> (r: bool)
    ensures
        r == valid_endpoint(s@),
{
    let n = s.unicode_len();
    if n > 7 && s.get_char(0) == 'h' && s.get_char(1) == 't' && s.get_char(2) == 't' && s.get_char(
        3,
    ) == 'p' {
        if s.get_char(4) == ':' && s.get_char(5) == '/' && s.get_char(6) == '/' {
            return true;
        }
        if n > 8 && s.get_char(4) == 's' && s.get_char(5) == ':' && s.get_char(6) == '/'
            && s.get_char(7) == '/' {
            return true;
        }
        return false;
    }
    false
}

/// Validates the credentials and, on success, hands back the authorization
/// material the session manager feeds to the sync engine.  Rejection is
/// exact: `InvalidSpaceId` for a malformed space identifier, `MissingToken`
/// for a cloud-enabled session without a token, `InvalidEndpoint` for a
/// custom auth endpoint that does not parse as a URL.
pub fn resolve(credentials: &Credentials) -> (r: Result<AuthContext, AuthError>)
    ensures
        r is Ok <==> creds_valid(credentials@),
        r matches Ok(ctx) ==> ctx@ == credentials@,
        r matches Err(e) ==> e == first_auth_error(credentials@),
{
    if !check_space_id(credentials.space_id.as_str()) {
        return Err(AuthError::InvalidSpaceId);
    }
    if credentials.cloud_sync_enabled && credentials.shared_token.as_str().is_empty() {
        return Err(AuthError::MissingToken);
    }
    match &credentials.custom_auth_endpoint {
        Some(e) => {
            if !check_endpoint(e.as_str()) {
                return Err(AuthError::InvalidEndpoint);
            }
        },
        None => {},
    }
    Ok(
        AuthContext {
            space_id: credentials.space_id.clone(),
            shared_token: credentials.shared_token.clone(),
            cloud_sync_enabled: credentials.cloud_sync_enabled,
            custom_auth_endpoint: match &credentials.custom_auth_endpoint {
                Some(e) => Some(e.clone()),
                None => None,
            },
        },
    )
}

} // verus!
