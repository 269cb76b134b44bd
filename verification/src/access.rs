//! The authenticated application's identity: the token material the
//! transport presents on every request.  Obtaining a token is outside
//! work; the library only holds and shapes the values.

use vstd::prelude::*;

verus! {

/// The credentials a token is requested with.
pub struct Auth {
    pub client_id: String,
    pub client_secret: String,
}

/// One granted application token, with the derived header value the
/// transport sends.
pub struct AppAccess {
    pub access_token: String,
    pub refresh_token: Option<String>,
    pub expires_in: u64,
    pub token_type: String,
    pub client_id: String,
    pub client_secret: String,
    pub bearer_token: String,
}

impl AppAccess {
    /// The derived authorization header value.
    pub open spec fn spec_bearer(&self) -> Seq<char> {
        self.bearer_token@
    }

    /// Builds the access value from a granted token, deriving the
    /// bearer header from the access token.
    pub fn new(
        access_token: String,
        refresh_token: Option<String>,
        expires_in: u64,
        token_type: String,
        client_id: String,
        client_secret: String,
    ) -> (r: AppAccess)
        ensures
            r.access_token == access_token,
            r.refresh_token == refresh_token,
            r.expires_in == expires_in,
            r.token_type == token_type,
            r.client_id == client_id,
            r.client_secret == client_secret,
            r.spec_bearer() == "Bearer "@ + access_token@,
    {
        let mut bearer = String::new();
        bearer.append("Bearer ");
        bearer.append(access_token.as_str());
        proof {
            assert(bearer@ =~= "Bearer "@ + access_token@);
        }
        AppAccess {
            access_token,
            refresh_token,
            expires_in,
            token_type,
            client_id,
            client_secret,
            bearer_token: bearer,
        }
    }

    /// The client id the transport sends.
    pub fn get_client_id(&self) -> (r: &str)
        ensures
            r@ == self.client_id@,
    {
        self.client_id.as_str()
    }

    /// The authorization header value the transport sends.
    pub fn get_bearer_token(&self) -> (r: &str)
        ensures
            r@ == self.spec_bearer(),
    {
        self.bearer_token.as_str()
    }
}

} // verus!
