//! The credential lifecycle: a bearer credential is cached, judged against
//! the clock at each access, refreshed in place when it has expired, and
//! always handed out formatted as an `Authorization` header value.
//!
//! Reading the clock and invoking the external credential-issuing process are
//! the caller's work; the decisions — whether a refresh is due, how the
//! credential changes, what is returned — are made and proved here.

use vstd::prelude::*;

verus! {

use vstd::string::StringExecFns;

/// A failure to obtain a fresh credential from the external issuing process.
#[derive(Debug)]
pub struct AuthError {
    pub message: String,
}

/// A cached bearer credential: the token, the epoch second at which it
/// expires, and the token's type.
pub struct Auth {
    pub access_token: String,
    pub expires_on: u64,
    pub token_type: String,
}

/// The header value handed to callers: the word `Bearer`, a space, the token.
pub open spec fn bearer_of(token: Seq<char>) -> Seq<char> {
    "Bearer "@ + token
}

impl Auth {
    /// A credential is expired at `now` when its expiry second has passed.
    /// A zeroed credential (expiry `0`) is expired at any positive `now`.
    pub open spec fn expired_at(self, now: u64) -> bool {
        self.expires_on < now
    }

    /// Whether the credential must be refreshed before use at time `now`.
    pub fn needs_refresh(&self, now: u64) -> (r: bool)
        ensures
            r == self.expired_at(now),
    {
        self.expires_on < now
    }

    /// Replaces the token and its expiry with freshly issued ones, leaving
    /// the other fields untouched.
    pub fn apply_refresh(&mut self, fresh: Auth)
        ensures
            final(self).access_token == fresh.access_token,
            final(self).expires_on == fresh.expires_on,
            final(self).token_type == old(self).token_type,
    {
        self.access_token = fresh.access_token;
        self.expires_on = fresh.expires_on;
    }

    /// Formats the cached token as an `Authorization` header value.
    pub fn bearer(&self) -> (r: String)
        ensures
            r@ == bearer_of(self.access_token@),
    {
        let prefix: String = "Bearer ".to_owned();
        prefix.concat(self.access_token.as_str())
    }

    /// One guarded access to the credential: given the current epoch second
    /// and the outcome of the external issuing attempt (`None` when that
    /// attempt failed or was not made), refreshes the credential in place if
    /// and only if it is expired, and returns the formatted header value.
    /// The call fails exactly when a refresh was due and none was available,
    /// and the credential is then left unchanged.
    pub fn get_valid_bearer(&mut self, now: u64, refreshed: Option<Auth>) -> (r: Result<
        String,
        AuthError,
    >)
        ensures
            !old(self).expired_at(now) ==> *final(self) == *old(self) && r is Ok && r->Ok_0@ == bearer_of(
                old(self).access_token@,
            ),
            old(self).expired_at(now) && refreshed is Some ==> final(self).access_token == refreshed->0.access_token
                && final(self).expires_on == refreshed->0.expires_on && final(self).token_type == old(
                self,
            ).token_type && r is Ok && r->Ok_0@ == bearer_of(refreshed->0.access_token@),
            r is Err <==> old(self).expired_at(now) && refreshed is None,
            r is Err ==> *final(self) == *old(self) && r->Err_0.message@ == "token refresh failed"@,
    {
        if self.expires_on < now {
            match refreshed {
                Option::Some(fresh) => {
                    self.apply_refresh(fresh);
                },
                Option::None => {
                    return Err(AuthError { message: "token refresh failed".to_owned() });
                },
            }
        }
        Ok(self.bearer())
    }
}

impl Default for Auth {
    /// The zeroed credential used when the initial, best-effort acquisition
    /// at startup fails: its expiry of `0` makes the first real access
    /// attempt a refresh.
    fn default() -> (r: Auth)
        ensures
            r.access_token@ == Seq::<char>::empty(),
            r.expires_on == 0,
            r.token_type@ == Seq::<char>::empty(),
    {
        Auth { access_token: String::new(), expires_on: 0, token_type: String::new() }
    }
}

/// The epoch second used for an expiry check: the clock's reading, or the
/// largest representable timestamp when the clock read failed, so that a
/// clock failure counts as "definitely expired" rather than as an error.
pub fn effective_now(clock: Option<u64>) -> (r: u64)
    ensures
        clock is Some ==> r == clock->0,
        clock is None ==> r == u64::MAX,
{
    match clock {
        Option::Some(n) => n,
        Option::None => u64::MAX,
    }
}

} // verus!
