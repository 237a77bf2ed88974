use vstd::prelude::*;

use crate::text::{has_prefix, starts_with};

verus! {

/// Paths that are served without a signed-in user: everything outside the
/// API, and the sign-up/sign-in endpoints under `/api/auth` (but not the
/// current-user endpoint `/api/auth/user`).
pub open spec fn public_path(path: Seq<char>) -> bool {
    !has_prefix(path, "/api"@) || (has_prefix(path, "/api/auth"@) && !has_prefix(
        path,
        "/api/auth/user"@,
    ))
}

/// Whether a request for `path` may pass without a signed-in user.
pub fn is_public_path(path: &str) -> (r: bool)
    ensures
        r == public_path(path@),
{
    if !starts_with(path, "/api") {
        return true;
    }
    if starts_with(path, "/api/auth") && !starts_with(path, "/api/auth/user") {
        return true;
    }
    false
}

/// What the sign-in check does with a request.
#[derive(Clone, Copy, PartialEq, Eq, Debug, Structural)]
pub enum Access {
    /// Hand the request on to the wrapped service.
    Forward,
    /// Answer 401: signing in is required.
    Unauthorized,
}

/// The sign-in check's decision for a request for `path`, with or without a
/// signed-in user.
pub open spec fn access_for(path: Seq<char>, signed_in: bool) -> Access {
    if !signed_in && !public_path(path) {
        Access::Unauthorized
    } else {
        Access::Forward
    }
}

/// Puts a sign-in check in front of a service.
pub struct Authentication;

/// A service behind the sign-in check.
pub struct AuthenticationMiddleware<S> {
    service: S,
}

impl Authentication {
    /// Puts `service` behind the sign-in check.
    pub fn new_transform<S>(&self, service: S) -> (m: AuthenticationMiddleware<S>)
        ensures
            m.inner() == service,
    {
        AuthenticationMiddleware { service }
    }
}

impl<S> AuthenticationMiddleware<S> {
    /// The wrapped service.
    pub closed spec fn inner(&self) -> S {
        self.service
    }

    /// The wrapped service.
    pub fn service(&self) -> (s: &S)
        ensures
            *s == self.inner(),
    {
        &self.service
    }

    /// Decides a request for `path`: without a signed-in user only public
    /// paths pass.
    pub fn access(&self, path: &str, signed_in: bool) -> (a: Access)
        ensures
            a == access_for(path@, signed_in),
    {
        if !signed_in && !is_public_path(path) {
            Access::Unauthorized
        } else {
            Access::Forward
        }
    }
}

} // verus!
