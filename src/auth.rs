//! The login handler's answer, from the credentials decoded from a request body.

use vstd::prelude::*;
use vstd::string::*;

use crate::server::{HttpStatus, IResponse, Response};

verus! {

/// A user name and password, as a login request carries them.
pub struct Credentials {
    pub username: String,
    pub password: String,
}

/// The body that a login with well-formed credentials answers with.
pub open spec fn login_body(username: Seq<char>, password: Seq<char>) -> Seq<char> {
    "username: "@ + username + ", password: "@ + password
}

/// The body that a login without well-formed credentials answers with.
pub open spec fn login_rejection() -> Seq<char> {
    "Invalid data format, expect {'username': string, 'password': string}"@
}

/// The login handler's response: with credentials, a 200 response that
/// echoes them; without (the body did not decode to them), a 400 response
/// that says what was expected.
pub fn login_response(cred: Option<Credentials>) -> (r: Response)
    ensures
        match cred {
            Some(c) => {
                &&& r.body_view() == login_body(c.username@, c.password@)
                &&& r.status_view() == HttpStatus::OK.status_line()
            },
            None => {
                &&& r.body_view() == login_rejection()
                &&& r.status_view() == HttpStatus::BAD_REQUEST.status_line()
            },
        },
{
    match cred {
        Some(c) => {
            let body = String::from_str("username: ").concat(c.username.as_str()).concat(
                ", password: ",
            ).concat(c.password.as_str());
            Response::new(body, HttpStatus::OK.to_string())
        },
        None => Response::new(
            String::from_str(
                "Invalid data format, expect {'username': string, 'password': string}",
            ),
            HttpStatus::BAD_REQUEST.to_string(),
        ),
    }
}

} // verus!
