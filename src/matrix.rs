//! The answer of a chat server to an account registration.
use vstd::prelude::*;

verus! {

/// What a registration returns: the access token, the home server and the user id.
pub struct RegisterResponse {
    pub access_token: String,
    pub home_server: String,
    pub user_id: String,
}

impl RegisterResponse {
    pub fn access_token(&self) -> (r: &String)
        ensures
            r@ == self.access_token@,
    {
        &self.access_token
    }
}

} // verus!
