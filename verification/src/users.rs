//! User-facing auxiliary types: the claims carried by an access token,
//! and the failure reported when a user cannot be found.

use vstd::prelude::*;
use vstd::string::*;

verus! {

/// The claims of a decoded access token: the user id and the subject.
#[derive(Debug, Clone)]
pub struct Claims {
    pub uid: String,
    pub sub: String,
}

/// The failure raised when no user exists under an id.
#[derive(Debug)]
pub struct UserFail {
    message: String,
}

impl UserFail {
    /// The message a `UserFail` for this id carries.
    pub open spec fn spec_message_for(id: Seq<char>) -> Seq<char> {
        "Unable to find a user with id `"@ + id + "`"@
    }

    /// A failure naming the user id that could not be found.
    pub fn new(id: String) -> (r: UserFail)
        ensures
            r.spec_message() == UserFail::spec_message_for(id@),
    {
        let mut message = String::from_str("Unable to find a user with id `");
        message.append(id.as_str());
        message.append("`");
        UserFail { message }
    }

    /// The failure's message.
    pub closed spec fn spec_message(self) -> Seq<char> {
        self.message@
    }

    /// Read the failure's message.
    pub fn message(&self) -> (r: &String)
        ensures
            r@ == self.spec_message(),
    {
        &self.message
    }
}

} // verus!
