//! Authentication that lets every request through, for development.

use vstd::prelude::*;

use crate::text::text;

verus! {

/// The user that every request is taken for.
pub const DEV_USER_NAME: &'static str = "__dev_admin__";

/// Whom a request comes from.
#[derive(Debug, PartialEq, Eq)]
pub enum AuthIdentity {
    User { account_id: String, user_name: String },
}

/// Takes every request for that of one user.
#[derive(Debug, PartialEq, Eq)]
pub struct DevAuthProvider {
    pub account_id: String,
    pub user_name: String,
}

impl DevAuthProvider {
    pub fn new(account_id: String) -> (r: DevAuthProvider)
        ensures
            r.account_id@ == account_id@,
            r.user_name@ == DEV_USER_NAME@,
    {
        DevAuthProvider { account_id, user_name: text(DEV_USER_NAME) }
    }

    /// Whom a request comes from, whatever it holds.
    pub fn authenticate(&self) -> (r: AuthIdentity)
        ensures
            r matches AuthIdentity::User { account_id, user_name } && account_id@
                == self.account_id@ && user_name@ == self.user_name@,
    {
        AuthIdentity::User {
            account_id: text(self.account_id.as_str()),
            user_name: text(self.user_name.as_str()),
        }
    }
}

} // verus!
