//! Who is signed in to the cloud.

use vstd::prelude::*;

verus! {

/// The `errorCode` of an answer that says the session has lapsed.
pub const NOT_LOGIN_EXCEPTION: i64 = 106;

/// The account that is signed in.
#[derive(Debug)]
pub struct CloudSession {
    pub user_id: String,
    pub name: String,
    pub company_id: Option<String>,
}

} // verus!
