//! What a bank sends back after an authorisation.
use vstd::prelude::*;

verus! {

#[derive(Debug)]
pub struct AuthCallback {
    pub code: Option<String>,
    pub state: Option<String>,
    pub error: Option<String>,
    pub error_description: Option<String>,
}

/// The heading and the text of the page that answers a callback.
pub open spec fn reply_to(failed: bool) -> (Seq<char>, Seq<char>) {
    if failed {
        ("Authorization failed"@, "Check the terminal for details."@)
    } else {
        ("Bank connected"@, "You can close this window."@)
    }
}

pub fn reply(callback: &AuthCallback) -> (r: (&'static str, &'static str))
    ensures
        (r.0@, r.1@) == reply_to(callback.error is Some),
{
    if callback.error.is_some() {
        ("Authorization failed", "Check the terminal for details.")
    } else {
        ("Bank connected", "You can close this window.")
    }
}

/// The page says that the bank is connected exactly where it told of no error.
pub proof fn law_failures_are_not_told_as_success(failed: bool)
    ensures
        reply_to(failed).0 == "Bank connected"@ <==> !failed,
        reply_to(failed).0 == "Authorization failed"@ <==> failed,
{
    reveal_strlit("Bank connected");
    reveal_strlit("Authorization failed");
    assert("Bank connected"@[0] == 'B' && "Authorization failed"@[0] == 'A');
}

} // verus!
