//! The GoCardless bank account data API.
use vstd::prelude::*;

verus! {

pub const BASE_URL: &'static str = "https://bankaccountdata.gocardless.com/api/v2";

/// The path at which a token is asked for.
pub const TOKEN_PATH: &'static str = "/token/new/";

#[derive(Debug)]
pub struct TokenResponse {
    pub access: String,
    pub access_expires: i64,
    pub refresh: String,
    pub refresh_expires: i64,
}

} // verus!
