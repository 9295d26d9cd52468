//! Bearer tokens: the claims they carry and how a header names one.
use vstd::prelude::*;
use crate::types::str_is;

verus! {

/// What a signed token asserts: the user id, the user name, and the expiry
/// and issue times in seconds since the Unix epoch.
#[derive(Debug)]
pub struct Claims {
    pub sub: u128,
    pub username: String,
    pub exp: i64,
    pub iat: i64,
}

/// The scheme prefix of an `Authorization` header that carries a token.
pub open spec fn bearer_prefix() -> Seq<char> {
    "Bearer "@
}

/// The token in an `Authorization` header value: what follows the
/// `Bearer ` prefix, or nothing when the value does not start with it.
pub open spec fn bearer_of(value: Seq<char>) -> Option<Seq<char>> {
    if value.len() >= 7 && value.subrange(0, 7) == bearer_prefix() {
        Some(value.subrange(7, value.len() as int))
    } else {
        None
    }
}

/// Extracts the token from an `Authorization` header value.
pub fn bearer_token(value: &str) -> (t: Option<String>)
    ensures
        match bearer_of(value@) {
            Some(s) => t matches Some(r) && r@ == s,
            None => t is None,
        },
{
    proof {
        reveal_strlit("Bearer ");
    }
    let n = value.unicode_len();
    if n < 7 {
        return None;
    }
    let head = value.substring_char(0, 7);
    if !str_is(head, "Bearer ") {
        return None;
    }
    let rest = value.substring_char(7, n);
    Some(String::from_str(rest))
}

/// The user a request acts as: the token's subject when the token checked
/// out, the configured development user otherwise.
pub fn acting_user(verified_subject: Option<u128>, dev_user_id: u128) -> (u: u128)
    ensures
        u == match verified_subject {
            Some(s) => s,
            None => dev_user_id,
        },
{
    match verified_subject {
        Some(s) => s,
        None => dev_user_id,
    }
}

/// The claims of a token issued at `now_secs` to `user` (named `username`)
/// and valid for `hours` hours: issued now, expiring `3600 * hours` seconds
/// later.
pub fn token_claims(user: u128, username: String, now_secs: i64, hours: i64) -> (c: Claims)
    requires
        i64::MIN <= 3600 * hours <= i64::MAX,
        i64::MIN <= now_secs + 3600 * hours <= i64::MAX,
    ensures
        c.sub == user,
        c.username == username,
        c.iat == now_secs,
        c.exp == now_secs + 3600 * hours,
{
    Claims { sub: user, username, exp: now_secs + 3600 * hours, iat: now_secs }
}

} // verus!
