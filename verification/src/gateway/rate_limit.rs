//! Per-role request limits over a fixed one-minute window, keyed by role,
//! user and client address.
use vstd::prelude::*;
use crate::types::str_is;

verus! {

/// Requests per window for the `free` role.
pub const RATE_LIMIT_FREE: u64 = 30;

/// Requests per window for the `premium` role.
pub const RATE_LIMIT_PREMIUM: u64 = 100;

/// Length of the counting window, in seconds.
pub const WINDOW_SECS: u64 = 60;

/// The limit of a role: unlimited for `admin`, 100 for `premium`, 30 for
/// any other role.
pub open spec fn limit_of(role: Seq<char>) -> u64 {
    if role == "admin"@ {
        u64::MAX
    } else if role == "premium"@ {
        RATE_LIMIT_PREMIUM
    } else {
        RATE_LIMIT_FREE
    }
}

/// The request limit per window for `role`.
pub fn role_limit(role: &str) -> (n: u64)
    ensures
        n == limit_of(role@),
{
    if str_is(role, "admin") {
        u64::MAX
    } else if str_is(role, "premium") {
        RATE_LIMIT_PREMIUM
    } else {
        RATE_LIMIT_FREE
    }
}

/// The role used when the request carries none.
pub fn default_role() -> (r: String)
    ensures
        r@ == "free"@,
{
    String::from_str("free")
}

/// The user part of the key when the request carries no user.
pub fn anonymous_user() -> (r: String)
    ensures
        r@ == "anonymous"@,
{
    String::from_str("anonymous")
}

/// The counter key of a request: `rate_limit:{role}:{user}:{ip}`.
pub open spec fn key_text(role: Seq<char>, user: Seq<char>, ip: Seq<char>) -> Seq<char> {
    "rate_limit:"@ + role + ":"@ + user + ":"@ + ip
}

/// Builds the counter key of a request.
pub fn rate_limit_key(role: &str, user_id: &str, ip: &str) -> (k: String)
    ensures
        k@ == key_text(role@, user_id@, ip@),
{
    let mut k = String::from_str("rate_limit:");
    k.append(role);
    k.append(":");
    k.append(user_id);
    k.append(":");
    k.append(ip);
    k
}

/// Whether a request goes through, given the outcome of the counter check:
/// refused only when the check ran and said the limit is exceeded; when the
/// counter store fails the request is let through.
pub fn admits(check: &Result<bool, String>) -> (pass: bool)
    ensures
        pass == match *check {
            Ok(allowed) => allowed,
            Err(_) => true,
        },
{
    match check {
        Ok(allowed) => *allowed,
        Err(_) => true,
    }
}

/// What one increment of a window's counter decides: the request passes
/// while the count stays within `limit`, and the first hit of a window
/// (count 1) starts the window's expiry.
pub fn window_check(count: u64, limit: u64) -> (r: (bool, bool))
    ensures
        r.0 == (count <= limit),
        r.1 == (count == 1),
{
    (count <= limit, count == 1)
}

/// Administrators are never limited, premium users get more requests per
/// window than everyone else, and every other role gets the free limit.
pub proof fn lemma_role_limits_ordered(role: Seq<char>)
    ensures
        limit_of("admin"@) == u64::MAX,
        limit_of("free"@) < limit_of("premium"@) < limit_of("admin"@),
        role != "admin"@ && role != "premium"@ ==> limit_of(role) == limit_of("free"@),
{
    reveal_strlit("admin");
    reveal_strlit("premium");
    reveal_strlit("free");
    assert("free"@.len() != "admin"@.len());
    assert("free"@.len() != "premium"@.len());
    assert("premium"@.len() != "admin"@.len());
}

} // verus!
