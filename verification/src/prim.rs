//! Identifiers, clock readings, IEEE-754 bit patterns and opaque JSON payloads.
//!
//! Identifiers are 128-bit UUIDs held as their big-endian `u128` value, so that
//! the numeric order of two ids is the byte order of the UUIDs.  Floating-point
//! quantities (probabilities, rewards, canvas positions) are carried as the
//! bit pattern of an IEEE-754 binary64 value; the library compares them but
//! never does arithmetic on them.
use vstd::prelude::*;

verus! {

/// A 128-bit identifier (the big-endian value of a UUID).
pub type Id = u128;

/// The IEEE-754 binary64 bit pattern of a floating-point quantity.
pub type FloatBits = u64;

/// The nil UUID.
pub const NIL_ID: u128 = 0u128;

/// A version-4 (random) UUID: version nibble 4 and the RFC 4122 variant.
pub open spec fn is_random_uuid(id: u128) -> bool {
    &&& (id >> 76u128) & 0xfu128 == 4u128
    &&& (id >> 62u128) & 0x3u128 == 2u128
}

/// Draws a fresh random identifier.
///
/// Calls `uuid::Uuid::new_v4`. Its value comes from the operating system's
/// random source, so the contract only states the version and variant bits
/// that `uuid::Builder::from_random_bytes` writes into every such UUID.
#[verifier::external_body]
pub(crate) fn new_id() -> (id: u128)
    ensures
        is_random_uuid(id),
{
    uuid::Uuid::new_v4().as_u128()
}

/// Lower-case hexadecimal digit for a nibble.
pub open spec fn hex_digit(n: u128) -> char {
    if n < 10 {
        ((n + 48) as u8) as char
    } else {
        ((n + 87) as u8) as char
    }
}

/// The `k`-th nibble of `id`, counting from the most significant one.
pub open spec fn nibble(id: u128, k: int) -> u128 {
    (id >> ((4 * (31 - k)) as u128)) & 0xfu128
}

/// The hyphenated lower-case text of a UUID: 8-4-4-4-12 hexadecimal digits.
pub open spec fn hyphenated(id: u128) -> Seq<char> {
    Seq::new(36, |i: int|
        if i == 8 || i == 13 || i == 18 || i == 23 {
            '-'
        } else {
            let k = if i < 8 { i } else if i < 13 { i - 1 } else if i < 18 { i - 2 } else if i < 23 { i - 3 } else { i - 4 };
            hex_digit(nibble(id, k))
        })
}

/// Renders an identifier the way `Uuid`'s `Display` does.
///
/// Calls `uuid::Uuid::to_string`; `Display` for `Uuid` writes the hyphenated
/// lower-case form (`fmt.rs`, `format_hyphenated` with `upper = false`).
#[verifier::external_body]
pub(crate) fn id_to_string(id: u128) -> (s: String)
    ensures
        s@ == hyphenated(id),
{
    uuid::Uuid::from_u128(id).to_string()
}

/// A UTC clock reading: whole seconds since the Unix epoch and the
/// sub-second nanoseconds (up to 1_999_999_999 during a leap second).
#[derive(Clone, Copy, Debug, PartialEq, Eq, Structural)]
pub struct Timestamp {
    pub secs: i64,
    pub nanos: u32,
}

/// `a` is strictly later than `b` (the order of `chrono::DateTime<Utc>`).
pub open spec fn later(a: Timestamp, b: Timestamp) -> bool {
    a.secs > b.secs || (a.secs == b.secs && a.nanos > b.nanos)
}

/// Reads the current UTC time.
///
/// Calls `chrono::Utc::now`; of the reading only the documented range of
/// `timestamp_subsec_nanos` is stated.
#[verifier::external_body]
pub(crate) fn now() -> (t: Timestamp)
    ensures
        t.nanos < 2_000_000_000,
{
    let n = chrono::Utc::now();
    Timestamp { secs: n.timestamp(), nanos: n.timestamp_subsec_nanos() }
}

/// Compares two clock readings in chronological order.
pub fn timestamp_later(a: Timestamp, b: Timestamp) -> (r: bool)
    ensures
        r == later(a, b),
{
    a.secs > b.secs || (a.secs == b.secs && a.nanos > b.nanos)
}

/// Magnitude bits (everything but the sign) of a binary64 pattern.
pub open spec fn magnitude(bits: u64) -> u64 {
    bits & 0x7fff_ffff_ffff_ffffu64
}

/// The pattern encodes a NaN.
pub open spec fn is_nan(bits: u64) -> bool {
    magnitude(bits) > 0x7ff0_0000_0000_0000u64
}

/// The sign bit is set.
pub open spec fn sign_set(bits: u64) -> bool {
    bits >> 63u64 == 1u64
}

/// For a non-NaN pattern, an integer whose order is the IEEE-754 order of the
/// encoded values (both zeros map to 0).
pub open spec fn order_key(bits: u64) -> int {
    if sign_set(bits) {
        -(magnitude(bits) as int)
    } else {
        magnitude(bits) as int
    }
}

/// IEEE-754 `a > b` on binary64 patterns: false when either is NaN.
pub open spec fn float_gt(a: u64, b: u64) -> bool {
    !is_nan(a) && !is_nan(b) && order_key(a) > order_key(b)
}

/// Bit pattern of 0.0.
pub const FLOAT_ZERO: u64 = 0u64;

/// Bit pattern of 1.0.
pub const FLOAT_ONE: u64 = 0x3ff0_0000_0000_0000u64;

/// Bit pattern of negative infinity.
pub const FLOAT_NEG_INFINITY: u64 = 0xfff0_0000_0000_0000u64;

/// The value lies outside [0, 1]: `p < 0.0 || p > 1.0` in IEEE-754
/// (a NaN is not outside, since both comparisons are false for it).
pub open spec fn outside_unit_interval(p: u64) -> bool {
    float_gt(FLOAT_ZERO, p) || float_gt(p, FLOAT_ONE)
}

/// Decides `a > b` for two binary64 patterns.
pub fn float_greater(a: u64, b: u64) -> (r: bool)
    ensures
        r == float_gt(a, b),
{
    let ma = a & 0x7fff_ffff_ffff_ffffu64;
    let mb = b & 0x7fff_ffff_ffff_ffffu64;
    if ma > 0x7ff0_0000_0000_0000u64 || mb > 0x7ff0_0000_0000_0000u64 {
        return false;
    }
    let sa = a >> 63u64 == 1u64;
    let sb = b >> 63u64 == 1u64;
    if !sa && !sb {
        ma > mb
    } else if sa && sb {
        ma < mb
    } else if !sa && sb {
        ma != 0 || mb != 0
    } else {
        false
    }
}

/// Decides whether a probability lies outside [0, 1].
pub fn probability_out_of_range(p: u64) -> (r: bool)
    ensures
        r == outside_unit_interval(p),
{
    float_greater(FLOAT_ZERO, p) || float_greater(p, FLOAT_ONE)
}

/// A JSON document carried through the library without being read.
#[verifier::external_type_specification]
#[verifier::external_body]
pub struct ExJsonValue(serde_json::Value);

/// The JSON `null` value.
///
/// Calls `serde_json::Value::default`, which is `Value::Null`; the value is
/// opaque to the library, so nothing is stated of it.
#[verifier::external_body]
pub(crate) fn json_null() -> (v: serde_json::Value) {
    serde_json::Value::default()
}

/// An empty JSON object `{}`.
///
/// Builds `serde_json::Value::Object` from `serde_json::Map::new`; the value is
/// opaque to the library, so nothing is stated of it.
#[verifier::external_body]
pub(crate) fn json_empty_object() -> (v: serde_json::Value) {
    serde_json::Value::Object(serde_json::Map::new())
}

/// An empty JSON array `[]`.
///
/// Builds `serde_json::Value::Array` from an empty `Vec`; the value is opaque
/// to the library, so nothing is stated of it.
#[verifier::external_body]
pub(crate) fn json_empty_array() -> (v: serde_json::Value) {
    serde_json::Value::Array(Vec::new())
}

/// Copies a JSON document.
///
/// Calls `serde_json::Value::clone`. `Value` derives `Clone`, so the copy is
/// the same document; that equality is all the contract states.
#[verifier::external_body]
pub(crate) fn json_clone(v: &serde_json::Value) -> (c: serde_json::Value)
    ensures
        c == *v,
{
    v.clone()
}

} // verus!
