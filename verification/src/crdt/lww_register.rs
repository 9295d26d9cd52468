//! A last-write-wins register: a value tagged with its writer and write time.
use vstd::prelude::*;
use crate::prim::{Timestamp, later, now, timestamp_later};

verus! {

/// A value with the id of its writer and the time it was written. When two
/// replicas merge, the later write wins; at equal times the larger writer id
/// wins, so every replica picks the same value.
#[derive(Debug, Clone)]
pub struct LwwRegister<T> {
    pub value: T,
    pub writer_id: u128,
    pub timestamp: Timestamp,
}

/// What decides a merge: the write time, then the writer id.
pub open spec fn stamp<T>(r: LwwRegister<T>) -> (Timestamp, u128) {
    (r.timestamp, r.writer_id)
}

/// Stamp `b` beats stamp `a`: it is later, or equally late with a larger writer id.
pub open spec fn beats(b: (Timestamp, u128), a: (Timestamp, u128)) -> bool {
    later(b.0, a.0) || (b.0 == a.0 && b.1 > a.1)
}

/// The stamp a register holds after merging `b` into `a`.
pub open spec fn merged_stamp(a: (Timestamp, u128), b: (Timestamp, u128)) -> (Timestamp, u128) {
    if beats(b, a) {
        b
    } else {
        a
    }
}

impl<T: Clone> LwwRegister<T> {
    /// A register holding `value`, written now by `writer_id`.
    pub fn new(value: T, writer_id: u128) -> (r: Self)
        ensures
            r.value == value,
            r.writer_id == writer_id,
            r.timestamp.nanos < 2_000_000_000,
    {
        LwwRegister { value, writer_id, timestamp: now() }
    }

    /// Overwrites the value, recording `writer_id` and the current time.
    pub fn write(&mut self, value: T, writer_id: u128)
        ensures
            final(self).value == value,
            final(self).writer_id == writer_id,
            final(self).timestamp.nanos < 2_000_000_000,
    {
        self.value = value;
        self.writer_id = writer_id;
        self.timestamp = now();
    }

    /// Takes `other`'s value, writer and time when its stamp beats this one;
    /// tells whether it did.
    pub fn merge(&mut self, other: &Self) -> (r: bool)
        ensures
            r == beats(stamp(*other), stamp(*old(self))),
            stamp(*final(self)) == merged_stamp(stamp(*old(self)), stamp(*other)),
            r ==> cloned::<T>(other.value, final(self).value),
            !r ==> *final(self) == *old(self),
    {
        if timestamp_later(other.timestamp, self.timestamp)
            || (other.timestamp == self.timestamp && other.writer_id > self.writer_id) {
            self.value = other.value.clone();
            self.writer_id = other.writer_id;
            self.timestamp = other.timestamp;
            true
        } else {
            false
        }
    }
}

/// Merging is a choice of the greater stamp in a total order: a stamp never
/// beats itself, and of two different stamps exactly one beats the other.
pub proof fn lemma_beats_total(a: (Timestamp, u128), b: (Timestamp, u128))
    ensures
        !beats(a, a),
        a != b ==> (beats(a, b) <==> !beats(b, a)),
{
}

/// Merging a register into itself changes nothing.
pub proof fn lemma_merge_idempotent(a: (Timestamp, u128))
    ensures
        merged_stamp(a, a) == a,
{
}

/// The order in which two registers are merged does not matter.
pub proof fn lemma_merge_commutative(a: (Timestamp, u128), b: (Timestamp, u128))
    ensures
        merged_stamp(a, b) == merged_stamp(b, a),
{
}

/// Grouping of merges does not matter.
pub proof fn lemma_merge_associative(a: (Timestamp, u128), b: (Timestamp, u128), c: (Timestamp, u128))
    ensures
        merged_stamp(merged_stamp(a, b), c) == merged_stamp(a, merged_stamp(b, c)),
{
}

/// The register that results from merging `b` into `a` (values taken as they are).
pub open spec fn merged<T>(a: LwwRegister<T>, b: LwwRegister<T>) -> LwwRegister<T> {
    if beats(stamp(b), stamp(a)) {
        b
    } else {
        a
    }
}

/// Merging two registers gives the same register in either order, unless
/// they carry the same stamp with different contents (no write is ever
/// stamped twice).
pub proof fn lemma_merge_registers_commutative<T>(a: LwwRegister<T>, b: LwwRegister<T>)
    requires
        stamp(a) == stamp(b) ==> a == b,
    ensures
        merged(a, b) == merged(b, a),
{
}

} // verus!
