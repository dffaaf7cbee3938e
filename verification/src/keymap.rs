//! Action identifiers: a tag for the enumeration an action belongs to, and its ordinal there.
use vstd::prelude::*;

verus! {

/// The identity of an action: the tag of the enumeration it comes from, and its ordinal in
/// that enumeration. Two enumerations with different tags may both use ordinal 0.
#[derive(Clone, Copy, Debug, PartialEq, Eq, Structural, Hash, PartialOrd, Ord)]
pub struct AnyKey {
    pub kind: u32,
    pub ordinal: u16,
}

/// Something that can be used as a key of the action tables.
pub trait AsAnyKey {
    fn key(&self) -> AnyKey;
}

/// A value of a closed enumeration of actions.
pub trait Action {
    fn to_id(&self) -> AnyKey;
}

impl AnyKey {
    pub fn new(kind: u32, ordinal: u16) -> (id: AnyKey)
        ensures
            id == (AnyKey { kind, ordinal }),
    {
        AnyKey { kind, ordinal }
    }

    /// The number under which the tables file this identifier.
    pub open spec fn code(self) -> u64 {
        (self.kind * 65536 + self.ordinal) as u64
    }

    /// The identifier that `code` files under `c`, for `c` below 2^48.
    pub open spec fn of_code(c: u64) -> AnyKey {
        AnyKey { kind: (c / 65536) as u32, ordinal: (c % 65536) as u16 }
    }

    /// `code` as an executable function.
    pub fn to_code(&self) -> (c: u64)
        ensures
            c == self.code(),
    {
        self.kind as u64 * 65536 + self.ordinal as u64
    }
}

/// Different identifiers have different codes.
pub proof fn lemma_code_injective(a: AnyKey, b: AnyKey)
    ensures
        a.code() == b.code() <==> a == b,
        AnyKey::of_code(a.code()) == a,
{
}

impl AsAnyKey for AnyKey {
    fn key(&self) -> (id: AnyKey)
        ensures
            id == *self,
    {
        *self
    }
}

impl Action for AnyKey {
    fn to_id(&self) -> (id: AnyKey)
        ensures
            id == *self,
    {
        *self
    }
}

/// The ordinal of `key` if it belongs to the enumeration tagged `kind`, and nothing if it
/// belongs to another.
pub fn from_key(key: &AnyKey, kind: u32) -> (ordinal: Option<u16>)
    ensures
        ordinal == (if key.kind == kind {
            Some(key.ordinal)
        } else {
            None
        }),
{
    if key.kind != kind {
        None
    } else {
        Some(key.ordinal)
    }
}

} // verus!
