use vstd::prelude::*;

verus! {

/// Identifier of a token ("kitty"): an unsigned integer that is never reused.
/// An id is either unassigned (no owner) or owned by exactly one account.
pub type KittyId = u32;

/// Identifier of a ledger participant: a fixed-size 256-bit value, held as
/// four 64-bit words.
///
/// The all-zero value is the reserved "zero account" sentinel meaning
/// "no account": it can never own a token, be a transfer destination, or act
/// as an authorized caller.
#[derive(Clone, Copy, PartialEq, Eq, Structural, Debug)]
pub struct AccountId {
    pub w0: u64,
    pub w1: u64,
    pub w2: u64,
    pub w3: u64,
}

impl AccountId {
    /// True exactly of the reserved zero-account sentinel.
    pub open spec fn is_zero_spec(self) -> bool {
        self.w0 == 0 && self.w1 == 0 && self.w2 == 0 && self.w3 == 0
    }

    /// Build an account identifier from its four 64-bit words.
    pub fn from_words(w0: u64, w1: u64, w2: u64, w3: u64) -> (account: Self)
        ensures
            account == (AccountId { w0, w1, w2, w3 }),
    {
        AccountId { w0, w1, w2, w3 }
    }

    /// The reserved sentinel meaning "no account".
    pub fn zero() -> (account: Self)
        ensures
            account.is_zero_spec(),
    {
        AccountId { w0: 0, w1: 0, w2: 0, w3: 0 }
    }

    /// Whether this identifier is the reserved zero-account sentinel.
    pub fn is_zero(&self) -> (zero: bool)
        ensures
            zero == self.is_zero_spec(),
    {
        self.w0 == 0 && self.w1 == 0 && self.w2 == 0 && self.w3 == 0
    }
}

} // verus!
