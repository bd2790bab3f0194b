//! The errors an operation can end with.
//!
//! Every error aborts the whole operation: an operation that returns one
//! leaves the ledger exactly as it was.

use vstd::prelude::*;

verus! {

#[derive(Debug, Clone, Copy, PartialEq, Eq, Structural)]
pub enum ContractError {
    /// A debit asked for more than the account holds.
    InsufficientBalance,
    /// A spend asked for more than the granted allowance.
    InsufficientAllowance,
    /// The caller may not perform the operation.
    Unauthorized,
    /// A freshly assigned id already has an owner; indicates a corrupted
    /// minted counter and is unreachable from a well-formed ledger.
    AlreadyExists,
    /// A discrete-unit transfer by someone other than the unit's owner.
    InvalidSender,
    /// A malformed token id.
    InvalidInput,
    /// The per-address mint window has not elapsed yet.
    AlreadyMintedToday,
    /// The treasury balance is exhausted.
    OutOfSupply,
    /// A lookup of an absent entry.
    NotFound,
    /// A checked addition or multiplication would wrap.
    Overflow,
}

} // verus!
