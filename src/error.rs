//! The errors that the contracts' operations report.

use vstd::prelude::*;

verus! {

/// Why an operation was refused. A refused operation changes no state.
#[derive(Clone, Copy, Debug, PartialEq, Eq, Structural)]
pub enum ContractError {
    /// The caller is not the operator, owner or whitelisted identity that the
    /// operation asks for.
    Unauthorized,
    /// The account already has a primary position, or the position is
    /// already staked.
    AlreadyStaked,
    /// The account has no staked position to unstake.
    NothingStaked,
    /// The account claiming a bonus has no staked position.
    NoPrimaryPosition,
    /// The cooldown since the account's last claim has not elapsed.
    TooSoon,
    /// A result does not fit the width it is stored in.
    ArithmeticOverflow,
}

} // verus!
