use vstd::prelude::*;

verus! {

/// The typed failures of the staking core.  Every mutating operation either
/// completes in full or returns one of these with the state untouched.
#[derive(Clone, Copy, Debug, PartialEq, Eq, Structural)]
pub enum StakingError {
    /// An unbond asked for more than the account has bonded.
    InsufficientBond,
    /// An accumulation would exceed the integer bounds.
    ArithmeticOverflow,
    /// A subtraction would go below zero.
    ArithmeticUnderflow,
    /// The reward account for the staker was never created.
    MissingAccountRecord,
}

} // verus!
