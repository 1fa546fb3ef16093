use vstd::prelude::*;

use crate::errors::StakingError;

verus! {

/// The reward index is a fixed-point rational: a value of
/// `DECIMAL_FRACTIONAL` stands for one whole reward unit per bonded unit.
pub const DECIMAL_FRACTIONAL: u128 = 1_000_000_000_000_000_000;

/// An amount of one asset held back from an earlier pool migration, paid out
/// only once the account is fully unwound.
#[derive(Clone, Copy, Debug, PartialEq, Eq, Structural)]
pub struct PendingPayout {
    pub asset: u64,
    pub amount: u128,
}

/// The reward owed for holding `bond` units while the pool index advanced
/// from `snapshot` to `pool_index`, rounded down to whole units.
pub open spec fn accrued(pool_index: u128, snapshot: u128, bond: u128) -> int {
    (bond * (pool_index - snapshot)) / (DECIMAL_FRACTIONAL as int)
}

/// Settling succeeds exactly when the raw product and the grown pending
/// reward both fit the integer bounds.
pub open spec fn settle_ok(pool_index: u128, snapshot: u128, bond: u128, pending: u128) -> bool {
    bond * (pool_index - snapshot) <= u128::MAX && pending + accrued(pool_index, snapshot, bond)
        <= u128::MAX
}

/// A positive index gap on a non-negative bond never owes a negative reward.
pub proof fn lemma_accrued_nonneg(pool_index: u128, snapshot: u128, bond: u128)
    requires
        snapshot <= pool_index,
    ensures
        accrued(pool_index, snapshot, bond) >= 0,
{
    vstd::arithmetic::mul::lemma_mul_nonnegative(bond as int, pool_index - snapshot);
    vstd::arithmetic::div_mod::lemma_div_pos_is_pos(
        bond * (pool_index - snapshot),
        DECIMAL_FRACTIONAL as int,
    );
}

/// Settling an account whose index snapshot already equals the pool index
/// credits nothing: with no index change and no bond change, a second
/// settlement leaves `pending_reward` exactly as the first left it.
pub proof fn lemma_settle_idempotent(pool_index: u128, bond: u128, pending: u128)
    ensures
        accrued(pool_index, pool_index, bond) == 0,
        pending + accrued(pool_index, pool_index, bond) == pending,
        settle_ok(pool_index, pool_index, bond, pending),
{
    assert(bond * (pool_index - pool_index) == 0) by (nonlinear_arith);
}

/// Decide, without changing anything, whether a settlement of this record
/// against `pool_index` would overflow.
pub fn settle_would_overflow(pool_index: u128, snapshot: u128, bond: u128, pending: u128) -> (b:
    bool)
    requires
        snapshot <= pool_index,
    ensures
        !b <==> settle_ok(pool_index, snapshot, bond, pending),
{
    let gap = pool_index - snapshot;
    if bond != 0 && gap > u128::MAX / bond {
        proof {
            lemma_product_over_max(bond, gap);
        }
        return true;
    }
    proof {
        if bond != 0 {
            lemma_product_fits(bond, gap);
        }
    }
    let product = bond * gap;
    let delta = product / DECIMAL_FRACTIONAL;
    delta > u128::MAX - pending
}

/// The per-account reward-accrual record of one pool.
#[derive(Debug)]
pub struct RewardAccount {
    /// Units currently bonded by this account.
    pub bond_amount: u128,
    /// The pool's reward index as of the last settlement.
    pub reward_index_snapshot: u128,
    /// Reward accrued but not yet claimed, in whole units.
    pub pending_reward: u128,
    /// Amounts held back from a pool migration, released when the account
    /// is fully unwound.
    pub pending_withdraw: Vec<PendingPayout>,
}

impl RewardAccount {
    /// A fresh record for an account's first bond: nothing bonded, nothing
    /// pending, the index snapshot starting at the pool's current index.
    pub fn new(pool_index: u128) -> (a: RewardAccount)
        ensures
            a.bond_amount == 0,
            a.reward_index_snapshot == pool_index,
            a.pending_reward == 0,
            a.pending_withdraw@.len() == 0,
    {
        RewardAccount {
            bond_amount: 0,
            reward_index_snapshot: pool_index,
            pending_reward: 0,
            pending_withdraw: Vec::new(),
        }
    }

    /// Credit the reward owed since the last settlement and advance the
    /// index snapshot to the pool's current index.  Must run before any
    /// change of `bond_amount`, so reward accrues in proportion to the
    /// amount held during each index interval.
    pub fn settle_reward(&mut self, pool_index: u128) -> (r: Result<(), StakingError>)
        requires
            old(self).reward_index_snapshot <= pool_index,
        ensures
            r is Ok <==> settle_ok(
                pool_index,
                old(self).reward_index_snapshot,
                old(self).bond_amount,
                old(self).pending_reward,
            ),
            r is Ok ==> final(self).pending_reward == old(self).pending_reward + accrued(
                pool_index,
                old(self).reward_index_snapshot,
                old(self).bond_amount,
            ),
            r is Ok ==> final(self).reward_index_snapshot == pool_index,
            r is Ok ==> final(self).pending_reward >= old(self).pending_reward,
            final(self).bond_amount == old(self).bond_amount,
            final(self).pending_withdraw == old(self).pending_withdraw,
            r is Err ==> *final(self) == *old(self) && r == Err::<(), StakingError>(
                StakingError::ArithmeticOverflow,
            ),
    {
        let gap = pool_index - self.reward_index_snapshot;
        if self.bond_amount != 0 && gap > u128::MAX / self.bond_amount {
            proof {
                lemma_product_over_max(self.bond_amount, gap);
            }
            return Err(StakingError::ArithmeticOverflow);
        }
        proof {
            if self.bond_amount != 0 {
                lemma_product_fits(self.bond_amount, gap);
            }
        }
        let product = self.bond_amount * gap;
        let delta = product / DECIMAL_FRACTIONAL;
        if delta > u128::MAX - self.pending_reward {
            return Err(StakingError::ArithmeticOverflow);
        }
        proof {
            lemma_accrued_nonneg(pool_index, self.reward_index_snapshot, self.bond_amount);
        }
        self.pending_reward = self.pending_reward + delta;
        self.reward_index_snapshot = pool_index;
        Ok(())
    }
}

/// When the gap passes the division bound, the raw product leaves `u128`.
proof fn lemma_product_over_max(bond: u128, gap: u128)
    requires
        bond != 0,
        gap > u128::MAX as int / bond as int,
    ensures
        bond * gap > u128::MAX,
{
    vstd::arithmetic::div_mod::lemma_fundamental_div_mod(u128::MAX as int, bond as int);
    assert(bond * gap >= bond * (u128::MAX as int / bond as int + 1)) by {
        vstd::arithmetic::mul::lemma_mul_inequality(
            u128::MAX as int / bond as int + 1,
            gap as int,
            bond as int,
        );
    }
    assert(bond * (u128::MAX as int / bond as int + 1) == bond * (u128::MAX as int / bond as int)
        + bond) by (nonlinear_arith);
}

/// When the gap stays within the division bound, the raw product fits.
proof fn lemma_product_fits(bond: u128, gap: u128)
    requires
        bond != 0,
        gap <= u128::MAX as int / bond as int,
    ensures
        bond * gap <= u128::MAX,
{
    vstd::arithmetic::div_mod::lemma_fundamental_div_mod(u128::MAX as int, bond as int);
    assert(bond * gap <= bond * (u128::MAX as int / bond as int)) by {
        vstd::arithmetic::mul::lemma_mul_inequality(
            gap as int,
            u128::MAX as int / bond as int,
            bond as int,
        );
    }
}

} // verus!
