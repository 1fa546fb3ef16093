use vstd::prelude::*;

use crate::errors::StakingError;
use crate::locks::{
    lemma_lock_sum_parts, lemma_parts_of_empty, lemma_pending_part_pred, lemma_pending_part_subset,
    lock_sum, matured_part, pending_part, LockEntry, LockQueue,
};
use crate::rewards::{
    accrued, lemma_accrued_nonneg, lemma_settle_idempotent, settle_ok, settle_would_overflow,
    PendingPayout, RewardAccount,
};
use crate::snapshot::{record_spec, SnapEntry, SnapshotSeries};

verus! {

/// What a mutating operation did, as reported in its events.
#[derive(Clone, Copy, Debug, PartialEq, Eq)]
pub enum ActionKind {
    /// Funds were bonded into the pool.
    Bond,
    /// Funds left the pool and were released at once.
    Unbond,
    /// Funds left the pool into a time lock.
    Unbonding,
}

/// One structured event attribute set emitted by an operation.
#[derive(Clone, Copy, Debug, PartialEq, Eq)]
pub struct StakingEvent {
    pub action: ActionKind,
    pub staker: u64,
    pub staking_token: u64,
    pub amount: u128,
    /// Set only for a locked unbond: when the lock matures.
    pub unlock_time: Option<u64>,
}

/// An outbound token transfer the caller must dispatch: move `amount` of
/// `asset` to `recipient`.
#[derive(Clone, Copy, Debug, PartialEq, Eq)]
pub struct ReleaseAction {
    pub recipient: u64,
    pub asset: u64,
    pub amount: u128,
}

/// What a mutating operation hands back to its caller: the transfers to
/// dispatch and the events to observe, each in the order produced.
#[derive(Debug)]
pub struct StakingResponse {
    pub releases: Vec<ReleaseAction>,
    pub events: Vec<StakingEvent>,
}

/// Everything the pool keeps per account: the reward record, the bonded
/// balance history, and the unbonding lock queue.
#[derive(Debug)]
pub struct AccountEntry {
    pub addr: u64,
    pub reward: RewardAccount,
    pub history: SnapshotSeries,
    pub locks: LockQueue,
}

/// The sum of all accounts' bonded amounts.
pub open spec fn sum_bonds(s: Seq<AccountEntry>) -> int
    decreases s.len(),
{
    if s.len() == 0 {
        0
    } else {
        sum_bonds(s.drop_last()) + s.last().reward.bond_amount
    }
}

proof fn lemma_sum_bonds_nonneg(s: Seq<AccountEntry>)
    ensures
        sum_bonds(s) >= 0,
    decreases s.len(),
{
    if s.len() > 0 {
        lemma_sum_bonds_nonneg(s.drop_last());
    }
}

proof fn lemma_sum_bonds_add(a: Seq<AccountEntry>, b: Seq<AccountEntry>)
    ensures
        sum_bonds(a + b) == sum_bonds(a) + sum_bonds(b),
    decreases b.len(),
{
    if b.len() == 0 {
        assert(a + b =~= a);
    } else {
        assert((a + b).drop_last() =~= a + b.drop_last());
        lemma_sum_bonds_add(a, b.drop_last());
    }
}

proof fn lemma_sum_bonds_push(s: Seq<AccountEntry>, e: AccountEntry)
    ensures
        sum_bonds(s.push(e)) == sum_bonds(s) + e.reward.bond_amount,
{
    assert(s.push(e).drop_last() =~= s);
}

proof fn lemma_sum_bonds_split(s: Seq<AccountEntry>, i: int)
    requires
        0 <= i < s.len(),
    ensures
        sum_bonds(s) == sum_bonds(s.subrange(0, i)) + s[i].reward.bond_amount + sum_bonds(
            s.subrange(i + 1, s.len() as int),
        ),
{
    let a = s.subrange(0, i);
    let m = seq![s[i]];
    let b = s.subrange(i + 1, s.len() as int);
    assert(s =~= (a + m) + b);
    lemma_sum_bonds_add(a + m, b);
    lemma_sum_bonds_add(a, m);
    assert(sum_bonds(m) == s[i].reward.bond_amount) by {
        assert(m.drop_last() =~= Seq::<AccountEntry>::empty());
        assert(sum_bonds(Seq::<AccountEntry>::empty()) == 0);
    }
}

/// No single account holds more than the sum of all accounts.
proof fn lemma_sum_bonds_member(s: Seq<AccountEntry>, i: int)
    requires
        0 <= i < s.len(),
    ensures
        s[i].reward.bond_amount <= sum_bonds(s),
{
    lemma_sum_bonds_split(s, i);
    lemma_sum_bonds_nonneg(s.subrange(0, i));
    lemma_sum_bonds_nonneg(s.subrange(i + 1, s.len() as int));
}

/// Replacing one account entry moves the sum by the difference of the two
/// bonded amounts.
proof fn lemma_sum_bonds_update(s: Seq<AccountEntry>, i: int, e: AccountEntry)
    requires
        0 <= i < s.len(),
    ensures
        sum_bonds(s.update(i, e)) == sum_bonds(s) - s[i].reward.bond_amount
            + e.reward.bond_amount,
{
    let s2 = s.update(i, e);
    lemma_sum_bonds_split(s, i);
    lemma_sum_bonds_split(s2, i);
    assert(s2.subrange(0, i) =~= s.subrange(0, i));
    assert(s2.subrange(i + 1, s2.len() as int) =~= s.subrange(i + 1, s.len() as int));
}

/// One staking pool with every record the accounting core owns: totals,
/// reward index, per-account entries, and the pool-total balance history.
#[derive(Debug)]
pub struct PoolState {
    /// The pool's bondable token, as an opaque identifier.
    pub staking_token: u64,
    /// Sum of all accounts' bonded amounts.
    pub total_bond_amount: u128,
    /// Cumulative reward per bonded unit, as fixed-point atomics; never
    /// decreases over the pool's lifetime.
    pub reward_index: u128,
    /// Seconds an unbonded amount stays locked; zero releases at once.
    pub unbonding_period: u64,
    /// The newest block height any operation has seen.
    pub last_height: u64,
    /// The newest block time any operation has seen.
    pub last_time: u64,
    /// Height-indexed history of `total_bond_amount`.
    pub total_history: SnapshotSeries,
    /// One entry per account that ever bonded, created lazily on first bond
    /// and never removed: membership here is the pool's staker marker.
    pub accounts: Vec<AccountEntry>,
}

impl PoolState {
    /// Conservation: the pool total always equals the sum of all accounts'
    /// bonded amounts.
    pub open spec fn conservation(self) -> bool {
        self.total_bond_amount == sum_bonds(self.accounts@)
    }

    /// Per-account health: the index snapshot never runs ahead of the pool
    /// index, the balance history tracks the bonded amount, and every queued
    /// lock matures within one unbonding period of the last seen time.
    pub open spec fn account_ok(self, a: AccountEntry) -> bool {
        &&& a.reward.reward_index_snapshot <= self.reward_index
        &&& a.history.wf()
        &&& a.history.last_height() <= self.last_height as int
        &&& a.history.current() == a.reward.bond_amount
        &&& a.locks.wf()
        &&& forall|k: int|
            0 <= k < a.locks.entries@.len() ==> a.locks.entries@[k].unlock_time as int
                <= self.last_time as int + self.unbonding_period as int
    }

    pub open spec fn wf(self) -> bool {
        &&& forall|i: int, j: int|
            0 <= i < j < self.accounts@.len() ==> self.accounts@[i].addr
                != self.accounts@[j].addr
        &&& self.conservation()
        &&& forall|i: int|
            0 <= i < self.accounts@.len() ==> self.account_ok(#[trigger] self.accounts@[i])
        &&& self.total_history.wf()
        &&& self.total_history.last_height() <= self.last_height as int
        &&& self.total_history.current() == self.total_bond_amount
    }

    pub open spec fn has_account(self, addr: u64) -> bool {
        exists|i: int| 0 <= i < self.accounts@.len() && self.accounts@[i].addr == addr
    }

    pub open spec fn idx_of(self, addr: u64) -> int {
        choose|i: int| 0 <= i < self.accounts@.len() && self.accounts@[i].addr == addr
    }

    pub open spec fn account_of(self, addr: u64) -> AccountEntry {
        self.accounts@[self.idx_of(addr)]
    }

    /// The account's bonded amount; zero when no record exists.
    pub open spec fn bond_of(self, addr: u64) -> u128 {
        if self.has_account(addr) {
            self.account_of(addr).reward.bond_amount
        } else {
            0
        }
    }

    /// The account's reward-index snapshot; a missing record reads as
    /// freshly settled at the pool's current index.
    pub open spec fn snap_of(self, addr: u64) -> u128 {
        if self.has_account(addr) {
            self.account_of(addr).reward.reward_index_snapshot
        } else {
            self.reward_index
        }
    }

    /// The account's accrued-but-unclaimed reward; zero when no record
    /// exists.
    pub open spec fn pending_of(self, addr: u64) -> u128 {
        if self.has_account(addr) {
            self.account_of(addr).reward.pending_reward
        } else {
            0
        }
    }

    /// The account's held-back migration payouts; empty when no record
    /// exists.
    pub open spec fn withdraw_of(self, addr: u64) -> Seq<PendingPayout> {
        if self.has_account(addr) {
            self.account_of(addr).reward.pending_withdraw@
        } else {
            Seq::<PendingPayout>::empty()
        }
    }

    /// The account's balance history; empty when no record exists.
    pub open spec fn history_of(self, addr: u64) -> Seq<SnapEntry> {
        if self.has_account(addr) {
            self.account_of(addr).history.entries@
        } else {
            Seq::<SnapEntry>::empty()
        }
    }

    /// The account's queued lock entries; empty when no record exists.
    pub open spec fn locks_of(self, addr: u64) -> Seq<LockEntry> {
        if self.has_account(addr) {
            self.account_of(addr).locks.entries@
        } else {
            Seq::<LockEntry>::empty()
        }
    }

    /// A bond succeeds exactly when the pending settlement fits and the
    /// pool total can grow by `amount`.
    pub open spec fn bond_ok(pre: PoolState, staker: u64, amount: u128) -> bool {
        &&& settle_ok(
            pre.reward_index,
            pre.snap_of(staker),
            pre.bond_of(staker),
            pre.pending_of(staker),
        )
        &&& pre.total_bond_amount + amount <= u128::MAX
    }

    /// The full effect of a successful bond: reward settled against the
    /// old bonded amount first, both bonded amounts grown by `amount`, and
    /// both balance histories extended at `height`.  Every other account is
    /// untouched.
    pub open spec fn bond_post(
        pre: PoolState,
        post: PoolState,
        height: u64,
        staker: u64,
        amount: u128,
    ) -> bool {
        let i = if pre.has_account(staker) {
            pre.idx_of(staker)
        } else {
            pre.accounts@.len() as int
        };
        &&& post.staking_token == pre.staking_token
        &&& post.reward_index == pre.reward_index
        &&& post.unbonding_period == pre.unbonding_period
        &&& post.last_time == pre.last_time
        &&& post.last_height == height
        &&& post.total_bond_amount == pre.total_bond_amount + amount
        &&& post.total_history.entries@ == record_spec(
            pre.total_history.entries@,
            height,
            (pre.total_bond_amount + amount) as u128,
        )
        &&& post.accounts@.len() == (if pre.has_account(staker) {
            pre.accounts@.len() as int
        } else {
            pre.accounts@.len() as int + 1
        })
        &&& (forall|j: int|
            0 <= j < pre.accounts@.len() && j != i ==> post.accounts@[j] == pre.accounts@[j])
        &&& post.accounts@[i].addr == staker
        &&& post.accounts@[i].reward.bond_amount == pre.bond_of(staker) + amount
        &&& post.accounts@[i].reward.reward_index_snapshot == pre.reward_index
        &&& post.accounts@[i].reward.pending_reward == pre.pending_of(staker) + accrued(
            pre.reward_index,
            pre.snap_of(staker),
            pre.bond_of(staker),
        )
        &&& post.accounts@[i].reward.pending_withdraw@ == pre.withdraw_of(staker)
        &&& post.accounts@[i].history.entries@ == record_spec(
            pre.history_of(staker),
            height,
            (pre.bond_of(staker) + amount) as u128,
        )
        &&& post.accounts@[i].locks.entries@ == pre.locks_of(staker)
    }

    /// Bond `amount` into the pool for `staker`.  Rewards are settled
    /// against the old bonded amount before it grows; the account record is
    /// created lazily on first use.  On any failure nothing changes.
    pub fn bond(&mut self, height: u64, staker: u64, amount: u128) -> (r: Result<
        StakingResponse,
        StakingError,
    >)
        requires
            old(self).wf(),
            amount > 0,
            old(self).last_height <= height,
        ensures
            final(self).wf(),
            r is Ok <==> Self::bond_ok(*old(self), staker, amount),
            r is Err ==> *final(self) == *old(self) && r == Err::<StakingResponse, StakingError>(
                StakingError::ArithmeticOverflow,
            ),
            r is Ok ==> Self::bond_post(*old(self), *final(self), height, staker, amount),
            r is Ok ==> final(self).has_account(staker) && final(self).bond_of(staker) == old(
                self,
            ).bond_of(staker) + amount,
            r is Ok ==> final(self).pending_of(staker) == old(self).pending_of(staker) + accrued(
                old(self).reward_index,
                old(self).snap_of(staker),
                old(self).bond_of(staker),
            ),
            r is Ok ==> final(self).pending_of(staker) >= old(self).pending_of(staker),
            r matches Ok(resp) ==> resp.releases@.len() == 0 && resp.events@.len() == 1
                && resp.events@[0] == (StakingEvent {
                action: ActionKind::Bond,
                staker,
                staking_token: old(self).staking_token,
                amount,
                unlock_time: None::<u64>,
            }),
    {
        if amount > u128::MAX - self.total_bond_amount {
            return Err(StakingError::ArithmeticOverflow);
        }
        let pool_index = self.reward_index;
        let token = self.staking_token;
        let found = self.find_account(staker);
        let ghost pre = *self;
        match found {
            Some(i) => {
                proof {
                    lemma_found(*self, staker, i as int);
                    assert(self.account_ok(self.accounts@[i as int]));
                }
                let bond0 = self.accounts[i].reward.bond_amount;
                let snap0 = self.accounts[i].reward.reward_index_snapshot;
                let pending0 = self.accounts[i].reward.pending_reward;
                if settle_would_overflow(pool_index, snap0, bond0, pending0) {
                    return Err(StakingError::ArithmeticOverflow);
                }
                proof {
                    lemma_sum_bonds_member(self.accounts@, i as int);
                    lemma_accrued_nonneg(pool_index, snap0, bond0);
                }
                let acct = &mut self.accounts[i];
                acct.reward.settle_reward(pool_index).unwrap();
                acct.reward.bond_amount = acct.reward.bond_amount + amount;
                acct.history.record_add(height, amount).unwrap();
                proof {
                    lemma_sum_bonds_update(pre.accounts@, i as int, self.accounts@[i as int]);
                }
                self.total_bond_amount = self.total_bond_amount + amount;
                self.total_history.record_add(height, amount).unwrap();
                self.last_height = height;
                proof {
                    assert forall|k: int| 0 <= k < self.accounts@.len() implies self.account_ok(
                        #[trigger] self.accounts@[k],
                    ) by {
                        assert(pre.account_ok(pre.accounts@[k]));
                    }
                    lemma_found(*self, staker, i as int);
                }
                let mut events: Vec<StakingEvent> = Vec::new();
                events.push(
                    StakingEvent {
                        action: ActionKind::Bond,
                        staker,
                        staking_token: token,
                        amount,
                        unlock_time: None,
                    },
                );
                Ok(StakingResponse { releases: Vec::new(), events })
            },
            None => {
                proof {
                    lemma_settle_idempotent(pool_index, 0, 0);
                }
                let mut reward = RewardAccount::new(pool_index);
                reward.bond_amount = amount;
                let mut history = SnapshotSeries::new();
                proof {
                    assert(history.entries@ =~= Seq::<SnapEntry>::empty());
                    assert(reward.pending_withdraw@ =~= Seq::<PendingPayout>::empty());
                }
                history.record_add(height, amount).unwrap();
                let entry = AccountEntry { addr: staker, reward, history, locks: LockQueue::new() };
                self.accounts.push(entry);
                proof {
                    lemma_sum_bonds_push(pre.accounts@, self.accounts@.last());
                    assert(self.accounts@.last().locks.entries@ =~= Seq::<LockEntry>::empty());
                }
                self.total_bond_amount = self.total_bond_amount + amount;
                self.total_history.record_add(height, amount).unwrap();
                self.last_height = height;
                proof {
                    let n = pre.accounts@.len() as int;
                    assert forall|k: int| 0 <= k < self.accounts@.len() implies self.account_ok(
                        #[trigger] self.accounts@[k],
                    ) by {
                        if k < n {
                            assert(pre.account_ok(pre.accounts@[k]));
                        }
                    }
                    lemma_found(*self, staker, n);
                }
                let mut events: Vec<StakingEvent> = Vec::new();
                events.push(
                    StakingEvent {
                        action: ActionKind::Bond,
                        staker,
                        staking_token: token,
                        amount,
                        unlock_time: None,
                    },
                );
                Ok(StakingResponse { releases: Vec::new(), events })
            },
        }
    }

    pub fn new(
        staking_token: u64,
        reward_index: u128,
        unbonding_period: u64,
        height: u64,
        time: u64,
    ) -> (p: PoolState)
        ensures
            p.wf(),
            p.staking_token == staking_token,
            p.total_bond_amount == 0,
            p.reward_index == reward_index,
            p.unbonding_period == unbonding_period,
            p.last_height == height,
            p.last_time == time,
            p.accounts@.len() == 0,
            p.total_history.entries@.len() == 0,
    {
        PoolState {
            staking_token,
            total_bond_amount: 0,
            reward_index,
            unbonding_period,
            last_height: height,
            last_time: time,
            total_history: SnapshotSeries::new(),
            accounts: Vec::new(),
        }
    }

    /// Advance the pool's reward index, which external reward distribution
    /// only ever moves forward.
    pub fn advance_reward_index(&mut self, new_index: u128)
        requires
            old(self).wf(),
            old(self).reward_index <= new_index,
        ensures
            final(self).wf(),
            final(self).reward_index == new_index,
            *final(self) == (PoolState { reward_index: new_index, ..*old(self) }),
    {
        self.reward_index = new_index;
        proof {
            assert forall|i: int| 0 <= i < self.accounts@.len() implies self.account_ok(
                #[trigger] self.accounts@[i],
            ) by {
                assert(old(self).account_ok(old(self).accounts@[i]));
            }
        }
    }

    /// A reward-migration holdback turned into the transfer that pays it
    /// out to its owner.
    pub open spec fn payout_release(staker: u64, p: PendingPayout) -> ReleaseAction {
        ReleaseAction { recipient: staker, asset: p.asset, amount: p.amount }
    }

    pub open spec fn payout_releases(staker: u64, ps: Seq<PendingPayout>) -> Seq<ReleaseAction> {
        ps.map_values(|p: PendingPayout| Self::payout_release(staker, p))
    }

    /// The transfer a sweep of matured locks produces, when it frees
    /// anything.
    pub open spec fn sweep_releases(pre: PoolState, time: u64, staker: u64) -> Seq<ReleaseAction> {
        let swept = lock_sum(matured_part(pre.locks_of(staker), time));
        if swept > 0 {
            seq![
                ReleaseAction {
                    recipient: staker,
                    asset: pre.staking_token,
                    amount: swept as u128,
                },
            ]
        } else {
            Seq::<ReleaseAction>::empty()
        }
    }

    pub open spec fn sweep_events(pre: PoolState, time: u64, staker: u64) -> Seq<StakingEvent> {
        let swept = lock_sum(matured_part(pre.locks_of(staker), time));
        if swept > 0 {
            seq![
                StakingEvent {
                    action: ActionKind::Unbond,
                    staker,
                    staking_token: pre.staking_token,
                    amount: swept as u128,
                    unlock_time: None,
                },
            ]
        } else {
            Seq::<StakingEvent>::empty()
        }
    }

    /// Whether this unbond fully unwinds the account (no bond and no
    /// pending reward left), which releases the migration holdbacks.
    pub open spec fn clears_account(pre: PoolState, staker: u64, amount: u128) -> bool {
        &&& amount > 0
        &&& pre.bond_of(staker) == amount
        &&& pre.pending_of(staker) + accrued(
            pre.reward_index,
            pre.snap_of(staker),
            pre.bond_of(staker),
        ) == 0
    }

    pub open spec fn migration_releases(pre: PoolState, staker: u64, amount: u128) -> Seq<
        ReleaseAction,
    > {
        if Self::clears_account(pre, staker, amount) {
            Self::payout_releases(staker, pre.withdraw_of(staker))
        } else {
            Seq::<ReleaseAction>::empty()
        }
    }

    /// The transfer of the freshly unbonded amount itself, owed only when
    /// the pool has no unbonding period.
    pub open spec fn final_releases(pre: PoolState, staker: u64, amount: u128) -> Seq<
        ReleaseAction,
    > {
        if amount > 0 && pre.unbonding_period == 0 {
            seq![ReleaseAction { recipient: staker, asset: pre.staking_token, amount }]
        } else {
            Seq::<ReleaseAction>::empty()
        }
    }

    pub open spec fn final_events(pre: PoolState, time: u64, staker: u64, amount: u128) -> Seq<
        StakingEvent,
    > {
        if amount == 0 {
            Seq::<StakingEvent>::empty()
        } else if pre.unbonding_period > 0 {
            seq![
                StakingEvent {
                    action: ActionKind::Unbonding,
                    staker,
                    staking_token: pre.staking_token,
                    amount,
                    unlock_time: Some((time + pre.unbonding_period) as u64),
                },
            ]
        } else {
            seq![
                StakingEvent {
                    action: ActionKind::Unbond,
                    staker,
                    staking_token: pre.staking_token,
                    amount,
                    unlock_time: None,
                },
            ]
        }
    }

    /// An unbond succeeds exactly when: a zero amount is a pure maturity
    /// sweep; otherwise the account exists, holds at least `amount`, the
    /// settlement fits, and with an unbonding period the new lock's
    /// maturity and the grown queue total stay in bounds.
    pub open spec fn unbond_ok(pre: PoolState, time: u64, staker: u64, amount: u128) -> bool {
        if amount == 0 {
            true
        } else if !pre.has_account(staker) {
            false
        } else {
            let a = pre.accounts@[pre.idx_of(staker)];
            &&& amount <= a.reward.bond_amount
            &&& settle_ok(
                pre.reward_index,
                a.reward.reward_index_snapshot,
                a.reward.bond_amount,
                a.reward.pending_reward,
            )
            &&& (pre.unbonding_period > 0 ==> {
                &&& time + pre.unbonding_period <= u64::MAX
                &&& lock_sum(pending_part(a.locks.entries@, time)) + amount <= u128::MAX
            })
        }
    }

    /// Which error a failing unbond reports: a missing record first, then
    /// an oversized amount, then any arithmetic bound.
    pub open spec fn unbond_err(pre: PoolState, staker: u64, amount: u128) -> StakingError {
        if !pre.has_account(staker) {
            StakingError::MissingAccountRecord
        } else if amount > pre.bond_of(staker) {
            StakingError::InsufficientBond
        } else {
            StakingError::ArithmeticOverflow
        }
    }

    /// The full effect of a successful unbond: matured locks swept first;
    /// for a positive amount the reward settled against the old bonded
    /// amount, both bonded amounts shrunk, both histories extended, the
    /// holdbacks cleared once the account is fully unwound, and the amount
    /// either queued as a new lock or released at once.
    pub open spec fn unbond_post(
        pre: PoolState,
        post: PoolState,
        height: u64,
        time: u64,
        staker: u64,
        amount: u128,
    ) -> bool {
        &&& post.staking_token == pre.staking_token
        &&& post.reward_index == pre.reward_index
        &&& post.unbonding_period == pre.unbonding_period
        &&& post.last_height == height
        &&& post.last_time == time
        &&& (!pre.has_account(staker) ==> {
            &&& post.accounts@ == pre.accounts@
            &&& post.total_bond_amount == pre.total_bond_amount
            &&& post.total_history.entries@ == pre.total_history.entries@
        })
        &&& (pre.has_account(staker) ==> {
            let i = pre.idx_of(staker);
            let a = pre.accounts@[i];
            let locks1 = pending_part(a.locks.entries@, time);
            &&& post.accounts@.len() == pre.accounts@.len()
            &&& (forall|j: int|
                0 <= j < pre.accounts@.len() && j != i ==> post.accounts@[j]
                    == pre.accounts@[j])
            &&& post.accounts@[i].addr == staker
            &&& (amount == 0 ==> {
                &&& post.accounts@[i].reward == a.reward
                &&& post.accounts@[i].history.entries@ == a.history.entries@
                &&& post.accounts@[i].locks.entries@ == locks1
                &&& post.total_bond_amount == pre.total_bond_amount
                &&& post.total_history.entries@ == pre.total_history.entries@
            })
            &&& (amount > 0 ==> {
                let bond1 = (a.reward.bond_amount - amount) as u128;
                let pending1 = (a.reward.pending_reward + accrued(
                    pre.reward_index,
                    a.reward.reward_index_snapshot,
                    a.reward.bond_amount,
                )) as u128;
                &&& post.accounts@[i].reward.bond_amount == bond1
                &&& post.accounts@[i].reward.reward_index_snapshot == pre.reward_index
                &&& post.accounts@[i].reward.pending_reward == pending1
                &&& post.accounts@[i].reward.pending_withdraw@ == (if bond1 == 0 && pending1
                    == 0 {
                    Seq::<PendingPayout>::empty()
                } else {
                    a.reward.pending_withdraw@
                })
                &&& post.accounts@[i].history.entries@ == record_spec(
                    a.history.entries@,
                    height,
                    bond1,
                )
                &&& post.accounts@[i].locks.entries@ == (if pre.unbonding_period > 0 {
                    locks1.push(
                        LockEntry {
                            amount,
                            unlock_time: (time + pre.unbonding_period) as u64,
                        },
                    )
                } else {
                    locks1
                })
                &&& post.total_bond_amount == pre.total_bond_amount - amount
                &&& post.total_history.entries@ == record_spec(
                    pre.total_history.entries@,
                    height,
                    (pre.total_bond_amount - amount) as u128,
                )
            })
        })
    }

    /// Unbond `amount` from the pool for `staker`.  Matured locks are always
    /// swept first, even for a zero amount; a positive amount settles the
    /// reward, shrinks the bonded amounts, and either queues a lock or
    /// releases at once.  On any failure nothing changes.
    pub fn unbond(&mut self, height: u64, time: u64, staker: u64, amount: u128) -> (r: Result<
        StakingResponse,
        StakingError,
    >)
        requires
            old(self).wf(),
            old(self).last_height <= height,
            old(self).last_time <= time,
        ensures
            final(self).wf(),
            r is Ok <==> Self::unbond_ok(*old(self), time, staker, amount),
            r is Err ==> *final(self) == *old(self) && r == Err::<StakingResponse, StakingError>(
                Self::unbond_err(*old(self), staker, amount),
            ),
            r is Ok ==> Self::unbond_post(*old(self), *final(self), height, time, staker, amount),
            r is Ok ==> final(self).pending_of(staker) >= old(self).pending_of(staker),
            r matches Ok(resp) ==> resp.releases@ == Self::sweep_releases(*old(self), time, staker)
                + Self::migration_releases(*old(self), staker, amount) + Self::final_releases(
                *old(self),
                staker,
                amount,
            ) && resp.events@ == Self::sweep_events(*old(self), time, staker) + Self::final_events(
                *old(self),
                time,
                staker,
                amount,
            ),
    {
        let pool_index = self.reward_index;
        let token = self.staking_token;
        let period = self.unbonding_period;
        let found = self.find_account(staker);
        let ghost pre = *self;
        match found {
            None => {
                if amount > 0 {
                    return Err(StakingError::MissingAccountRecord);
                }
                self.last_height = height;
                self.last_time = time;
                proof {
                    assert forall|k: int| 0 <= k < self.accounts@.len() implies self.account_ok(
                        #[trigger] self.accounts@[k],
                    ) by {
                        assert(pre.account_ok(pre.accounts@[k]));
                    }
                    lemma_parts_of_empty(time);
                }
                let resp = StakingResponse { releases: Vec::new(), events: Vec::new() };
                proof {
                    assert(resp.releases@ =~= Self::sweep_releases(pre, time, staker)
                        + Self::migration_releases(pre, staker, amount) + Self::final_releases(
                        pre,
                        staker,
                        amount,
                    ));
                    assert(resp.events@ =~= Self::sweep_events(pre, time, staker)
                        + Self::final_events(pre, time, staker, amount));
                }
                Ok(resp)
            },
            Some(i) => {
                proof {
                    lemma_found(*self, staker, i as int);
                    assert(self.account_ok(self.accounts@[i as int]));
                }
                let bond0 = self.accounts[i].reward.bond_amount;
                let snap0 = self.accounts[i].reward.reward_index_snapshot;
                let pending0 = self.accounts[i].reward.pending_reward;
                proof {
                    lemma_lock_sum_parts(self.accounts@[i as int].locks.entries@, time);
                    lemma_pending_part_subset(self.accounts@[i as int].locks.entries@, time);
                    lemma_pending_part_pred(self.accounts@[i as int].locks.entries@, time);
                    lemma_sum_bonds_member(self.accounts@, i as int);
                    lemma_accrued_nonneg(pool_index, snap0, bond0);
                }
                if amount > 0 {
                    if bond0 < amount {
                        return Err(StakingError::InsufficientBond);
                    }
                    if settle_would_overflow(pool_index, snap0, bond0, pending0) {
                        return Err(StakingError::ArithmeticOverflow);
                    }
                    if period > 0 {
                        if time > u64::MAX - period {
                            return Err(StakingError::ArithmeticOverflow);
                        }
                        let mat = self.accounts[i].locks.matured_total(time);
                        let remaining = self.accounts[i].locks.total - mat;
                        if remaining > u128::MAX - amount {
                            return Err(StakingError::ArithmeticOverflow);
                        }
                    }
                }
                let acct = &mut self.accounts[i];
                let swept = acct.locks.sweep(time);
                if amount > 0 {
                    acct.reward.settle_reward(pool_index).unwrap();
                    acct.reward.bond_amount = acct.reward.bond_amount - amount;
                    acct.history.record_sub(height, amount).unwrap();
                    if period > 0 {
                        let unlock_time = time + period;
                        acct.locks.insert_lock(amount, unlock_time).unwrap();
                    }
                }
                proof {
                    lemma_sum_bonds_update(pre.accounts@, i as int, self.accounts@[i as int]);
                }
                let mut releases: Vec<ReleaseAction> = Vec::new();
                let mut events: Vec<StakingEvent> = Vec::new();
                if swept > 0 {
                    releases.push(
                        ReleaseAction { recipient: staker, asset: token, amount: swept },
                    );
                    events.push(
                        StakingEvent {
                            action: ActionKind::Unbond,
                            staker,
                            staking_token: token,
                            amount: swept,
                            unlock_time: None,
                        },
                    );
                }
                let ghost sweep_rels = releases@;
                if amount > 0 {
                    let bond1 = self.accounts[i].reward.bond_amount;
                    let pending1 = self.accounts[i].reward.pending_reward;
                    if bond1 == 0 && pending1 == 0 {
                        let ghost mid = *self;
                        let n = self.accounts[i].reward.pending_withdraw.len();
                        let mut w: usize = 0;
                        while w < n
                            invariant
                                *self == mid,
                                0 <= w <= n,
                                i < self.accounts@.len(),
                                n == self.accounts@[i as int].reward.pending_withdraw@.len(),
                                releases@ == sweep_rels + Self::payout_releases(
                                    staker,
                                    self.accounts@[i as int].reward.pending_withdraw@.subrange(
                                        0,
                                        w as int,
                                    ),
                                ),
                            decreases n - w,
                        {
                            let p = self.accounts[i].reward.pending_withdraw[w];
                            releases.push(
                                ReleaseAction { recipient: staker, asset: p.asset, amount: p.amount },
                            );
                            proof {
                                let ps = self.accounts@[i as int].reward.pending_withdraw@;
                                assert(releases@ =~= sweep_rels + Self::payout_releases(
                                    staker,
                                    ps.subrange(0, w as int + 1),
                                ));
                            }
                            w = w + 1;
                        }
                        proof {
                            let ps = self.accounts@[i as int].reward.pending_withdraw@;
                            assert(ps.subrange(0, n as int) =~= ps);
                        }
                        let acct2 = &mut self.accounts[i];
                        acct2.reward.pending_withdraw = Vec::new();
                        proof {
                            lemma_sum_bonds_update(
                                mid.accounts@,
                                i as int,
                                self.accounts@[i as int],
                            );
                            assert(self.accounts@[i as int].reward.pending_withdraw@
                                =~= Seq::<PendingPayout>::empty());
                        }
                    }
                    if period > 0 {
                        let unlock_time = time + period;
                        events.push(
                            StakingEvent {
                                action: ActionKind::Unbonding,
                                staker,
                                staking_token: token,
                                amount,
                                unlock_time: Some(unlock_time),
                            },
                        );
                    } else {
                        releases.push(ReleaseAction { recipient: staker, asset: token, amount });
                        events.push(
                            StakingEvent {
                                action: ActionKind::Unbond,
                                staker,
                                staking_token: token,
                                amount,
                                unlock_time: None,
                            },
                        );
                    }
                    self.total_bond_amount = self.total_bond_amount - amount;
                    self.total_history.record_sub(height, amount).unwrap();
                }
                self.last_height = height;
                self.last_time = time;
                proof {
                    assert forall|k: int| 0 <= k < self.accounts@.len() implies self.account_ok(
                        #[trigger] self.accounts@[k],
                    ) by {
                        assert(pre.account_ok(pre.accounts@[k]));
                    }
                    lemma_found(*self, staker, i as int);
                    assert(releases@ =~= Self::sweep_releases(pre, time, staker)
                        + Self::migration_releases(pre, staker, amount) + Self::final_releases(
                        pre,
                        staker,
                        amount,
                    ));
                    assert(events@ =~= Self::sweep_events(pre, time, staker) + Self::final_events(
                        pre,
                        time,
                        staker,
                        amount,
                    ));
                }
                Ok(StakingResponse { releases, events })
            },
        }
    }

    fn find_account(&self, addr: u64) -> (r: Option<usize>)
        ensures
            match r {
                Some(i) => i < self.accounts@.len() && self.accounts@[i as int].addr == addr,
                None => !self.has_account(addr),
            },
    {
        let mut i: usize = 0;
        while i < self.accounts.len()
            invariant
                i <= self.accounts@.len(),
                forall|j: int| 0 <= j < i ==> self.accounts@[j].addr != addr,
            decreases self.accounts@.len() - i,
        {
            if self.accounts[i].addr == addr {
                return Some(i);
            }
            i = i + 1;
        }
        None
    }
}

/// Conservation: in every well-formed pool the recorded total equals the
/// sum of all accounts' bonded amounts.  `bond` and `unbond` both ensure
/// well-formedness, so the law holds across any sequence of operations.
pub proof fn lemma_conservation(p: PoolState)
    requires
        p.wf(),
    ensures
        p.total_bond_amount == sum_bonds(p.accounts@),
{
}

/// In a pool with pairwise-distinct account addresses, the index found for
/// an address is the only one holding it.
proof fn lemma_found(p: PoolState, addr: u64, i: int)
    requires
        forall|x: int, y: int|
            0 <= x < y < p.accounts@.len() ==> p.accounts@[x].addr != p.accounts@[y].addr,
        0 <= i < p.accounts@.len(),
        p.accounts@[i].addr == addr,
    ensures
        p.has_account(addr),
        p.idx_of(addr) == i,
{
    assert(p.has_account(addr));
    let j = p.idx_of(addr);
    if j < i {
        assert(p.accounts@[j].addr != p.accounts@[i].addr);
    } else if j > i {
        assert(p.accounts@[i].addr != p.accounts@[j].addr);
    }
}

} // verus!
