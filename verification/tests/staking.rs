use cw20_staking::engine::{ActionKind, PoolState, ReleaseAction, StakingEvent};
use cw20_staking::errors::StakingError;
use cw20_staking::locks::LockQueue;
use cw20_staking::rewards::{PendingPayout, RewardAccount, DECIMAL_FRACTIONAL};
use cw20_staking::snapshot::SnapshotSeries;

const TOKEN: u64 = 1;
const ALICE: u64 = 7;
const BOB: u64 = 8;

fn pool(period: u64) -> PoolState {
    PoolState::new(TOKEN, 0, period, 0, 0)
}

#[test]
fn bond_records_amounts_and_snapshot() {
    let mut p = pool(0);
    let resp = p.bond(5, ALICE, 100).unwrap();
    assert_eq!(p.total_bond_amount, 100);
    assert_eq!(p.accounts.len(), 1);
    assert_eq!(p.accounts[0].addr, ALICE);
    assert_eq!(p.accounts[0].reward.bond_amount, 100);
    assert_eq!(p.accounts[0].history.value_at(5), 100);
    assert_eq!(p.total_history.value_at(5), 100);
    assert_eq!(resp.releases.len(), 0);
    assert_eq!(
        resp.events,
        vec![StakingEvent {
            action: ActionKind::Bond,
            staker: ALICE,
            staking_token: TOKEN,
            amount: 100,
            unlock_time: None,
        }]
    );
}

#[test]
fn unbond_without_period_releases_at_once() {
    let mut p = pool(0);
    p.bond(5, ALICE, 100).unwrap();
    let resp = p.unbond(6, 50, ALICE, 40).unwrap();
    assert_eq!(p.accounts[0].reward.bond_amount, 60);
    assert_eq!(p.total_bond_amount, 60);
    assert_eq!(p.accounts[0].locks.entries.len(), 0);
    assert_eq!(
        resp.releases,
        vec![ReleaseAction { recipient: ALICE, asset: TOKEN, amount: 40 }]
    );
    assert_eq!(resp.events.len(), 1);
    assert_eq!(resp.events[0].action, ActionKind::Unbond);
    assert_eq!(resp.events[0].amount, 40);
}

#[test]
fn unbond_with_period_locks_then_matures() {
    let t: u64 = 500;
    let mut p = PoolState::new(TOKEN, 0, 1000, 0, t);
    p.bond(5, ALICE, 100).unwrap();
    let resp = p.unbond(6, t, ALICE, 40).unwrap();
    assert_eq!(resp.releases.len(), 0);
    assert_eq!(resp.events.len(), 1);
    assert_eq!(resp.events[0].action, ActionKind::Unbonding);
    assert_eq!(resp.events[0].unlock_time, Some(t + 1000));
    assert_eq!(p.accounts[0].locks.entries.len(), 1);
    assert_eq!(p.accounts[0].locks.entries[0].amount, 40);
    assert_eq!(p.accounts[0].locks.entries[0].unlock_time, t + 1000);

    // before maturity a pure sweep takes nothing
    let resp = p.unbond(7, t + 999, ALICE, 0).unwrap();
    assert_eq!(resp.releases.len(), 0);
    assert_eq!(p.accounts[0].locks.entries.len(), 1);

    // at maturity the sweep releases exactly once
    let resp = p.unbond(8, t + 1000, ALICE, 0).unwrap();
    assert_eq!(
        resp.releases,
        vec![ReleaseAction { recipient: ALICE, asset: TOKEN, amount: 40 }]
    );
    assert_eq!(p.accounts[0].locks.entries.len(), 0);
    let resp = p.unbond(9, t + 1001, ALICE, 0).unwrap();
    assert_eq!(resp.releases.len(), 0);
}

#[test]
fn unbond_more_than_bonded_fails_untouched() {
    let mut p = pool(0);
    p.bond(5, ALICE, 100).unwrap();
    let r = p.unbond(6, 1, ALICE, 150);
    assert_eq!(r.unwrap_err(), StakingError::InsufficientBond);
    assert_eq!(p.total_bond_amount, 100);
    assert_eq!(p.accounts[0].reward.bond_amount, 100);
    assert_eq!(p.accounts[0].history.value_at(u64::MAX), 100);
}

#[test]
fn unbond_settles_reward_before_share_change() {
    let mut p = pool(0);
    p.bond(5, ALICE, 100).unwrap();
    p.advance_reward_index(2 * DECIMAL_FRACTIONAL);
    p.unbond(6, 1, ALICE, 50).unwrap();
    assert_eq!(p.accounts[0].reward.pending_reward, 200);
    assert_eq!(p.accounts[0].reward.bond_amount, 50);
    assert_eq!(p.accounts[0].reward.reward_index_snapshot, 2 * DECIMAL_FRACTIONAL);
}

#[test]
fn totals_conserve_over_two_accounts() {
    let mut p = pool(0);
    p.bond(1, ALICE, 100).unwrap();
    p.bond(2, BOB, 250).unwrap();
    p.unbond(3, 1, ALICE, 30).unwrap();
    p.bond(4, BOB, 50).unwrap();
    let sum: u128 = p.accounts.iter().map(|a| a.reward.bond_amount).sum();
    assert_eq!(p.total_bond_amount, sum);
    assert_eq!(sum, 70 + 300);
}

#[test]
fn pending_reward_never_decreases() {
    let mut p = pool(0);
    p.bond(1, ALICE, 100).unwrap();
    let mut last: u128 = p.accounts[0].reward.pending_reward;
    p.advance_reward_index(DECIMAL_FRACTIONAL / 2);
    p.bond(2, ALICE, 10).unwrap();
    assert!(p.accounts[0].reward.pending_reward >= last);
    last = p.accounts[0].reward.pending_reward;
    p.unbond(3, 1, ALICE, 5).unwrap();
    assert!(p.accounts[0].reward.pending_reward >= last);
    last = p.accounts[0].reward.pending_reward;
    p.advance_reward_index(3 * DECIMAL_FRACTIONAL);
    p.unbond(4, 2, ALICE, 5).unwrap();
    assert!(p.accounts[0].reward.pending_reward >= last);
}

#[test]
fn settling_twice_at_same_index_accrues_once() {
    let mut a = RewardAccount::new(0);
    a.bond_amount = 100;
    a.settle_reward(3 * DECIMAL_FRACTIONAL).unwrap();
    let first = a.pending_reward;
    assert_eq!(first, 300);
    a.settle_reward(3 * DECIMAL_FRACTIONAL).unwrap();
    assert_eq!(a.pending_reward, first);
}

#[test]
fn reward_fraction_rounds_down() {
    let mut a = RewardAccount::new(0);
    a.bond_amount = 1;
    a.settle_reward(DECIMAL_FRACTIONAL / 2).unwrap();
    assert_eq!(a.pending_reward, 0);
    let mut b = RewardAccount::new(0);
    b.bond_amount = 100;
    b.settle_reward(DECIMAL_FRACTIONAL + DECIMAL_FRACTIONAL / 2).unwrap();
    assert_eq!(b.pending_reward, 150);
}

#[test]
fn settle_overflow_is_reported_and_harmless() {
    let mut a = RewardAccount::new(0);
    a.bond_amount = u128::MAX;
    let r = a.settle_reward(2 * DECIMAL_FRACTIONAL);
    assert_eq!(r.unwrap_err(), StakingError::ArithmeticOverflow);
    assert_eq!(a.pending_reward, 0);
    assert_eq!(a.reward_index_snapshot, 0);
}

#[test]
fn bond_past_the_total_bound_fails() {
    let mut p = pool(0);
    p.bond(1, ALICE, u128::MAX).unwrap();
    let r = p.bond(2, BOB, 1);
    assert_eq!(r.unwrap_err(), StakingError::ArithmeticOverflow);
    assert_eq!(p.total_bond_amount, u128::MAX);
    assert_eq!(p.accounts.len(), 1);
}

#[test]
fn unbond_without_record_fails() {
    let mut p = pool(0);
    let r = p.unbond(1, 1, ALICE, 10);
    assert_eq!(r.unwrap_err(), StakingError::MissingAccountRecord);
    // a zero amount is a pure sweep and succeeds even without a record
    let resp = p.unbond(2, 2, ALICE, 0).unwrap();
    assert_eq!(resp.releases.len(), 0);
    assert_eq!(resp.events.len(), 0);
}

#[test]
fn snapshot_lookup_reflects_only_earlier_deltas() {
    let mut s = SnapshotSeries::new();
    s.record_add(1, 10).unwrap();
    s.record_add(5, 10).unwrap();
    assert_eq!(s.value_at(0), 0);
    assert_eq!(s.value_at(3), 10);
    assert_eq!(s.value_at(5), 20);
    s.record_add(9, 10).unwrap();
    assert_eq!(s.value_at(3), 10);
    assert_eq!(s.value_at(5), 20);
    assert_eq!(s.value_at(8), 20);
    assert_eq!(s.value_at(9), 30);
    assert_eq!(s.value_at(u64::MAX), 30);
}

#[test]
fn snapshot_same_height_overwrites() {
    let mut s = SnapshotSeries::new();
    s.record_add(4, 10).unwrap();
    s.record_sub(4, 3).unwrap();
    assert_eq!(s.entries.len(), 1);
    assert_eq!(s.value_at(4), 7);
    let r = s.record_sub(4, 100);
    assert_eq!(r.unwrap_err(), StakingError::ArithmeticUnderflow);
    assert_eq!(s.value_at(4), 7);
}

#[test]
fn lock_queue_sweeps_all_matured_exactly_once() {
    let mut q = LockQueue::new();
    q.insert_lock(10, 100).unwrap();
    q.insert_lock(20, 200).unwrap();
    assert_eq!(q.total, 30);
    assert_eq!(q.sweep(99), 0);
    assert_eq!(q.entries.len(), 2);
    assert_eq!(q.sweep(150), 10);
    assert_eq!(q.entries.len(), 1);
    assert_eq!(q.sweep(150), 0);
    assert_eq!(q.sweep(200), 20);
    assert_eq!(q.entries.len(), 0);
    assert_eq!(q.total, 0);
}

#[test]
fn full_unwind_pays_out_migration_holdbacks() {
    let mut p = pool(0);
    p.bond(1, ALICE, 50).unwrap();
    p.accounts[0].reward.pending_withdraw.push(PendingPayout { asset: 9, amount: 77 });
    let resp = p.unbond(2, 1, ALICE, 50).unwrap();
    assert_eq!(
        resp.releases,
        vec![
            ReleaseAction { recipient: ALICE, asset: 9, amount: 77 },
            ReleaseAction { recipient: ALICE, asset: TOKEN, amount: 50 },
        ]
    );
    assert_eq!(p.accounts[0].reward.pending_withdraw.len(), 0);
    assert_eq!(p.accounts[0].reward.bond_amount, 0);
}

#[test]
fn partial_unwind_keeps_migration_holdbacks() {
    let mut p = pool(0);
    p.bond(1, ALICE, 50).unwrap();
    p.accounts[0].reward.pending_withdraw.push(PendingPayout { asset: 9, amount: 77 });
    let resp = p.unbond(2, 1, ALICE, 20).unwrap();
    assert_eq!(
        resp.releases,
        vec![ReleaseAction { recipient: ALICE, asset: TOKEN, amount: 20 }]
    );
    assert_eq!(p.accounts[0].reward.pending_withdraw.len(), 1);
}

#[test]
fn lock_queue_total_bound_is_enforced() {
    let mut p = PoolState::new(TOKEN, 0, 1000, 0, 0);
    p.bond(1, ALICE, u128::MAX).unwrap();
    p.unbond(2, 0, ALICE, u128::MAX).unwrap();
    p.bond(3, ALICE, u128::MAX).unwrap();
    let r = p.unbond(4, 0, ALICE, 1);
    assert_eq!(r.unwrap_err(), StakingError::ArithmeticOverflow);
    // once the first lock matures the queue has room again
    let resp = p.unbond(5, 1000, ALICE, 1).unwrap();
    assert_eq!(resp.releases[0].amount, u128::MAX);
}

#[test]
fn lock_maturity_past_the_clock_bound_fails() {
    let start = u64::MAX - 10;
    let mut p = PoolState::new(TOKEN, 0, 1000, 0, start);
    p.bond(1, ALICE, 100).unwrap();
    let r = p.unbond(2, start, ALICE, 10);
    assert_eq!(r.unwrap_err(), StakingError::ArithmeticOverflow);
    assert_eq!(p.accounts[0].reward.bond_amount, 100);
}

#[test]
fn empty_series_reads_zero() {
    let s = SnapshotSeries::new();
    assert_eq!(s.value_at(0), 0);
    assert_eq!(s.value_at(u64::MAX), 0);
    assert_eq!(s.latest(), 0);
}

#[test]
fn sweep_and_unbond_combine_in_order() {
    let t: u64 = 100;
    let mut p = PoolState::new(TOKEN, 0, 50, 0, t);
    p.bond(1, ALICE, 100).unwrap();
    p.unbond(2, t, ALICE, 30).unwrap();
    // the lock of 30 matures at t + 50; unbond more with the sweep due
    let resp = p.unbond(3, t + 50, ALICE, 20).unwrap();
    assert_eq!(resp.releases.len(), 1);
    assert_eq!(resp.releases[0].amount, 30);
    assert_eq!(resp.events.len(), 2);
    assert_eq!(resp.events[0].action, ActionKind::Unbond);
    assert_eq!(resp.events[0].amount, 30);
    assert_eq!(resp.events[1].action, ActionKind::Unbonding);
    assert_eq!(resp.events[1].amount, 20);
    assert_eq!(p.accounts[0].locks.entries.len(), 1);
    assert_eq!(p.accounts[0].locks.entries[0].unlock_time, t + 100);
    assert_eq!(p.accounts[0].reward.bond_amount, 50);
}
