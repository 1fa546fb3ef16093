use vstd::multiset::Multiset;
use vstd::prelude::*;

use crate::errors::StakingError;

verus! {

/// One queued unbonding request: `amount` is returned to its owner once the
/// block time reaches `unlock_time`.
#[derive(Clone, Copy, Debug, PartialEq, Eq, Structural)]
pub struct LockEntry {
    pub amount: u128,
    pub unlock_time: u64,
}

/// Unlock times never decrease along the queue (first in, first to mature).
pub open spec fn locks_ordered(s: Seq<LockEntry>) -> bool {
    forall|i: int, j: int| 0 <= i < j < s.len() ==> s[i].unlock_time <= s[j].unlock_time
}

/// An entry is matured at `now` once its unlock time has passed.
pub open spec fn matured_pred(now: u64) -> spec_fn(LockEntry) -> bool {
    |e: LockEntry| e.unlock_time <= now
}

/// An entry is still pending at `now` while its unlock time lies ahead.
pub open spec fn pending_pred(now: u64) -> spec_fn(LockEntry) -> bool {
    |e: LockEntry| e.unlock_time > now
}

/// The entries a sweep at `now` drains.
#[verifier::opaque]
pub open spec fn matured_part(s: Seq<LockEntry>, now: u64) -> Seq<LockEntry> {
    s.filter(matured_pred(now))
}

/// The entries a sweep at `now` leaves in place.
#[verifier::opaque]
pub open spec fn pending_part(s: Seq<LockEntry>, now: u64) -> Seq<LockEntry> {
    s.filter(pending_pred(now))
}

/// The total amount held by a run of lock entries.
pub open spec fn lock_sum(s: Seq<LockEntry>) -> int
    decreases s.len(),
{
    if s.len() == 0 {
        0
    } else {
        lock_sum(s.drop_last()) + s.last().amount
    }
}

pub proof fn lemma_lock_sum_nonneg(s: Seq<LockEntry>)
    ensures
        lock_sum(s) >= 0,
    decreases s.len(),
{
    if s.len() > 0 {
        lemma_lock_sum_nonneg(s.drop_last());
    }
}

pub proof fn lemma_lock_sum_push(s: Seq<LockEntry>, e: LockEntry)
    ensures
        lock_sum(s.push(e)) == lock_sum(s) + e.amount,
{
    assert(s.push(e).drop_last() =~= s);
}

pub proof fn lemma_lock_sum_first(s: Seq<LockEntry>)
    requires
        s.len() > 0,
    ensures
        lock_sum(s) == s[0].amount + lock_sum(s.drop_first()),
    decreases s.len(),
{
    if s.len() == 1 {
        assert(s.drop_first() =~= Seq::<LockEntry>::empty());
        assert(s.drop_last() =~= Seq::<LockEntry>::empty());
    } else {
        lemma_lock_sum_first(s.drop_last());
        assert(s.drop_last().drop_first() =~= s.drop_first().drop_last());
        assert(s.drop_first().last() == s.last());
    }
}

pub proof fn lemma_lock_sum_add(a: Seq<LockEntry>, b: Seq<LockEntry>)
    ensures
        lock_sum(a + b) == lock_sum(a) + lock_sum(b),
    decreases b.len(),
{
    if b.len() == 0 {
        assert(a + b =~= a);
    } else {
        assert((a + b).drop_last() =~= a + b.drop_last());
        lemma_lock_sum_add(a, b.drop_last());
    }
}

/// Splitting a queue at the maturity boundary identifies the two filters:
/// the matured part is exactly the matured prefix, the pending part exactly
/// the rest.
pub proof fn lemma_filter_split(a: Seq<LockEntry>, b: Seq<LockEntry>, now: u64)
    requires
        forall|i: int| 0 <= i < a.len() ==> a[i].unlock_time <= now,
        forall|i: int| 0 <= i < b.len() ==> b[i].unlock_time > now,
    ensures
        matured_part(a + b, now) == a,
        pending_part(a + b, now) == b,
{
    reveal(matured_part);
    reveal(pending_part);
    Seq::filter_distributes_over_add(a, b, matured_pred(now));
    Seq::filter_distributes_over_add(a, b, pending_pred(now));
    lemma_filter_all_true(a, matured_pred(now));
    lemma_filter_all_false(a, pending_pred(now));
    lemma_filter_all_false(b, matured_pred(now));
    lemma_filter_all_true(b, pending_pred(now));
    assert(a.filter(matured_pred(now)) + b.filter(matured_pred(now)) =~= a);
    assert(a.filter(pending_pred(now)) + b.filter(pending_pred(now)) =~= b);
}

proof fn lemma_filter_all_true(s: Seq<LockEntry>, pred: spec_fn(LockEntry) -> bool)
    requires
        forall|i: int| 0 <= i < s.len() ==> pred(s[i]),
    ensures
        s.filter(pred) == s,
    decreases s.len(),
{
    reveal(Seq::filter);
    if s.len() > 0 {
        lemma_filter_all_true(s.drop_last(), pred);
        assert(s.drop_last().push(s.last()) =~= s);
    }
}

proof fn lemma_filter_all_false(s: Seq<LockEntry>, pred: spec_fn(LockEntry) -> bool)
    requires
        forall|i: int| 0 <= i < s.len() ==> !pred(s[i]),
    ensures
        s.filter(pred) == Seq::<LockEntry>::empty(),
    decreases s.len(),
{
    reveal(Seq::filter);
    if s.len() > 0 {
        lemma_filter_all_false(s.drop_last(), pred);
    } else {
        assert(s.filter(pred) =~= Seq::<LockEntry>::empty());
    }
}

/// Filtering keeps the full multiplicity of every value the predicate
/// accepts, and drops every value it rejects.
proof fn lemma_filter_count(s: Seq<LockEntry>, pred: spec_fn(LockEntry) -> bool, e: LockEntry)
    ensures
        pred(e) ==> s.filter(pred).to_multiset().count(e) == s.to_multiset().count(e),
        !pred(e) ==> s.filter(pred).to_multiset().count(e) == 0,
    decreases s.len(),
{
    reveal(Seq::filter);
    broadcast use vstd::seq_lib::group_to_multiset_ensures;

    if s.len() == 0 {
        assert(s.to_multiset() =~= Multiset::<LockEntry>::empty());
        assert(s.filter(pred) =~= s);
    } else {
        let dl = s.drop_last();
        lemma_filter_count(dl, pred, e);
        assert(dl.push(s.last()) =~= s);
        assert(s.to_multiset() == dl.to_multiset().insert(s.last()));
        if pred(s.last()) {
            assert(s.filter(pred) == dl.filter(pred).push(s.last()));
            assert(s.filter(pred).to_multiset() == dl.filter(pred).to_multiset().insert(s.last()));
        }
    }
}

/// Lock maturity: an entry `e` unlocking strictly after `t1` is never part
/// of a sweep at `t1` and survives it with its multiplicity intact; the
/// first sweep at `t2 >= e.unlock_time` then drains every copy of it,
/// exactly once, leaving none behind.
pub proof fn lemma_lock_maturity(s: Seq<LockEntry>, e: LockEntry, t1: u64, t2: u64)
    requires
        t1 < e.unlock_time,
        e.unlock_time <= t2,
    ensures
        !matured_part(s, t1).contains(e),
        pending_part(s, t1).to_multiset().count(e) == s.to_multiset().count(e),
        matured_part(pending_part(s, t1), t2).to_multiset().count(e) == s.to_multiset().count(e),
        pending_part(pending_part(s, t1), t2).to_multiset().count(e) == 0,
{
    reveal(matured_part);
    reveal(pending_part);
    broadcast use vstd::seq_lib::group_to_multiset_ensures;

    lemma_filter_count(s, matured_pred(t1), e);
    lemma_filter_count(s, pending_pred(t1), e);
    lemma_filter_count(pending_part(s, t1), matured_pred(t2), e);
    lemma_filter_count(pending_part(s, t1), pending_pred(t2), e);
}

proof fn lemma_filter_subset(s: Seq<LockEntry>, pred: spec_fn(LockEntry) -> bool)
    ensures
        forall|i: int| 0 <= i < s.filter(pred).len() ==> s.contains(#[trigger] s.filter(pred)[i]),
    decreases s.len(),
{
    reveal(Seq::filter);
    if s.len() > 0 {
        let dl = s.drop_last();
        lemma_filter_subset(dl, pred);
        assert forall|i: int| 0 <= i < s.filter(pred).len() implies s.contains(
            #[trigger] s.filter(pred)[i],
        ) by {
            let f = s.filter(pred);
            if pred(s.last()) && i == f.len() - 1 {
                assert(s[s.len() - 1] == s.last());
            } else {
                assert(dl.contains(dl.filter(pred)[i]));
                let j = choose|j: int| 0 <= j < dl.len() && dl[j] == dl.filter(pred)[i];
                assert(s[j] == dl[j]);
            }
        }
    }
}

/// A sweep partitions the queued amounts: what it drains and what it
/// leaves add up to the whole queue.
pub proof fn lemma_lock_sum_parts(s: Seq<LockEntry>, now: u64)
    ensures
        lock_sum(matured_part(s, now)) + lock_sum(pending_part(s, now)) == lock_sum(s),
    decreases s.len(),
{
    reveal(matured_part);
    reveal(pending_part);
    reveal(Seq::filter);
    if s.len() == 0 {
        assert(s.filter(matured_pred(now)) =~= s);
        assert(s.filter(pending_pred(now)) =~= s);
    } else {
        let dl = s.drop_last();
        lemma_lock_sum_parts(dl, now);
        if s.last().unlock_time <= now {
            lemma_lock_sum_push(dl.filter(matured_pred(now)), s.last());
        } else {
            lemma_lock_sum_push(dl.filter(pending_pred(now)), s.last());
        }
    }
}

/// An empty queue has nothing matured and nothing pending.
pub proof fn lemma_parts_of_empty(now: u64)
    ensures
        matured_part(Seq::<LockEntry>::empty(), now) == Seq::<LockEntry>::empty(),
        pending_part(Seq::<LockEntry>::empty(), now) == Seq::<LockEntry>::empty(),
        lock_sum(Seq::<LockEntry>::empty()) == 0,
{
    reveal(matured_part);
    reveal(pending_part);
    reveal(Seq::filter);
    assert(Seq::<LockEntry>::empty().filter(matured_pred(now)) =~= Seq::<LockEntry>::empty());
    assert(Seq::<LockEntry>::empty().filter(pending_pred(now)) =~= Seq::<LockEntry>::empty());
}

/// Everything a sweep leaves behind still lies ahead of `now`.
pub proof fn lemma_pending_part_pred(s: Seq<LockEntry>, now: u64)
    ensures
        forall|i: int|
            0 <= i < pending_part(s, now).len() ==> #[trigger] pending_part(
                s,
                now,
            )[i].unlock_time > now,
{
    reveal(pending_part);
    assert forall|i: int| 0 <= i < pending_part(s, now).len() implies #[trigger] pending_part(
        s,
        now,
    )[i].unlock_time > now by {
        s.lemma_filter_pred(pending_pred(now), i);
    }
}

/// Every entry a sweep leaves behind was already in the queue beforehand.
pub proof fn lemma_pending_part_subset(s: Seq<LockEntry>, now: u64)
    ensures
        forall|i: int| 0 <= i < pending_part(s, now).len() ==> s.contains(
            #[trigger] pending_part(s, now)[i],
        ),
{
    reveal(pending_part);
    lemma_filter_subset(s, pending_pred(now));
}

/// A sweep stops at the first entry still pending; what it has taken by then
/// is exactly the matured part of the queue, and what is left the pending
/// part.
proof fn lemma_sweep_post(s: Seq<LockEntry>, taken: Seq<LockEntry>, rem: Seq<LockEntry>, now: u64)
    requires
        s == taken + rem,
        forall|i: int| 0 <= i < taken.len() ==> taken[i].unlock_time <= now,
        locks_ordered(rem),
        rem.len() > 0 ==> rem[0].unlock_time > now,
    ensures
        matured_part(s, now) == taken,
        pending_part(s, now) == rem,
{
    assert forall|i: int| 0 <= i < rem.len() implies rem[i].unlock_time > now by {
        if i > 0 {
            assert(rem[0].unlock_time <= rem[i].unlock_time);
        }
    }
    lemma_filter_split(taken, rem, now);
}

/// The time-locked unbonding queue of one account in one pool, oldest entry
/// first, with the cached total of all queued amounts.
#[derive(Debug)]
pub struct LockQueue {
    pub entries: Vec<LockEntry>,
    pub total: u128,
}

impl LockQueue {
    /// Entries hold positive amounts, mature in queue order, and `total`
    /// carries their exact sum (so the sum always fits `u128`).
    pub open spec fn wf(self) -> bool {
        &&& locks_ordered(self.entries@)
        &&& forall|i: int| 0 <= i < self.entries@.len() ==> self.entries@[i].amount > 0
        &&& self.total == lock_sum(self.entries@)
    }

    pub fn new() -> (q: LockQueue)
        ensures
            q.wf(),
            q.entries@.len() == 0,
            q.total == 0,
    {
        LockQueue { entries: Vec::new(), total: 0 }
    }

    /// Queue a new unbonding request maturing at `unlock_time`, which must
    /// not precede the maturity of anything already queued.
    pub fn insert_lock(&mut self, amount: u128, unlock_time: u64) -> (r: Result<
        (),
        StakingError,
    >)
        requires
            old(self).wf(),
            amount > 0,
            forall|i: int| 0 <= i < old(self).entries@.len() ==> old(
                self,
            ).entries@[i].unlock_time <= unlock_time,
        ensures
            r is Ok <==> old(self).total + amount <= u128::MAX,
            r is Ok ==> final(self).entries@ == old(self).entries@.push(
                (LockEntry { amount, unlock_time }),
            ),
            r is Ok ==> final(self).wf() && final(self).total == old(self).total + amount,
            r is Err ==> *final(self) == *old(self) && r == Err::<(), StakingError>(
                StakingError::ArithmeticOverflow,
            ),
    {
        if amount > u128::MAX - self.total {
            return Err(StakingError::ArithmeticOverflow);
        }
        let e = LockEntry { amount, unlock_time };
        self.entries.push(e);
        self.total = self.total + amount;
        proof {
            assert(self.entries@.drop_last() =~= old(self).entries@);
        }
        Ok(())
    }

    /// The amount a sweep at `now` would release, without changing anything.
    pub fn matured_total(&self, now: u64) -> (r: u128)
        requires
            self.wf(),
        ensures
            r == lock_sum(matured_part(self.entries@, now)),
            r <= self.total,
    {
        let mut k: usize = 0;
        let mut acc: u128 = 0;
        while k < self.entries.len() && self.entries[k].unlock_time <= now
            invariant
                self.wf(),
                0 <= k <= self.entries@.len(),
                forall|i: int| 0 <= i < k ==> self.entries@[i].unlock_time <= now,
                acc == lock_sum(self.entries@.subrange(0, k as int)),
                acc <= self.total,
            decreases self.entries@.len() - k,
        {
            proof {
                let s = self.entries@;
                let taken = s.subrange(0, k as int);
                let rest = s.subrange(k as int, s.len() as int);
                assert(taken + rest =~= s);
                lemma_lock_sum_add(taken, rest);
                lemma_lock_sum_first(rest);
                lemma_lock_sum_nonneg(rest.drop_first());
                assert(s.subrange(0, k + 1) =~= taken.push(s[k as int]));
                lemma_lock_sum_push(taken, s[k as int]);
            }
            acc = acc + self.entries[k].amount;
            k = k + 1;
        }
        proof {
            let s = self.entries@;
            let taken = s.subrange(0, k as int);
            let rest = s.subrange(k as int, s.len() as int);
            assert(taken + rest =~= s);
            assert forall|i: int| 0 <= i < rest.len() implies rest[i].unlock_time > now by {
                if i > 0 {
                    assert(s[k as int].unlock_time <= s[k + i].unlock_time);
                }
            }
            lemma_filter_split(taken, rest, now);
        }
        acc
    }

    /// Drain every matured entry, all or nothing: everything with
    /// `unlock_time <= now` leaves the queue in one call, and the swept
    /// amounts are returned as one aggregate.
    /// Cut the matured prefix off the queue, leaving the cached total to the
    /// caller, and report how many entries were cut.
    fn cut_matured(&mut self, now: u64) -> (k: usize)
        requires
            old(self).wf(),
        ensures
            k <= old(self).entries@.len(),
            forall|i: int| 0 <= i < k ==> old(self).entries@[i].unlock_time <= now,
            k < old(self).entries@.len() ==> old(self).entries@[k as int].unlock_time > now,
            final(self).entries@ == old(self).entries@.subrange(
                k as int,
                old(self).entries@.len() as int,
            ),
            final(self).total == old(self).total,
    {
        let mut k: usize = 0;
        while k < self.entries.len() && self.entries[k].unlock_time <= now
            invariant
                self.entries@ == old(self).entries@,
                self.total == old(self).total,
                0 <= k <= self.entries@.len(),
                forall|i: int| 0 <= i < k ==> self.entries@[i].unlock_time <= now,
            decreases self.entries@.len() - k,
        {
            k = k + 1;
        }
        let tail = self.entries.split_off(k);
        self.entries = tail;
        k
    }

    /// Drain every matured entry, all or nothing: everything with
    /// `unlock_time <= now` leaves the queue in one call, and the swept
    /// amounts are returned as one aggregate.
    pub fn sweep(&mut self, now: u64) -> (swept: u128)
        requires
            old(self).wf(),
        ensures
            final(self).wf(),
            final(self).entries@ == pending_part(old(self).entries@, now),
            swept == lock_sum(matured_part(old(self).entries@, now)),
            final(self).total == old(self).total - swept,
            swept <= old(self).total,
    {
        let swept = self.matured_total(now);
        let k = self.cut_matured(now);
        proof {
            let s = old(self).entries@;
            let taken = s.subrange(0, k as int);
            let rest = s.subrange(k as int, s.len() as int);
            assert(taken + rest =~= s);
            assert(locks_ordered(rest));
            lemma_sweep_post(s, taken, rest, now);
            lemma_lock_sum_add(taken, rest);
            lemma_lock_sum_nonneg(rest);
            lemma_lock_sum_nonneg(taken);
        }
        self.total = self.total - swept;
        swept
    }
}

} // verus!
