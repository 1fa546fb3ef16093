use vstd::prelude::*;

use crate::errors::StakingError;

verus! {

/// One recorded point of a bonded-balance history: the balance `amount`
/// holds from block height `height` on, until a later entry overrides it.
#[derive(Clone, Copy, Debug, PartialEq, Eq, Structural)]
pub struct SnapEntry {
    pub height: u64,
    pub amount: u128,
}

/// Heights strictly increase along a history.
pub open spec fn heights_sorted(s: Seq<SnapEntry>) -> bool {
    forall|i: int, j: int| 0 <= i < j < s.len() ==> s[i].height < s[j].height
}

/// The balance recorded at or before height `h`: the amount of the latest
/// entry whose height is `<= h`, or zero when no such entry exists.
pub open spec fn value_at_spec(s: Seq<SnapEntry>, h: int) -> u128
    decreases s.len(),
{
    if s.len() == 0 {
        0
    } else if s.last().height <= h {
        s.last().amount
    } else {
        value_at_spec(s.drop_last(), h)
    }
}

/// The history after recording `v` at height `h`: a same-height entry is
/// overwritten in place, any other height is appended.
pub open spec fn record_spec(s: Seq<SnapEntry>, h: u64, v: u128) -> Seq<SnapEntry> {
    if s.len() > 0 && s.last().height == h {
        s.update(s.len() - 1, SnapEntry { height: h, amount: v })
    } else {
        s.push(SnapEntry { height: h, amount: v })
    }
}

/// Recording at height `h` leaves every lookup strictly below `h` unchanged:
/// a point-in-time query reflects only deltas applied at or before the
/// queried height, never a later one.
pub proof fn lemma_snapshot_monotonic_lookup(s: Seq<SnapEntry>, h: u64, v: u128, q: int)
    requires
        q < h,
    ensures
        value_at_spec(record_spec(s, h, v), q) == value_at_spec(s, q),
{
    let s2 = record_spec(s, h, v);
    if s.len() > 0 && s.last().height == h {
        assert(s2.last().height == h);
        assert(s2.drop_last() =~= s.drop_last());
    } else {
        assert(s2.last() == (SnapEntry { height: h, amount: v }));
        assert(s2.drop_last() =~= s);
    }
}

/// `value_at_spec` returns the amount of the entry at position `k` when that
/// entry is the last one recorded at or before `h`.
proof fn lemma_value_at_hit(s: Seq<SnapEntry>, h: int, k: int)
    requires
        heights_sorted(s),
        0 <= k < s.len(),
        s[k].height <= h,
        k + 1 < s.len() ==> s[k + 1].height > h,
    ensures
        value_at_spec(s, h) == s[k].amount,
    decreases s.len(),
{
    if k < s.len() - 1 {
        assert(s.last().height > h);
        lemma_value_at_hit(s.drop_last(), h, k);
    }
}

/// When every entry lies above `h`, a lookup at `h` falls back to zero.
proof fn lemma_value_at_miss(s: Seq<SnapEntry>, h: int)
    requires
        forall|i: int| 0 <= i < s.len() ==> s[i].height > h,
    ensures
        value_at_spec(s, h) == 0,
    decreases s.len(),
{
    if s.len() > 0 {
        lemma_value_at_miss(s.drop_last(), h);
    }
}

/// A height-indexed, append-only history of one bonded balance, supporting
/// point-in-time lookups.
#[derive(Debug)]
pub struct SnapshotSeries {
    pub entries: Vec<SnapEntry>,
}

impl SnapshotSeries {
    /// Heights strictly increase along the history.
    pub open spec fn wf(self) -> bool {
        heights_sorted(self.entries@)
    }

    /// The height of the newest entry; `-1` for an empty history.
    pub open spec fn last_height(self) -> int {
        if self.entries@.len() == 0 {
            -1
        } else {
            self.entries@.last().height as int
        }
    }

    /// The balance now in force: the newest entry's amount, zero if none.
    pub open spec fn current(self) -> u128 {
        if self.entries@.len() == 0 {
            0
        } else {
            self.entries@.last().amount
        }
    }

    pub fn new() -> (s: SnapshotSeries)
        ensures
            s.wf(),
            s.entries@.len() == 0,
            s.current() == 0,
            s.last_height() == -1,
    {
        SnapshotSeries { entries: Vec::new() }
    }

    /// The newest recorded balance, zero for an empty history.
    pub fn latest(&self) -> (r: u128)
        ensures
            r == self.current(),
    {
        let n = self.entries.len();
        if n == 0 {
            0
        } else {
            self.entries[n - 1].amount
        }
    }

    /// The balance recorded at or before height `h` (a point-in-time query):
    /// the latest entry with height `<= h`, or zero when the history starts
    /// only later.
    pub fn value_at(&self, h: u64) -> (r: u128)
        requires
            self.wf(),
        ensures
            r == value_at_spec(self.entries@, h as int),
    {
        let mut lo: usize = 0;
        let mut hi: usize = self.entries.len();
        while lo < hi
            invariant
                lo <= hi <= self.entries@.len(),
                heights_sorted(self.entries@),
                forall|i: int| 0 <= i < lo ==> self.entries@[i].height <= h,
                forall|i: int| hi <= i < self.entries@.len() ==> self.entries@[i].height > h,
            decreases hi - lo,
        {
            let mid: usize = lo + (hi - lo) / 2;
            if self.entries[mid].height <= h {
                proof {
                    assert forall|i: int| 0 <= i < mid + 1 implies self.entries@[i].height
                        <= h by {
                        if i < mid {
                            assert(self.entries@[i].height < self.entries@[mid as int].height);
                        }
                    }
                }
                lo = mid + 1;
            } else {
                hi = mid;
            }
        }
        if lo == 0 {
            proof {
                lemma_value_at_miss(self.entries@, h as int);
            }
            0
        } else {
            proof {
                lemma_value_at_hit(self.entries@, h as int, lo - 1);
            }
            self.entries[lo - 1].amount
        }
    }

    /// Record balance `v` at height `h`.  A same-height record overwrites in
    /// place, a later height appends; lookups below `h` are unaffected.
    pub fn record(&mut self, h: u64, v: u128)
        requires
            old(self).wf(),
            old(self).last_height() <= h as int,
        ensures
            final(self).entries@ == record_spec(old(self).entries@, h, v),
            final(self).wf(),
            final(self).current() == v,
            final(self).last_height() == h as int,
            forall|q: int| q < h as int ==> value_at_spec(final(self).entries@, q)
                == value_at_spec(old(self).entries@, q),
    {
        let n = self.entries.len();
        let e = SnapEntry { height: h, amount: v };
        if n > 0 && self.entries[n - 1].height == h {
            self.entries.pop();
            self.entries.push(e);
            proof {
                assert(self.entries@ =~= record_spec(old(self).entries@, h, v));
                assert forall|i: int, j: int|
                    0 <= i < j < self.entries@.len() implies self.entries@[i].height
                    < self.entries@[j].height by {
                    assert(old(self).entries@[i].height < old(self).entries@[j].height);
                }
            }
        } else {
            self.entries.push(e);
            proof {
                assert forall|i: int, j: int|
                    0 <= i < j < self.entries@.len() implies self.entries@[i].height
                    < self.entries@[j].height by {
                    if j < self.entries@.len() - 1 {
                        assert(old(self).entries@[i].height < old(self).entries@[j].height);
                    } else if i < self.entries@.len() - 1 {
                        assert(self.entries@[i] == old(self).entries@[i]);
                    }
                }
            }
        }
        proof {
            assert forall|q: int| q < h as int implies value_at_spec(self.entries@, q)
                == value_at_spec(old(self).entries@, q) by {
                lemma_snapshot_monotonic_lookup(old(self).entries@, h, v, q);
            }
        }
    }

    /// Read the newest balance, add `delta`, and record the sum at height
    /// `h`; fails with `ArithmeticOverflow` when the sum does not fit.
    pub fn record_add(&mut self, h: u64, delta: u128) -> (r: Result<(), StakingError>)
        requires
            old(self).wf(),
            old(self).last_height() <= h as int,
        ensures
            r is Ok <==> old(self).current() + delta <= u128::MAX,
            r is Ok ==> final(self).entries@ == record_spec(
                old(self).entries@,
                h,
                (old(self).current() + delta) as u128,
            ),
            r is Ok ==> final(self).wf() && final(self).current() == old(self).current() + delta
                && final(self).last_height() == h as int,
            r is Err ==> *final(self) == *old(self) && r == Err::<(), StakingError>(
                StakingError::ArithmeticOverflow,
            ),
            forall|q: int| q < h as int ==> value_at_spec(final(self).entries@, q)
                == value_at_spec(old(self).entries@, q),
    {
        let cur = self.latest();
        if delta > u128::MAX - cur {
            return Err(StakingError::ArithmeticOverflow);
        }
        self.record(h, cur + delta);
        Ok(())
    }

    /// Read the newest balance, subtract `delta`, and record the difference
    /// at height `h`; fails with `ArithmeticUnderflow` when the balance is
    /// smaller than `delta`.
    pub fn record_sub(&mut self, h: u64, delta: u128) -> (r: Result<(), StakingError>)
        requires
            old(self).wf(),
            old(self).last_height() <= h as int,
        ensures
            r is Ok <==> delta <= old(self).current(),
            r is Ok ==> final(self).entries@ == record_spec(
                old(self).entries@,
                h,
                (old(self).current() - delta) as u128,
            ),
            r is Ok ==> final(self).wf() && final(self).current() == old(self).current() - delta
                && final(self).last_height() == h as int,
            r is Err ==> *final(self) == *old(self) && r == Err::<(), StakingError>(
                StakingError::ArithmeticUnderflow,
            ),
            forall|q: int| q < h as int ==> value_at_spec(final(self).entries@, q)
                == value_at_spec(old(self).entries@, q),
    {
        let cur = self.latest();
        if delta > cur {
            return Err(StakingError::ArithmeticUnderflow);
        }
        self.record(h, cur - delta);
        Ok(())
    }
}

} // verus!
