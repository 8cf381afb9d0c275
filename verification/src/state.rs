//! The metadata snapshot of one shard at one SeqNo.
//!
//! The log treats most of a state as an opaque remainder; what it reads and
//! maintains itself is the state's own SeqNo, its shard, and the registry of
//! rollups: a mapping from SeqNo to the partial blob key of a full snapshot
//! written at that SeqNo. The registry is kept as a vector strictly sorted by
//! SeqNo, which doubles as the canonical wire order.

use vstd::prelude::*;
use crate::paths::{PartialRollupKey, ShardId};
use crate::seqno::SeqNo;

verus! {

/// The mathematical content of a rollup registry: pairs of a SeqNo and the
/// partial key registered for it, strictly sorted by SeqNo.
pub open spec fn reg_sorted(s: Seq<(u64, Seq<u8>)>) -> bool {
    forall|i: int, j: int| 0 <= i < j < s.len() ==> s[i].0 < s[j].0
}

/// Whether the registry has an entry for `k`.
pub open spec fn reg_contains(s: Seq<(u64, Seq<u8>)>, k: u64) -> bool {
    exists|i: int| 0 <= i < s.len() && s[i].0 == k
}

/// The index of the entry for `k` (unique when the registry is sorted).
pub open spec fn reg_index_of(s: Seq<(u64, Seq<u8>)>, k: u64) -> int {
    choose|i: int| 0 <= i < s.len() && s[i].0 == k
}

/// The key registered for `k`, if any.
pub open spec fn reg_lookup(s: Seq<(u64, Seq<u8>)>, k: u64) -> Option<Seq<u8>> {
    if reg_contains(s, k) {
        Some(s[reg_index_of(s, k)].1)
    } else {
        None
    }
}

/// Whether some entry registers the partial key `v`.
pub open spec fn reg_has_value(s: Seq<(u64, Seq<u8>)>, v: Seq<u8>) -> bool {
    exists|i: int| 0 <= i < s.len() && s[i].1 == v
}

/// In a sorted registry the entry for a key is unique.
pub proof fn lemma_reg_index_unique(s: Seq<(u64, Seq<u8>)>, k: u64, i: int)
    requires
        reg_sorted(s),
        0 <= i < s.len(),
        s[i].0 == k,
    ensures
        reg_contains(s, k),
        reg_index_of(s, k) == i,
        reg_lookup(s, k) == Some(s[i].1),
{
    assert(reg_contains(s, k));
    let j = reg_index_of(s, k);
    if j < i {
        assert(s[j].0 < s[i].0);
    } else if i < j {
        assert(s[i].0 < s[j].0);
    }
}

/// The mathematical content of a registry vector.
pub open spec fn reg_of(rollups: Seq<(SeqNo, PartialRollupKey)>) -> Seq<(u64, Seq<u8>)> {
    Seq::new(rollups.len(), |i: int| (rollups[i].0.0, rollups[i].1@))
}

/// The mathematical content of a [`State`].
pub struct StateView {
    pub seqno: u64,
    pub shard_id: u64,
    pub hostname: Seq<u8>,
    pub walltime_ms: u64,
    pub extra: Seq<u8>,
    pub rollups: Seq<(u64, Seq<u8>)>,
}

impl StateView {
    /// Well-formedness: the registry is strictly sorted and registers no
    /// SeqNo later than the state itself.
    pub open spec fn wf(self) -> bool {
        &&& reg_sorted(self.rollups)
        &&& forall|i: int| 0 <= i < self.rollups.len() ==> #[trigger] self.rollups[i].0 <= self.seqno
    }
}

/// One shard's metadata snapshot at one SeqNo.
///
/// Outside of the registry and the header fields, the contents (collection
/// frontiers, batch inventories, leases) are carried as opaque bytes in
/// `extra`: this log stores and moves them but never interprets them.
#[derive(Debug)]
pub struct State {
    pub seqno: SeqNo,
    pub shard_id: ShardId,
    pub hostname: Vec<u8>,
    pub walltime_ms: u64,
    pub extra: Vec<u8>,
    pub rollups: Vec<(SeqNo, PartialRollupKey)>,
}

impl View for State {
    type V = StateView;

    open spec fn view(&self) -> StateView {
        StateView {
            seqno: self.seqno.0,
            shard_id: self.shard_id.0,
            hostname: self.hostname@,
            walltime_ms: self.walltime_ms,
            extra: self.extra@,
            rollups: reg_of(self.rollups@),
        }
    }
}

impl State {
    /// The empty state of a shard, before its first write: SeqNo zero and an
    /// empty registry. `hostname` and `walltime_ms` are diagnostic stamps
    /// supplied by the caller's configuration.
    pub fn new(shard_id: ShardId, hostname: Vec<u8>, walltime_ms: u64) -> (r: State)
        ensures
            r@ == (StateView {
                seqno: 0,
                shard_id: shard_id.0,
                hostname: hostname@,
                walltime_ms,
                extra: Seq::<u8>::empty(),
                rollups: Seq::<(u64, Seq<u8>)>::empty(),
            }),
            r@.wf(),
    {
        let r = State {
            seqno: SeqNo(0),
            shard_id,
            hostname,
            walltime_ms,
            extra: Vec::new(),
            rollups: Vec::new(),
        };
        proof {
            assert(r@.rollups =~= Seq::<(u64, Seq<u8>)>::empty());
            assert(r@.extra =~= Seq::<u8>::empty());
        }
        r
    }

    /// The state's own SeqNo.
    pub fn seqno(&self) -> (r: SeqNo)
        ensures
            r.0 == self@.seqno,
    {
        self.seqno
    }

    /// The state's shard.
    pub fn shard_id(&self) -> (r: ShardId)
        ensures
            r.0 == self@.shard_id,
    {
        self.shard_id
    }

    /// The index of the registry entry for `k`, or the registry's length if
    /// there is none.
    fn reg_find(&self, k: u64) -> (r: usize)
        ensures
            r <= self@.rollups.len(),
            r < self@.rollups.len() ==> self@.rollups[r as int].0 == k,
            r == self@.rollups.len() ==> !reg_contains(self@.rollups, k),
    {
        let mut i: usize = 0;
        while i < self.rollups.len()
            invariant
                i <= self@.rollups.len(),
                forall|j: int| 0 <= j < i ==> self@.rollups[j].0 != k,
            decreases self@.rollups.len() - i,
        {
            if self.rollups.get(i).unwrap().0.0 == k {
                return i;
            }
            i = i + 1;
        }
        i
    }

    /// The most recently registered rollup: the entry with the largest SeqNo.
    pub fn latest_rollup(&self) -> (r: (SeqNo, PartialRollupKey))
        requires
            self@.rollups.len() > 0,
        ensures
            r.0.0 == self@.rollups.last().0,
            r.1@ == self@.rollups.last().1,
    {
        let e = self.rollups.get(self.rollups.len() - 1).unwrap();
        (e.0, e.1.copy())
    }

    /// The partial key registered for `seqno`, if any.
    pub fn rollup_at(&self, seqno: SeqNo) -> (r: Option<PartialRollupKey>)
        requires
            self@.wf(),
        ensures
            match r {
                Some(key) => reg_lookup(self@.rollups, seqno.0) == Some(key@),
                None => reg_lookup(self@.rollups, seqno.0) is None,
            },
    {
        let i = self.reg_find(seqno.0);
        if i < self.rollups.len() {
            proof {
                lemma_reg_index_unique(self@.rollups, seqno.0, i as int);
            }
            Some(self.rollups.get(i).unwrap().1.copy())
        } else {
            None
        }
    }

    /// Whether any registry entry holds exactly the partial key `key`.
    pub fn has_rollup_value(&self, key: &PartialRollupKey) -> (r: bool)
        ensures
            r == reg_has_value(self@.rollups, key@),
    {
        let mut i: usize = 0;
        while i < self.rollups.len()
            invariant
                i <= self@.rollups.len(),
                forall|j: int| 0 <= j < i ==> self@.rollups[j].1 != key@,
            decreases self@.rollups.len() - i,
        {
            if crate::codec::bytes_eq(&self.rollups.get(i).unwrap().1.0, &key.0) {
                assert(self@.rollups[i as int].1 == key@);
                return true;
            }
            i = i + 1;
        }
        false
    }

    /// Registers a rollup of the state at `seqno` under `key`. Applies (and
    /// returns true) exactly when `seqno` is later than everything already
    /// registered, which is always the case for a rollup a writer has just
    /// taken; on an older or duplicate SeqNo the state is unchanged.
    pub fn add_rollup(&mut self, seqno: SeqNo, key: &PartialRollupKey) -> (applied: bool)
        requires
            old(self)@.wf(),
            seqno.0 <= old(self)@.seqno,
        ensures
            final(self)@.wf(),
            applied == (old(self)@.rollups.len() == 0 || old(self)@.rollups.last().0 < seqno.0),
            applied ==> final(self)@ == (StateView {
                rollups: old(self)@.rollups.push((seqno.0, key@)),
                ..old(self)@
            }),
            !applied ==> final(self)@ == old(self)@,
    {
        let n = self.rollups.len();
        let appendable = n == 0 || self.rollups.get(n - 1).unwrap().0.0 < seqno.0;
        if appendable {
            self.rollups.push((seqno, key.copy()));
            proof {
                assert(self@.rollups =~= old(self)@.rollups.push((seqno.0, key@)));
                let s = self@.rollups;
                let n = old(self)@.rollups.len() as int;
                assert forall|i: int, j: int| 0 <= i < j < s.len() implies s[i].0 < s[j].0 by {
                    if j == n && i < n - 1 {
                        assert(old(self)@.rollups[i].0 < old(self)@.rollups[n - 1].0);
                    }
                }
                assert(self@ == (StateView {
                    rollups: old(self)@.rollups.push((seqno.0, key@)),
                    ..old(self)@
                }));
            }
            true
        } else {
            proof {
                assert(self@ == old(self)@);
            }
            false
        }
    }

    /// Duplicates the state.
    pub fn copy(&self) -> (r: State)
        ensures
            r@ == self@,
    {
        let mut rollups: Vec<(SeqNo, PartialRollupKey)> = Vec::new();
        let mut i: usize = 0;
        while i < self.rollups.len()
            invariant
                i <= self.rollups@.len(),
                rollups@.len() == i,
                forall|j: int| 0 <= j < i ==> (#[trigger] rollups@[j]).0 == self.rollups@[j].0
                    && rollups@[j].1@ == self.rollups@[j].1@,
            decreases self.rollups@.len() - i,
        {
            let e = self.rollups.get(i).unwrap();
            rollups.push((e.0, e.1.copy()));
            proof {
                assert(rollups@[i as int].0 == self.rollups@[i as int].0);
                assert(rollups@[i as int].1@ == self.rollups@[i as int].1@);
            }
            i = i + 1;
        }
        let r = State {
            seqno: self.seqno,
            shard_id: self.shard_id,
            hostname: self.hostname.clone(),
            walltime_ms: self.walltime_ms,
            extra: self.extra.clone(),
            rollups,
        };
        proof {
            assert(r@.rollups =~= self@.rollups);
            assert(r@.hostname =~= self@.hostname);
            assert(r@.extra =~= self@.extra);
        }
        r
    }
}

} // verus!
