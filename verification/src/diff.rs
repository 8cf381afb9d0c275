//! Incremental changes between consecutive states.
//!
//! A [`StateDiff`] carries the transition from SeqNo `seqno_from` to
//! `seqno_to`: the field-wise delta of the rollup registry, the new opaque
//! remainder, and — denormalized into every diff — the partial key of the
//! most recent rollup known at `seqno_to`, so that a reader can discover the
//! latest rollup from any single diff without a secondary lookup.

use vstd::prelude::*;
use crate::paths::PartialRollupKey;
use crate::seqno::SeqNo;
use crate::state::{
    lemma_reg_index_unique, reg_contains, reg_index_of, reg_lookup, reg_sorted, State, StateView,
};

verus! {

/// A change to one value of the rollup registry.
#[derive(Clone, Debug)]
pub enum StateFieldValDiff {
    Insert(PartialRollupKey),
    Update(PartialRollupKey, PartialRollupKey),
    Delete(PartialRollupKey),
}

/// The spec-level mirror of [`StateFieldValDiff`].
pub enum ValDiffView {
    Insert(Seq<u8>),
    Update(Seq<u8>, Seq<u8>),
    Delete(Seq<u8>),
}

impl View for StateFieldValDiff {
    type V = ValDiffView;

    open spec fn view(&self) -> ValDiffView {
        match self {
            StateFieldValDiff::Insert(k) => ValDiffView::Insert(k@),
            StateFieldValDiff::Update(o, n) => ValDiffView::Update(o@, n@),
            StateFieldValDiff::Delete(k) => ValDiffView::Delete(k@),
        }
    }
}

/// A keyed change to the rollup registry.
#[derive(Clone, Debug)]
pub struct StateFieldDiff {
    pub key: SeqNo,
    pub val: StateFieldValDiff,
}

/// The spec-level mirror of [`StateFieldDiff`].
pub struct DeltaView {
    pub key: u64,
    pub val: ValDiffView,
}

impl View for StateFieldDiff {
    type V = DeltaView;

    open spec fn view(&self) -> DeltaView {
        DeltaView { key: self.key.0, val: self.val@ }
    }
}

/// Whether one delta applies to a registry: an insert must append past the
/// largest registered SeqNo, and an update or delete must name the value it
/// replaces or removes.
pub open spec fn delta_ok(s: Seq<(u64, Seq<u8>)>, d: DeltaView) -> bool {
    match d.val {
        ValDiffView::Insert(_) => s.len() == 0 || s.last().0 < d.key,
        ValDiffView::Update(old_v, _) => reg_lookup(s, d.key) == Some(old_v),
        ValDiffView::Delete(old_v) => reg_lookup(s, d.key) == Some(old_v),
    }
}

/// The registry after one delta.
pub open spec fn apply_delta(s: Seq<(u64, Seq<u8>)>, d: DeltaView) -> Seq<(u64, Seq<u8>)> {
    match d.val {
        ValDiffView::Insert(v) => s.push((d.key, v)),
        ValDiffView::Update(_, v) => s.update(reg_index_of(s, d.key), (d.key, v)),
        ValDiffView::Delete(_) => s.remove(reg_index_of(s, d.key)),
    }
}

/// Whether a sequence of deltas applies, each to the registry left by its
/// predecessors.
pub open spec fn deltas_ok(s: Seq<(u64, Seq<u8>)>, ds: Seq<DeltaView>) -> bool
    decreases ds.len(),
{
    ds.len() == 0 || (delta_ok(s, ds[0]) && deltas_ok(apply_delta(s, ds[0]), ds.skip(1)))
}

/// The registry after a sequence of deltas.
pub open spec fn apply_deltas(s: Seq<(u64, Seq<u8>)>, ds: Seq<DeltaView>) -> Seq<(u64, Seq<u8>)>
    decreases ds.len(),
{
    if ds.len() == 0 {
        s
    } else {
        apply_deltas(apply_delta(s, ds[0]), ds.skip(1))
    }
}

/// Applying a delta preserves sortedness.
pub proof fn lemma_apply_delta_sorted(s: Seq<(u64, Seq<u8>)>, d: DeltaView)
    requires
        reg_sorted(s),
        delta_ok(s, d),
    ensures
        reg_sorted(apply_delta(s, d)),
{
    let r = apply_delta(s, d);
    match d.val {
        ValDiffView::Insert(_) => {
            assert forall|i: int, j: int| 0 <= i < j < r.len() implies r[i].0 < r[j].0 by {
                if j == s.len() as int && i < s.len() - 1 {
                    assert(s[i].0 < s[s.len() - 1].0);
                }
            }
        },
        ValDiffView::Update(_, _) => {
            let x = reg_index_of(s, d.key);
            assert(s[x].0 == d.key);
            assert forall|i: int, j: int| 0 <= i < j < r.len() implies r[i].0 < r[j].0 by {
                assert(s[i].0 < s[j].0);
            }
        },
        ValDiffView::Delete(_) => {
            let x = reg_index_of(s, d.key);
            assert forall|i: int, j: int| 0 <= i < j < r.len() implies r[i].0 < r[j].0 by {
                let i0 = if i < x { i } else { i + 1 };
                let j0 = if j < x { j } else { j + 1 };
                assert(s[i0].0 < s[j0].0);
            }
        },
    }
}

/// Applying a delta adds no registry key beyond the largest of the old
/// registry and the delta's own key.
pub proof fn lemma_apply_delta_bound(s: Seq<(u64, Seq<u8>)>, d: DeltaView, bound: u64)
    requires
        reg_sorted(s),
        delta_ok(s, d),
        forall|i: int| 0 <= i < s.len() ==> #[trigger] s[i].0 <= bound,
        d.key <= bound,
    ensures
        forall|i: int| 0 <= i < apply_delta(s, d).len() ==> #[trigger] apply_delta(s, d)[i].0 <= bound,
{
    let r = apply_delta(s, d);
    assert forall|i: int| 0 <= i < r.len() implies r[i].0 <= bound by {
        match d.val {
            ValDiffView::Insert(_) => {
                if i < s.len() {
                    assert(s[i].0 <= bound);
                }
            },
            ValDiffView::Update(_, _) => {
                if i != reg_index_of(s, d.key) {
                    assert(s[i].0 <= bound);
                }
            },
            ValDiffView::Delete(_) => {
                let x = reg_index_of(s, d.key);
                let i0 = if i < x { i } else { i + 1 };
                assert(s[i0].0 <= bound);
            },
        }
    }
}

/// The incremental change from the state at `seqno_from` to the state at
/// `seqno_to`.
#[derive(Debug)]
pub struct StateDiff {
    pub seqno_from: SeqNo,
    pub seqno_to: SeqNo,
    pub latest_rollup_key: PartialRollupKey,
    pub rollups: Vec<StateFieldDiff>,
    pub new_extra: Vec<u8>,
}

/// The mathematical content of a [`StateDiff`].
pub struct StateDiffView {
    pub seqno_from: u64,
    pub seqno_to: u64,
    pub latest_rollup_key: Seq<u8>,
    pub rollups: Seq<DeltaView>,
    pub new_extra: Seq<u8>,
}

impl View for StateDiff {
    type V = StateDiffView;

    open spec fn view(&self) -> StateDiffView {
        StateDiffView {
            seqno_from: self.seqno_from.0,
            seqno_to: self.seqno_to.0,
            latest_rollup_key: self.latest_rollup_key@,
            rollups: Seq::new(self.rollups@.len(), |i: int| self.rollups@[i]@),
            new_extra: self.new_extra@,
        }
    }
}

impl StateDiffView {
    /// A diff is well-formed when it steps one SeqNo forward and all its
    /// registry deltas stay at or below the SeqNo it produces.
    pub open spec fn wf(self) -> bool {
        &&& self.seqno_from < self.seqno_to
        &&& self.seqno_to == self.seqno_from + 1
        &&& forall|i: int| 0 <= i < self.rollups.len() ==> #[trigger] self.rollups[i].key <= self.seqno_to
    }

    /// Whether this diff applies to `from`: it continues from the state's own
    /// SeqNo and its registry deltas chain.
    pub open spec fn applies_to(self, from: StateView) -> bool {
        &&& self.wf()
        &&& self.seqno_from == from.seqno
        &&& deltas_ok(from.rollups, self.rollups)
    }

    /// The state this diff produces from `from`.
    pub open spec fn apply_to(self, from: StateView) -> StateView {
        StateView {
            seqno: self.seqno_to,
            extra: self.new_extra,
            rollups: apply_deltas(from.rollups, self.rollups),
            ..from
        }
    }
}

/// Applying well-formed chained deltas preserves registry well-formedness.
pub proof fn lemma_apply_deltas_wf(s: Seq<(u64, Seq<u8>)>, ds: Seq<DeltaView>, bound: u64)
    requires
        reg_sorted(s),
        deltas_ok(s, ds),
        forall|i: int| 0 <= i < s.len() ==> #[trigger] s[i].0 <= bound,
        forall|i: int| 0 <= i < ds.len() ==> #[trigger] ds[i].key <= bound,
    ensures
        reg_sorted(apply_deltas(s, ds)),
        forall|i: int| 0 <= i < apply_deltas(s, ds).len()
            ==> #[trigger] apply_deltas(s, ds)[i].0 <= bound,
    decreases ds.len(),
{
    if ds.len() > 0 {
        lemma_apply_delta_sorted(s, ds[0]);
        lemma_apply_delta_bound(s, ds[0], bound);
        assert(forall|i: int| 0 <= i < ds.skip(1).len() ==> #[trigger] ds.skip(1)[i].key <= bound);
        lemma_apply_deltas_wf(apply_delta(s, ds[0]), ds.skip(1), bound);
    }
}

impl State {
    /// Applies one decoded diff in place, advancing the state by one SeqNo.
    pub fn apply_diff(&mut self, diff: &StateDiff)
        requires
            old(self)@.wf(),
            diff@.applies_to(old(self)@),
        ensures
            final(self)@ == diff@.apply_to(old(self)@),
            final(self)@.wf(),
    {
        proof {
            assert forall|i: int| 0 <= i < old(self)@.rollups.len()
                implies #[trigger] old(self)@.rollups[i].0 <= diff@.seqno_to by {
                assert(old(self)@.rollups[i].0 <= old(self)@.seqno);
            }
            lemma_apply_deltas_wf(old(self)@.rollups, diff@.rollups, diff.seqno_to.0);
        }
        self.seqno = diff.seqno_to;
        let mut new_extra = diff.new_extra.clone();
        self.extra = new_extra;
        let n = diff.rollups.len();
        let mut i: usize = 0;
        proof {
            assert(diff@.rollups.skip(0) =~= diff@.rollups);
        }
        while i < n
            invariant
                i <= n == diff@.rollups.len(),
                self@.seqno == diff@.seqno_to,
                self@.shard_id == old(self)@.shard_id,
                self@.hostname == old(self)@.hostname,
                self@.walltime_ms == old(self)@.walltime_ms,
                self@.extra == diff@.new_extra,
                diff@.wf(),
                reg_sorted(self@.rollups),
                deltas_ok(self@.rollups, diff@.rollups.skip(i as int)),
                apply_deltas(self@.rollups, diff@.rollups.skip(i as int))
                    == apply_deltas(old(self)@.rollups, diff@.rollups),
            decreases n - i,
        {
            proof {
                assert(diff@.rollups.skip(i as int)[0] == diff@.rollups[i as int]);
                assert(diff@.rollups.skip(i as int).skip(1) =~= diff@.rollups.skip(i as int + 1));
            }
            self.apply_one_delta(&diff.rollups[i]);
            i = i + 1;
        }
        proof {
            assert(diff@.rollups.skip(n as int) =~= Seq::<DeltaView>::empty());
            assert(self@ == diff@.apply_to(old(self)@));
        }
    }

    /// Applies one registry delta in place, leaving every other field alone.
    fn apply_one_delta(&mut self, d: &StateFieldDiff)
        requires
            reg_sorted(old(self)@.rollups),
            delta_ok(old(self)@.rollups, d@),
        ensures
            final(self)@ == (StateView {
                rollups: apply_delta(old(self)@.rollups, d@),
                ..old(self)@
            }),
            reg_sorted(final(self)@.rollups),
    {
        proof {
            lemma_apply_delta_sorted(old(self)@.rollups, d@);
        }
        match &d.val {
            StateFieldValDiff::Insert(v) => {
                self.rollups.push((d.key, v.copy()));
                proof {
                    assert(self@.rollups =~= apply_delta(old(self)@.rollups, d@));
                    assert(self@ == (StateView {
                        rollups: apply_delta(old(self)@.rollups, d@),
                        ..old(self)@
                    }));
                }
            },
            StateFieldValDiff::Update(_, v) => {
                let i = self.find_reg_index(d.key.0);
                let seqno_at = self.rollups[i].0;
                self.rollups.remove(i);
                self.rollups.insert(i, (seqno_at, v.copy()));
                proof {
                    let x = reg_index_of(old(self)@.rollups, d.key.0);
                    assert(x == i as int);
                    assert(self@.rollups =~= apply_delta(old(self)@.rollups, d@));
                    assert(self@ == (StateView {
                        rollups: apply_delta(old(self)@.rollups, d@),
                        ..old(self)@
                    }));
                }
            },
            StateFieldValDiff::Delete(_) => {
                let i = self.find_reg_index(d.key.0);
                self.rollups.remove(i);
                proof {
                    let x = reg_index_of(old(self)@.rollups, d.key.0);
                    assert(x == i as int);
                    assert(self@.rollups =~= apply_delta(old(self)@.rollups, d@));
                    assert(self@ == (StateView {
                        rollups: apply_delta(old(self)@.rollups, d@),
                        ..old(self)@
                    }));
                }
            },
        }
    }

    /// The index of the (unique) registry entry for `k`.
    fn find_reg_index(&self, k: u64) -> (r: usize)
        requires
            reg_sorted(self@.rollups),
            reg_contains(self@.rollups, k),
        ensures
            r < self@.rollups.len(),
            r as int == reg_index_of(self@.rollups, k),
            self@.rollups[r as int].0 == k,
    {
        let mut i: usize = 0;
        let n = self.rollups.len();
        while i < n
            invariant
                i <= n == self@.rollups.len(),
                reg_sorted(self@.rollups),
                reg_contains(self@.rollups, k),
                forall|j: int| 0 <= j < i ==> self@.rollups[j].0 != k,
            decreases n - i,
        {
            if self.rollups.get(i).unwrap().0.0 == k {
                proof {
                    lemma_reg_index_unique(self@.rollups, k, i as int);
                }
                return i;
            }
            i = i + 1;
        }
        proof {
            let w = choose|w: int| 0 <= w < self@.rollups.len() && self@.rollups[w].0 == k;
            assert(self@.rollups[w].0 != k);
        }
        unreached()
    }
}

} // verus!
