//! The version-management core: a durable, truncatable log of states.
//!
//! [`StateVersions`] coordinates a [`Consensus`] store of encoded diffs and a
//! [`Blob`] store of rollups to give many concurrent clients single-writer
//! linearizable updates, latest-state retrieval, reconstruction of any live
//! historical state, and safe truncation.
//!
//! The durable invariants are captured by [`chain_ok`]: a shard's live diffs
//! parse and chain, some state chain explains them, every rollup registered
//! in the current state exists in Blob and is the encoding of the state at
//! its SeqNo, and each diff denormalizes the key of the most recent rollup
//! known at its SeqNo.

use vstd::prelude::*;
use crate::codec::{diff_encodable, enc_diff, enc_state, parse_diff, parse_state, state_encodable};
use crate::diff::{StateDiff, StateDiffView, StateFieldDiff, StateFieldValDiff};
use crate::error::CodecMismatch;
use crate::location::{
    bytes_from_vec, bytes_to_vec, bytes_view, cas_expectation_matches, live_from, vd_seq_view,
    Atomicity, Blob, Consensus, Indeterminate, VersionedData, VersionedDataView, SCAN_ALL,
};
use crate::paths::{
    blob_key_bytes, parse_partial_key, rollup_key_bytes, BlobKey, PartialBlobKey,
    PartialBlobKeyView, PartialRollupKey, RollupId, ShardId,
};
use crate::seqno::SeqNo;
use crate::state::{reg_contains, reg_has_value, reg_lookup, State, StateView};

verus! {

// ---------------------------------------------------------------------------
// What a valid shard looks like in the two stores.
// ---------------------------------------------------------------------------

/// Whether one Consensus entry holds a diff of this shard's codec version,
/// stored under the SeqNo it produces.
pub open spec fn entry_wf(v: VersionedDataView, version: u64) -> bool {
    match parse_diff(v.data) {
        Some((ver, d)) => ver == version && d.seqno_to == v.seqno,
        None => false,
    }
}

/// The diff an entry holds.
pub open spec fn diff_of(v: VersionedDataView) -> StateDiffView {
    parse_diff(v.data).unwrap().1
}

/// The codec version a (nonempty) log was written under.
pub open spec fn log_version(log: Seq<VersionedDataView>) -> u64 {
    parse_diff(log[0].data).unwrap().0
}

/// Every entry of the log parses under `version`.
pub open spec fn diffs_wf(log: Seq<VersionedDataView>, version: u64) -> bool {
    forall|i: int| 0 <= i < log.len() ==> entry_wf(#[trigger] log[i], version)
}

/// The SeqNos of the log form the contiguous range
/// `[earliest, earliest + len)`.
pub open spec fn log_contiguous(log: Seq<VersionedDataView>) -> bool {
    forall|i: int| 0 <= i < log.len() ==> (#[trigger] log[i]).seqno == log[0].seqno + i
}

/// The SeqNo embedded in a diff's denormalized latest-rollup key (the key
/// always has rollup shape for logs this crate writes).
pub open spec fn latest_rollup_seqno_of(v: VersionedDataView) -> u64 {
    match parse_partial_key(diff_of(v).latest_rollup_key) {
        Some(PartialBlobKeyView::Rollup(q, _, _)) => q,
        _ => 0,
    }
}

/// A state chain explaining a shard's live diffs, tied to the blobs the
/// current state's rollup registry references. `states[i]` is the state at
/// `log[i].seqno`; the earliest one is reconstructible from its rollup blob,
/// each later one by applying one diff.
pub open spec fn chain_ok(
    log: Seq<VersionedDataView>,
    blob: Map<Seq<u8>, Seq<u8>>,
    shard: u64,
    version: u64,
    states: Seq<StateView>,
) -> bool {
    let earliest = log[0].seqno;
    let cur = states.last();
    &&& log.len() > 0
    &&& diffs_wf(log, version)
    &&& log_contiguous(log)
    &&& states.len() == log.len()
    &&& forall|i: int|
        0 <= i < states.len() ==> {
            &&& (#[trigger] states[i]).wf()
            &&& states[i].seqno == log[i].seqno
            &&& states[i].shard_id == shard
            &&& state_encodable(states[i])
            &&& states[i].rollups.len() > 0
            &&& diff_of(log[i]).latest_rollup_key == states[i].rollups.last().1
        }
    &&& forall|i: int|
        1 <= i < states.len() ==> {
            &&& diff_of(#[trigger] log[i]).applies_to(states[i - 1])
            &&& states[i] == diff_of(log[i]).apply_to(states[i - 1])
        }
    &&& forall|i: int, j: int|
        0 <= i < states.len() && 0 <= j < states[i].rollups.len() ==> exists|id: RollupId|
            (#[trigger] states[i].rollups[j]).1 == rollup_key_bytes(states[i].rollups[j].0, id)
    &&& forall|j: int|
        0 <= j < cur.rollups.len() ==> {
            &&& earliest <= (#[trigger] cur.rollups[j]).0 <= cur.seqno
            &&& blob.contains_key(blob_key_bytes(shard, cur.rollups[j].1))
            &&& blob[blob_key_bytes(shard, cur.rollups[j].1)] == enc_state(
                version,
                states[cur.rollups[j].0 - earliest],
            )
        }
}

/// The full durable invariant of an initialized shard: some chain explains
/// the stores, and the current state registers a rollup for the earliest
/// live SeqNo.
pub open spec fn shard_valid(
    log: Seq<VersionedDataView>,
    blob: Map<Seq<u8>, Seq<u8>>,
    shard: u64,
    version: u64,
) -> bool {
    log.len() > 0 ==> exists|states: Seq<StateView>|
        #[trigger] chain_ok(log, blob, shard, version, states) && reg_contains(
            states.last().rollups,
            log[0].seqno,
        )
}

/// Whether `hint` is the live tail of `log` from its own first SeqNo on.
pub open spec fn is_live_suffix(hint: Seq<VersionedDataView>, log: Seq<VersionedDataView>) -> bool {
    &&& hint.len() > 0
    &&& hint.len() <= log.len()
    &&& hint == log.skip(log.len() - hint.len())
}

/// Whether a hint of live diffs is usable by the read path: either it is a
/// fresh live tail covering the latest rollup, or its tip references a rollup
/// blob that is already gone (so the read path will refetch).
pub open spec fn hint_ok(
    hint: Seq<VersionedDataView>,
    log: Seq<VersionedDataView>,
    blob: Map<Seq<u8>, Seq<u8>>,
    shard: u64,
    version: u64,
) -> bool {
    &&& hint.len() > 0
    &&& diffs_wf(hint, version)
    &&& {
        ||| (is_live_suffix(hint, log) && hint[0].seqno <= latest_rollup_seqno_of(log.last()))
        ||| !blob.contains_key(
            blob_key_bytes(shard, diff_of(hint.last()).latest_rollup_key),
        )
    }
}

/// Whether the entries chain onto `st`: each parses under `version` and its
/// diff applies to the state left by its predecessors.
pub open spec fn entries_apply_to(
    entries: Seq<VersionedDataView>,
    st: StateView,
    version: u64,
) -> bool
    decreases entries.len(),
{
    entries.len() == 0 || {
        &&& entry_wf(entries[0], version)
        &&& diff_of(entries[0]).applies_to(st)
        &&& entries_apply_to(entries.skip(1), diff_of(entries[0]).apply_to(st), version)
    }
}

/// The state left after absorbing the entries, in order, starting from `st`.
pub open spec fn apply_entries(
    entries: Seq<VersionedDataView>,
    st: StateView,
    version: u64,
) -> StateView
    decreases entries.len(),
{
    if entries.len() == 0 {
        st
    } else {
        apply_entries(entries.skip(1), diff_of(entries[0]).apply_to(st), version)
    }
}

/// On a contiguous log, the live tail from any SeqNo is a suffix of the log.
pub proof fn lemma_live_from_contiguous(log: Seq<VersionedDataView>, from: u64)
    requires
        log_contiguous(log),
    ensures
        log.len() > 0 && from <= log[0].seqno ==> live_from(log, from) == log,
        log.len() > 0 && from > log[0].seqno && from <= log[0].seqno + log.len() - 1 ==> live_from(
            log,
            from,
        ) == log.skip(from - log[0].seqno),
        log.len() > 0 && from > log[0].seqno + log.len() - 1 ==> live_from(log, from) == Seq::<
            VersionedDataView,
        >::empty(),
    decreases log.len(),
{
    if log.len() > 0 {
        let tail = log.skip(1);
        assert forall|i: int| 0 <= i < tail.len() implies (#[trigger] tail[i]).seqno == tail[0].seqno
            + i by {
            assert(tail[i] == log[i + 1]);
            assert(tail[0] == log[1]);
        }
        lemma_live_from_contiguous(tail, from);
        if log.len() == 1 {
            assert(tail =~= Seq::<VersionedDataView>::empty());
            assert(live_from(tail, from) == Seq::<VersionedDataView>::empty());
            if from <= log[0].seqno {
                assert(live_from(log, from) == seq![log[0]] + live_from(tail, from));
                assert(seq![log[0]] + Seq::<VersionedDataView>::empty() =~= log);
            } else {
                assert(live_from(log, from) == live_from(tail, from));
            }
        } else {
            if from <= log[0].seqno {
                assert(from <= tail[0].seqno);
                assert(live_from(tail, from) == tail);
                assert(live_from(log, from) == seq![log[0]] + tail);
                assert(seq![log[0]] + tail =~= log);
            } else {
                assert(live_from(log, from) == live_from(tail, from));
                if from <= tail[0].seqno {
                    assert(live_from(tail, from) == tail);
                    assert(from == log[0].seqno + 1);
                    assert(tail =~= log.skip(from - log[0].seqno));
                } else if from <= tail[0].seqno + tail.len() - 1 {
                    assert(live_from(tail, from) == tail.skip(from - tail[0].seqno));
                    assert(tail.skip(from - tail[0].seqno) =~= log.skip(from - log[0].seqno));
                } else {
                    assert(live_from(tail, from) == Seq::<VersionedDataView>::empty());
                }
            }
        }
    }
}

/// Walking the diffs after position `i` carries the chain's state at `i` to
/// the current state.
pub proof fn lemma_chain_apply(
    log: Seq<VersionedDataView>,
    blob: Map<Seq<u8>, Seq<u8>>,
    shard: u64,
    version: u64,
    states: Seq<StateView>,
    i: int,
)
    requires
        chain_ok(log, blob, shard, version, states),
        0 <= i < log.len(),
    ensures
        entries_apply_to(log.skip(i + 1), states[i], version),
        apply_entries(log.skip(i + 1), states[i], version) == states.last(),
    decreases log.len() - i,
{
    if i == log.len() - 1 {
        assert(log.skip(i + 1) =~= Seq::<VersionedDataView>::empty());
    } else {
        assert(log.skip(i + 1)[0] == log[i + 1]);
        assert(log.skip(i + 1).skip(1) =~= log.skip(i + 2));
        lemma_chain_apply(log, blob, shard, version, states, i + 1);
    }
}

/// The one-link chain of a freshly initialized shard: its single diff, the
/// initial state, and the rollup blob the diff references satisfy every
/// chain clause.
pub proof fn lemma_init_chain(
    entry: VersionedDataView,
    blob: Map<Seq<u8>, Seq<u8>>,
    shard: u64,
    version: u64,
    st: StateView,
    dv: StateDiffView,
    key: Seq<u8>,
)
    requires
        st.wf(),
        state_encodable(st),
        st.seqno == 1,
        st.shard_id == shard,
        st.rollups == seq![(1u64, key)],
        entry.seqno == 1,
        entry.data == enc_diff(version, dv),
        dv.wf(),
        diff_encodable(dv),
        dv.seqno_to == 1,
        dv.latest_rollup_key == key,
        blob.contains_key(blob_key_bytes(shard, key)),
        blob[blob_key_bytes(shard, key)] == enc_state(version, st),
        exists|id: RollupId| key == rollup_key_bytes(1, id),
    ensures
        chain_ok(seq![entry], blob, shard, version, seq![st]),
        reg_contains(st.rollups, 1),
{
    crate::codec::lemma_diff_roundtrip(version, dv);
    let log = seq![entry];
    let states = seq![st];
    assert(log[0] == entry);
    assert(states[0] == st);
    assert(entry_wf(entry, version));
    assert(diff_of(entry) == dv);
    assert(states.last() == st);
    assert(st.rollups[0] == (1u64, key));
    assert(st.rollups.last() == (1u64, key));
    assert(reg_contains(st.rollups, 1));
}

impl State {
    /// Absorbs a run of encoded diffs, in SeqNo order, advancing this state
    /// through each.
    pub fn apply_encoded_diffs(&mut self, build_version: u64, diffs: &Vec<VersionedData>)
        requires
            old(self)@.wf(),
            entries_apply_to(vd_seq_view(diffs@), old(self)@, build_version),
        ensures
            final(self)@ == apply_entries(vd_seq_view(diffs@), old(self)@, build_version),
            final(self)@.wf(),
    {
        let ghost entries = vd_seq_view(diffs@);
        let n = diffs.len();
        let mut i: usize = 0;
        proof {
            assert(entries.skip(0) =~= entries);
        }
        while i < n
            invariant
                i <= n == diffs@.len(),
                entries == vd_seq_view(diffs@),
                self@.wf(),
                entries_apply_to(entries.skip(i as int), self@, build_version),
                apply_entries(entries.skip(i as int), self@, build_version) == apply_entries(
                    entries,
                    old(self)@,
                    build_version,
                ),
            decreases n - i,
        {
            proof {
                assert(entries.skip(i as int)[0] == entries[i as int]);
                assert(entries.skip(i as int).skip(1) =~= entries.skip(i as int + 1));
            }
            let data = bytes_to_vec(&diffs.get(i).unwrap().data);
            let d = match StateDiff::decode(build_version, &data) {
                Ok(d) => d,
                Err(_) => {
                    proof {
                        assert(entry_wf(entries[i as int], build_version));
                        assert(false);
                    }
                    unreached()
                },
            };
            self.apply_diff(&d);
            i = i + 1;
        }
        proof {
            assert(entries.skip(n as int) =~= Seq::<VersionedDataView>::empty());
        }
    }
}

/// The recognized configuration of a [`StateVersions`].
#[derive(Debug)]
pub struct PersistConfig {
    /// Embedded in every encoded payload and validated on decode.
    pub build_version: u64,
    /// Stamped into the initial state of a shard, for diagnostics.
    pub hostname: Vec<u8>,
    /// The clock reading stamped into the initial state of a shard.
    pub now_ms: u64,
    /// The fast-path scan page size of the recent-diff fetch.
    pub state_versions_recent_live_diffs_limit: usize,
    /// Distinguishes this writer's freshly generated rollup ids from every
    /// other concurrent writer's.
    pub writer_nonce: u64,
}

/// Observability counters of the read and write paths.
#[derive(Debug)]
pub struct StateVersionsMetrics {
    /// Recent-diff fetches answered by one bounded scan.
    pub fetch_recent_live_diffs_fast_path: u64,
    /// Recent-diff fetches that had to jump to the tip's latest rollup.
    pub fetch_recent_live_diffs_slow_path: u64,
    /// Read-path retries after losing a race with garbage collection.
    pub fetch_latest_state_retries: u64,
    /// Rollup lookups that only succeeded by sniffing raw diffs.
    pub rollup_at_seqno_migration: u64,
}

/// The outcome of one pass of the current-state read.
enum FetchAttempt {
    /// The reconstructed current state.
    Done(State),
    /// The hint decoded under an incompatible build version.
    Mismatch(CodecMismatch),
    /// The rollup the hint referenced is gone; the hint is out of date.
    Stale,
}

/// Saturating counter bump.
fn inc(c: &mut u64)
    ensures
        *final(c) as int == if *old(c) < u64::MAX {
            *old(c) + 1
        } else {
            *old(c) as int
        },
{
    if *c < u64::MAX {
        *c = *c + 1;
    }
}

/// A durable, truncatable log of versions of [`State`].
///
/// Operations take the shared [`Consensus`] and [`Blob`] handles explicitly;
/// many concurrent clients hold their own `StateVersions` (configuration and
/// counters) around the same two stores.
#[derive(Debug)]
pub struct StateVersions {
    /// This client's configuration.
    pub cfg: PersistConfig,
    /// This client's counters.
    pub metrics: StateVersionsMetrics,
    /// Mint for fresh rollup ids, combined with `cfg.writer_nonce`.
    pub rollup_id_counter: u64,
}

/// The recent live diffs of a shard: all of them, or all of them after the
/// latest rollup.
#[derive(Debug)]
pub struct RecentLiveDiffs(pub Vec<VersionedData>);

/// Every live diff of a shard.
#[derive(Debug)]
pub struct AllLiveDiffs(pub Vec<VersionedData>);

/// A rollup staged for writing: the encoded state and the key it will live
/// under.
#[derive(Debug)]
pub struct EncodedRollup {
    pub shard_id: ShardId,
    pub seqno: SeqNo,
    pub key: PartialRollupKey,
    pub buf: bytes::Bytes,
}

impl EncodedRollup {
    /// The staged bytes.
    pub open spec fn buf_view(&self) -> Seq<u8> {
        bytes_view(self.buf)
    }
}

impl StateVersions {
    /// A new client around the two stores.
    pub fn new(cfg: PersistConfig) -> (r: StateVersions)
        ensures
            r.cfg == cfg,
            r.rollup_id_counter == 0,
    {
        StateVersions {
            cfg,
            metrics: StateVersionsMetrics {
                fetch_recent_live_diffs_fast_path: 0,
                fetch_recent_live_diffs_slow_path: 0,
                fetch_latest_state_retries: 0,
                rollup_at_seqno_migration: 0,
            },
            rollup_id_counter: 0,
        }
    }

    /// A rollup id no other writer (distinct nonce) and no earlier mint of
    /// this writer returns.
    fn mint_rollup_id(&mut self) -> (r: RollupId)
        ensures
            r == RollupId(old(self).cfg.writer_nonce, old(self).rollup_id_counter),
            final(self).rollup_id_counter == old(self).rollup_id_counter.wrapping_add(1),
            final(self).cfg == old(self).cfg,
            final(self).metrics == old(self).metrics,
    {
        let id = RollupId(self.cfg.writer_nonce, self.rollup_id_counter);
        self.rollup_id_counter = self.rollup_id_counter.wrapping_add(1);
        id
    }

    /// Fetches every live diff of the shard: what a caller needs to
    /// reconstruct all live states. Empty iff the shard is uninitialized.
    pub fn fetch_all_live_diffs<C: Consensus>(&self, consensus: &C, shard_id: &ShardId) -> (r:
        AllLiveDiffs)
        requires
            consensus.inv(),
            consensus.log_at(crate::codec::enc_u64(shard_id.0)).len() <= usize::MAX,
        ensures
            vd_seq_view(r.0@) == consensus.log_at(crate::codec::enc_u64(shard_id.0)),
    {
        let path = shard_id.to_path();
        let diffs = consensus.scan(&path, SeqNo(0), SCAN_ALL);
        proof {
            let log = consensus.log_at(path@);
            crate::location::lemma_live_from_zero(log);
            assert(log.take(log.len() as int) =~= log);
        }
        AllLiveDiffs(diffs)
    }

    /// Truncates the shard's diffs: deletes every diff with SeqNo strictly
    /// less than `seqno`. Idempotent; a no-op at or below the earliest live
    /// SeqNo. Callers keep invariants by never truncating past a SeqNo whose
    /// rollup the current state registers.
    pub fn truncate_diffs<C: Consensus>(&self, consensus: &mut C, shard_id: &ShardId, seqno: SeqNo)
        requires
            old(consensus).inv(),
            old(consensus).log_at(crate::codec::enc_u64(shard_id.0)).len() > 0,
            seqno.0 <= old(consensus).log_at(crate::codec::enc_u64(shard_id.0)).last().seqno,
        ensures
            final(consensus).inv(),
            final(consensus).log_at(crate::codec::enc_u64(shard_id.0)) == live_from(
                old(consensus).log_at(crate::codec::enc_u64(shard_id.0)),
                seqno.0,
            ),
            forall|p: Seq<u8>|
                p != crate::codec::enc_u64(shard_id.0) ==> final(consensus).log_at(p) == old(
                    consensus,
                ).log_at(p),
    {
        let path = shard_id.to_path();
        let _deleted_count = consensus.truncate(&path, seqno);
    }

    /// Encodes `state` as a rollup to be written under `key`.
    pub fn encode_rollup_blob(&self, state: &State, key: PartialRollupKey) -> (r: EncodedRollup)
        ensures
            r.shard_id.0 == state@.shard_id,
            r.seqno.0 == state@.seqno,
            r.key@ == key@,
            r.buf_view() == enc_state(self.cfg.build_version, state@),
    {
        let mut buf: Vec<u8> = Vec::new();
        state.encode(self.cfg.build_version, &mut buf);
        proof {
            assert(buf@ =~= enc_state(self.cfg.build_version, state@));
        }
        EncodedRollup {
            shard_id: state.shard_id(),
            seqno: state.seqno(),
            key,
            buf: bytes_from_vec(buf),
        }
    }

    /// Writes a staged rollup to Blob (atomically: all-or-nothing visible).
    pub fn write_rollup_blob<B: Blob>(&self, blob: &mut B, rollup: &EncodedRollup)
        requires
            old(blob).inv(),
        ensures
            final(blob).inv(),
            final(blob).contents() == old(blob).contents().insert(
                blob_key_bytes(rollup.shard_id.0, rollup.key@),
                rollup.buf_view(),
            ),
    {
        let key = rollup.key.complete(&rollup.shard_id);
        let payload = crate::location::bytes_clone(&rollup.buf);
        blob.set(&key, payload, Atomicity::RequireAtomic);
    }

    /// Fetches the rollup at `key`, if it exists, and decodes it.
    pub fn fetch_rollup_at_key<B: Blob>(
        &self,
        blob: &B,
        shard_id: &ShardId,
        rollup_key: &PartialRollupKey,
    ) -> (r: Option<Result<State, CodecMismatch>>)
        requires
            blob.inv(),
        ensures
            match r {
                None => !blob.contents().contains_key(blob_key_bytes(shard_id.0, rollup_key@)),
                Some(Ok(state)) => {
                    &&& blob.contents().contains_key(blob_key_bytes(shard_id.0, rollup_key@))
                    &&& parse_state(blob.contents()[blob_key_bytes(shard_id.0, rollup_key@)])
                        == Some((self.cfg.build_version, state@))
                    &&& state@.wf()
                },
                Some(Err(_)) => {
                    &&& blob.contents().contains_key(blob_key_bytes(shard_id.0, rollup_key@))
                    &&& match parse_state(
                        blob.contents()[blob_key_bytes(shard_id.0, rollup_key@)],
                    ) {
                        Some((v, _)) => v != self.cfg.build_version,
                        None => true,
                    }
                },
            },
    {
        let key = rollup_key.complete(shard_id);
        match blob.get(&key) {
            None => None,
            Some(buf) => {
                let bytes = bytes_to_vec(&buf);
                Some(State::decode(self.cfg.build_version, &bytes))
            },
        }
    }

    /// Best-effort deletion of the rollup at `key`.
    pub fn delete_rollup<B: Blob>(&self, blob: &mut B, shard_id: &ShardId, key: &PartialRollupKey)
        requires
            old(blob).inv(),
        ensures
            final(blob).inv(),
            final(blob).contents() == old(blob).contents().remove(
                blob_key_bytes(shard_id.0, key@),
            ),
    {
        let bkey = key.complete(shard_id);
        blob.delete(&bkey);
    }

    /// Writes a self-referential rollup to Blob and returns the initial state
    /// together with the diff that, compare-and-set into Consensus with no
    /// expected value, finishes initializing the shard. The rollup is durable
    /// before any diff referencing it can enter Consensus.
    pub fn write_initial_rollup<B: Blob>(&mut self, blob: &mut B, shard_id: &ShardId) -> (r: (
        State,
        StateDiff,
    ))
        requires
            old(blob).inv(),
        ensures
            final(blob).inv(),
            final(self).cfg == old(self).cfg,
            final(self).metrics == old(self).metrics,
            ({
                let key = rollup_key_bytes(
                    1,
                    RollupId(old(self).cfg.writer_nonce, old(self).rollup_id_counter),
                );
                let state_view = StateView {
                    seqno: 1,
                    shard_id: shard_id.0,
                    hostname: old(self).cfg.hostname@,
                    walltime_ms: old(self).cfg.now_ms,
                    extra: Seq::<u8>::empty(),
                    rollups: seq![(1u64, key)],
                };
                &&& r.0@ == state_view
                &&& r.1@ == (StateDiffView {
                    seqno_from: 0,
                    seqno_to: 1,
                    latest_rollup_key: key,
                    rollups: seq![
                        crate::diff::DeltaView {
                            key: 1,
                            val: crate::diff::ValDiffView::Insert(key),
                        },
                    ],
                    new_extra: Seq::<u8>::empty(),
                })
                &&& final(blob).contents() == old(blob).contents().insert(
                    blob_key_bytes(shard_id.0, key),
                    enc_state(old(self).cfg.build_version, state_view),
                )
                &&& r.0@.wf()
                &&& r.1@.wf()
            }),
    {
        let empty_state = State::new(
            *shard_id,
            self.cfg.hostname.clone(),
            self.cfg.now_ms,
        );
        let rollup_seqno = empty_state.seqno().next();
        let rollup_id = self.mint_rollup_id();
        let rollup_key = PartialRollupKey::new(rollup_seqno, &rollup_id);
        let mut initial_state = State {
            seqno: rollup_seqno,
            shard_id: *shard_id,
            hostname: empty_state.hostname,
            walltime_ms: empty_state.walltime_ms,
            extra: empty_state.extra,
            rollups: Vec::new(),
        };
        let applied = initial_state.add_rollup(rollup_seqno, &rollup_key);
        proof {
            assert(applied);
            assert(initial_state@.rollups =~= seq![(1u64, rollup_key@)]);
        }
        let rollup = self.encode_rollup_blob(&initial_state, rollup_key.copy());
        self.write_rollup_blob(blob, &rollup);
        let mut delta_vec: Vec<StateFieldDiff> = Vec::new();
        delta_vec.push(
            StateFieldDiff {
                key: rollup_seqno,
                val: StateFieldValDiff::Insert(rollup_key.copy()),
            },
        );
        let diff = StateDiff {
            seqno_from: SeqNo(0),
            seqno_to: rollup_seqno,
            latest_rollup_key: rollup_key,
            rollups: delta_vec,
            new_extra: Vec::new(),
        };
        proof {
            assert(diff@.rollups =~= seq![
                crate::diff::DeltaView {
                    key: 1,
                    val: crate::diff::ValDiffView::Insert(rollup_key@),
                },
            ]);
            assert(diff@.new_extra =~= Seq::<u8>::empty());
            assert(initial_state@.extra =~= Seq::<u8>::empty());
        }
        (initial_state, diff)
    }

    /// Updates the shard to a new current state iff `expected` matches the
    /// tip of Consensus. On success the encoded diff is the new tip; on a
    /// mismatch the authoritative live tail is returned for the caller to
    /// rebase on; an indeterminate transport fault is surfaced unretried,
    /// because the write may or may not have landed.
    pub fn try_compare_and_set_current<C: Consensus>(
        &self,
        consensus: &mut C,
        expected: Option<SeqNo>,
        new_state: &State,
        diff: &StateDiff,
    ) -> (r: Result<Result<(), Vec<VersionedData>>, Indeterminate>)
        requires
            old(consensus).inv(),
            diff@.seqno_to == new_state@.seqno,
            diff@.wf(),
            diff_encodable(diff@),
            match expected {
                Some(e) => e.0 < u64::MAX && new_state@.seqno == e.0 + 1,
                None => new_state@.seqno == 1,
            },
        ensures
            final(consensus).inv(),
            forall|p: Seq<u8>|
                p != crate::codec::enc_u64(new_state@.shard_id) ==> final(consensus).log_at(p)
                    == old(consensus).log_at(p),
            ({
                let path = crate::codec::enc_u64(new_state@.shard_id);
                let log = old(consensus).log_at(path);
                let entry = VersionedDataView {
                    seqno: new_state@.seqno,
                    data: enc_diff(self.cfg.build_version, diff@),
                };
                match r {
                    Ok(Ok(())) => {
                        &&& cas_expectation_matches(log, expected)
                        &&& final(consensus).log_at(path) == log.push(entry)
                    },
                    Ok(Err(live)) => {
                        &&& !cas_expectation_matches(log, expected)
                        &&& final(consensus).log_at(path) == log
                        &&& vd_seq_view(live@) == log
                    },
                    Err(_) => {
                        &&& final(consensus).cas_fuel() < old(consensus).cas_fuel()
                        &&& (final(consensus).log_at(path) == log || (cas_expectation_matches(
                            log,
                            expected,
                        ) && final(consensus).log_at(path) == log.push(entry)))
                    },
                }
            }),
    {
        let path = new_state.shard_id().to_path();
        let mut buf: Vec<u8> = Vec::new();
        diff.encode(self.cfg.build_version, &mut buf);
        proof {
            assert(buf@ =~= enc_diff(self.cfg.build_version, diff@));
        }
        let new = VersionedData { seqno: new_state.seqno(), data: bytes_from_vec(buf) };
        consensus.compare_and_set(&path, expected, new)
    }

    /// Fetches recent live diffs: all of them when one bounded scan suffices
    /// (the common case), and otherwise — a long reader hold may have grown
    /// the live range arbitrarily — everything from the tip's latest rollup
    /// on. Empty iff the shard is uninitialized; in either case the result
    /// covers the most recent rollup.
    pub fn fetch_recent_live_diffs<C: Consensus>(&mut self, consensus: &C, shard_id: &ShardId) -> (r:
        RecentLiveDiffs)
        requires
            consensus.inv(),
            old(self).cfg.state_versions_recent_live_diffs_limit >= 1,
            consensus.log_at(crate::codec::enc_u64(shard_id.0)).len() <= usize::MAX,
            ({
                let log = consensus.log_at(crate::codec::enc_u64(shard_id.0));
                log.len() >= old(self).cfg.state_versions_recent_live_diffs_limit ==> {
                    &&& diffs_wf(log, old(self).cfg.build_version)
                    &&& log_contiguous(log)
                    &&& exists|q: u64, id: RollupId|
                        diff_of(log.last()).latest_rollup_key == rollup_key_bytes(q, id)
                            && log[0].seqno <= q <= log.last().seqno
                }
            }),
        ensures
            final(self).cfg == old(self).cfg,
            final(self).rollup_id_counter == old(self).rollup_id_counter,
            final(self).metrics.rollup_at_seqno_migration == old(
                self,
            ).metrics.rollup_at_seqno_migration,
            ({
                let log = consensus.log_at(crate::codec::enc_u64(shard_id.0));
                &&& (log.len() == 0 ==> r.0@.len() == 0)
                &&& (log.len() > 0 ==> r.0@.len() > 0 && exists|j: int|
                    0 <= j < log.len() && vd_seq_view(r.0@) == log.skip(j) && (j == 0 || log[
                        j
                    ].seqno <= latest_rollup_seqno_of(log.last())))
            }),
    {
        let path = shard_id.to_path();
        let scan_limit = self.cfg.state_versions_recent_live_diffs_limit;
        let oldest_diffs = consensus.scan(&path, SeqNo(0), scan_limit);
        let ghost log = consensus.log_at(path@);
        proof {
            crate::location::lemma_live_from_zero(log);
        }

        // Fast path: every live diff fit in one page.
        if oldest_diffs.len() < scan_limit {
            inc(&mut self.metrics.fetch_recent_live_diffs_fast_path);
            proof {
                assert(vd_seq_view(oldest_diffs@).len() == oldest_diffs@.len());
                if log.len() >= scan_limit {
                    assert(vd_seq_view(oldest_diffs@).len() == scan_limit);
                }
                if log.len() == 0 {
                    assert(vd_seq_view(oldest_diffs@).len() == 0);
                }
                if log.len() > 0 {
                    assert(vd_seq_view(oldest_diffs@) =~= log.skip(0));
                    let j: int = 0;
                    assert(0 <= j < log.len() && vd_seq_view(oldest_diffs@) == log.skip(j) && (j
                        == 0 || log[j].seqno <= latest_rollup_seqno_of(log.last())));
                }
            }
            return RecentLiveDiffs(oldest_diffs);
        }

        // Slow path: jump to the tip, find its latest rollup, scan from
        // there.
        proof {
            assert(vd_seq_view(oldest_diffs@).len() == oldest_diffs@.len());
            if log.len() < scan_limit {
                assert(vd_seq_view(oldest_diffs@) == log.take(log.len() as int));
                assert(oldest_diffs@.len() == log.len());
            }
            assert(log.len() >= scan_limit >= 1);
        }
        let head = match consensus.head(&path) {
            Some(x) => x,
            None => {
                proof {
                    assert(false);
                }
                unreached()
            },
        };
        let head_bytes = bytes_to_vec(&head.data);
        let latest_diff = match StateDiff::decode(self.cfg.build_version, &head_bytes) {
            Ok(d) => d,
            Err(_) => {
                proof {
                    assert(entry_wf(log.last(), self.cfg.build_version));
                    assert(false);
                }
                unreached()
            },
        };
        let ghost (q, id) = choose|q: u64, id: RollupId|
            diff_of(log.last()).latest_rollup_key == rollup_key_bytes(q, id) && log[0].seqno <= q
                <= log.last().seqno;
        let full_key = latest_diff.latest_rollup_key.complete(shard_id);
        proof {
            crate::paths::lemma_rollup_key_roundtrip(shard_id.0, q, id);
        }
        match BlobKey::parse_ids(&full_key) {
            Ok((_shard_id, PartialBlobKey::Rollup(seqno, _rollup))) => {
                inc(&mut self.metrics.fetch_recent_live_diffs_slow_path);
                let diffs = consensus.scan(&path, seqno, SCAN_ALL);
                proof {
                    assert(seqno.0 == q);
                    lemma_live_from_contiguous(log, q);
                    let j: int = if q <= log[0].seqno {
                        0
                    } else {
                        q - log[0].seqno
                    };
                    if q <= log[0].seqno {
                        assert(log.skip(0) =~= log);
                    }
                    assert(live_from(log, q) == log.skip(j));
                    assert(live_from(log, q).len() <= usize::MAX);
                    assert(vd_seq_view(diffs@) =~= log.skip(j));
                    crate::paths::lemma_parse_partial_rollup_key(q, id);
                    assert(latest_rollup_seqno_of(log.last()) == q);
                    assert(log[j].seqno <= latest_rollup_seqno_of(log.last()));
                }
                RecentLiveDiffs(diffs)
            },
            _ => {
                proof {
                    assert(false);
                }
                unreached()
            },
        }
    }

    /// Fetches the current state of the shard, using the provided hint of
    /// live diffs — possibly stale — to avoid scans where possible. If the
    /// rollup the hint's tip references has been garbage-collected in the
    /// meantime, the read self-heals by refetching; nothing transient
    /// surfaces. A shard written under another build version is surfaced as
    /// a [`CodecMismatch`].
    #[verifier::rlimit(100)]
    #[verifier::spinoff_prover]
    pub fn fetch_current_state<C: Consensus, B: Blob>(
        &mut self,
        consensus: &C,
        blob: &B,
        shard_id: &ShardId,
        live_diffs: Vec<VersionedData>,
    ) -> (r: Result<State, CodecMismatch>)
        requires
            consensus.inv(),
            blob.inv(),
            old(self).cfg.state_versions_recent_live_diffs_limit >= 1,
            ({
                let log = consensus.log_at(crate::codec::enc_u64(shard_id.0));
                &&& log.len() > 0
                &&& log.len() <= usize::MAX
                &&& log.last().seqno < u64::MAX
                &&& exists|states: Seq<StateView>|
                    chain_ok(log, blob.contents(), shard_id.0, log_version(log), states)
                &&& hint_ok(
                    vd_seq_view(live_diffs@),
                    log,
                    blob.contents(),
                    shard_id.0,
                    log_version(log),
                )
            }),
        ensures
            final(self).cfg == old(self).cfg,
            final(self).rollup_id_counter == old(self).rollup_id_counter,
            final(self).metrics.rollup_at_seqno_migration == old(
                self,
            ).metrics.rollup_at_seqno_migration,
            ({
                let log = consensus.log_at(crate::codec::enc_u64(shard_id.0));
                if log_version(log) == old(self).cfg.build_version {
                    match r {
                        Ok(state) => exists|states: Seq<StateView>|
                            chain_ok(log, blob.contents(), shard_id.0, log_version(log), states)
                                && state@ == states.last() && state@.wf(),
                        Err(_) => false,
                    }
                } else {
                    r is Err
                }
            }),
    {
        let ghost path_v = crate::codec::enc_u64(shard_id.0);
        let ghost log = consensus.log_at(path_v);
        let ghost v = log_version(log);
        let ghost states0 = choose|states: Seq<StateView>|
            chain_ok(log, blob.contents(), shard_id.0, v, states);

        match self.fetch_attempt(
            blob,
            shard_id,
            &live_diffs,
            Ghost(log),
            Ghost(states0),
            Ghost(false),
        ) {
            FetchAttempt::Done(state) => Ok(state),
            FetchAttempt::Mismatch(err) => Err(err),
            FetchAttempt::Stale => {
                // The rollup the hint referenced is gone: the hint was out of
                // date. Refetch and retry; intentionally no sleep — this is a
                // race-window probe.
                inc(&mut self.metrics.fetch_latest_state_retries);
                proof {
                    if log.len() >= self.cfg.state_versions_recent_live_diffs_limit {
                        lemma_shard_slow_path_facts(
                            log,
                            blob.contents(),
                            shard_id.0,
                            v,
                            states0,
                        );
                    }
                }
                let fresh = self.fetch_recent_live_diffs(consensus, shard_id);
                proof {
                    lemma_fresh_hint(
                        log,
                        blob.contents(),
                        shard_id.0,
                        v,
                        states0,
                        vd_seq_view(fresh.0@),
                    );
                }
                match self.fetch_attempt(
                    blob,
                    shard_id,
                    &fresh.0,
                    Ghost(log),
                    Ghost(states0),
                    Ghost(true),
                ) {
                    FetchAttempt::Done(state) => Ok(state),
                    FetchAttempt::Mismatch(_) => {
                        proof {
                            assert(false);
                        }
                        unreached()
                    },
                    FetchAttempt::Stale => {
                        proof {
                            assert(false);
                        }
                        unreached()
                    },
                }
            },
        }
    }

    /// One pass of the current-state read: decode the hint's tip, look up
    /// the rollup it references, and roll it forward through the hinted
    /// diffs.
    #[verifier::rlimit(100)]
    #[verifier::spinoff_prover]
    fn fetch_attempt<B: Blob>(
        &self,
        blob: &B,
        shard_id: &ShardId,
        diffs: &Vec<VersionedData>,
        Ghost(log): Ghost<Seq<VersionedDataView>>,
        Ghost(states0): Ghost<Seq<StateView>>,
        Ghost(fresh): Ghost<bool>,
    ) -> (r: FetchAttempt)
        requires
            blob.inv(),
            log.len() > 0,
            log.last().seqno < u64::MAX,
            chain_ok(log, blob.contents(), shard_id.0, log_version(log), states0),
            hint_ok(vd_seq_view(diffs@), log, blob.contents(), shard_id.0, log_version(log)),
            fresh ==> is_live_suffix(vd_seq_view(diffs@), log) && vd_seq_view(diffs@)[0].seqno
                <= latest_rollup_seqno_of(log.last()),
        ensures
            match r {
                FetchAttempt::Done(state) => log_version(log) == self.cfg.build_version && state@
                    == states0.last() && state@.wf(),
                FetchAttempt::Mismatch(_) => log_version(log) != self.cfg.build_version,
                FetchAttempt::Stale => !fresh && log_version(log) == self.cfg.build_version,
            },
    {
        let ghost hint = vd_seq_view(diffs@);
        let ghost v = log_version(log);
        let ghost earliest = log[0].seqno;
        let ghost q0 = states0.last().rollups.last().0;
        let ghost k0 = states0.last().rollups.last().1;
        let ghost li = q0 - earliest;
        let n = diffs.len();
        let last = diffs.get(n - 1).unwrap();
        let last_bytes = bytes_to_vec(&last.data);
        proof {
            assert(hint.len() == diffs@.len());
            assert(hint.last() == hint[n - 1]);
            assert(entry_wf(hint.last(), v));
        }
        let latest_diff = match StateDiff::decode(self.cfg.build_version, &last_bytes) {
            Ok(d) => d,
            Err(e) => {
                proof {
                    assert(v != self.cfg.build_version);
                }
                return FetchAttempt::Mismatch(e);
            },
        };
        proof {
            assert(v == self.cfg.build_version);
            assert(latest_diff@ == diff_of(hint.last()));
        }
        match self.fetch_rollup_at_key(blob, shard_id, &latest_diff.latest_rollup_key) {
            None => {
                proof {
                    if fresh {
                        lemma_hint_tip(log, blob.contents(), shard_id.0, v, states0, hint);
                        assert(false);
                    }
                }
                FetchAttempt::Stale
            },
            Some(Err(_)) => {
                proof {
                    // The key was present, so the hint was a fresh tail and
                    // the blob holds the chain's rollup, which decodes under
                    // our version.
                    assert(is_live_suffix(hint, log));
                    lemma_hint_tip(log, blob.contents(), shard_id.0, v, states0, hint);
                    assert(false);
                }
                unreached()
            },
            Some(Ok(state)) => {
                proof {
                    assert(is_live_suffix(hint, log));
                    lemma_hint_tip(log, blob.contents(), shard_id.0, v, states0, hint);
                    assert(state@ == states0[li]);
                    let jj = log.len() - hint.len();
                    assert(hint[0].seqno == earliest + jj);
                    assert(hint[0].seqno <= q0) by {
                        if !fresh {
                            assert(hint[0].seqno <= latest_rollup_seqno_of(log.last()));
                        }
                    }
                    assert(log[li].seqno == earliest + li);
                    assert(jj <= li);
                }
                let rolled = Self::roll_forward(
                    self.cfg.build_version,
                    state,
                    diffs,
                    Ghost(log),
                    Ghost(blob.contents()),
                    Ghost(shard_id.0),
                    Ghost(states0),
                    Ghost(li),
                    Ghost(log.len() - hint.len()),
                );
                FetchAttempt::Done(rolled)
            },
        }
    }

    /// Rolls a decoded rollup state forward to current by absorbing, in
    /// order, every hinted diff past the rollup's SeqNo.
    #[verifier::rlimit(100)]
    #[verifier::spinoff_prover]
    fn roll_forward(
        build_version: u64,
        state: State,
        diffs: &Vec<VersionedData>,
        Ghost(log): Ghost<Seq<VersionedDataView>>,
        Ghost(blobm): Ghost<Map<Seq<u8>, Seq<u8>>>,
        Ghost(shard): Ghost<u64>,
        Ghost(states0): Ghost<Seq<StateView>>,
        Ghost(li): Ghost<int>,
        Ghost(j): Ghost<int>,
    ) -> (r: State)
        requires
            chain_ok(log, blobm, shard, build_version, states0),
            0 <= li < log.len(),
            0 <= j <= li,
            state@ == states0[li],
            vd_seq_view(diffs@) == log.skip(j),
            log.last().seqno < u64::MAX,
        ensures
            r@ == states0.last(),
            r@.wf(),
    {
        let ghost hint = vd_seq_view(diffs@);
        let ghost earliest = log[0].seqno;
        let ghost q0 = log[li].seqno;
        proof {
            assert(log.last() == log[log.len() - 1]);
            assert(state@.seqno == log[li].seqno);
            assert(q0 == earliest + li);
            assert(q0 <= log.last().seqno);
            assert forall|i: int| 0 <= i < hint.len() implies (#[trigger] hint[i]).seqno
                == hint[0].seqno + i by {
                assert(hint[i] == log[j + i]);
                assert(hint[0] == log[j]);
            }
            assert(hint[0] == log[j]);
            assert(hint[0].seqno == earliest + j);
        }
        let mut state = state;
        let cutoff = state.seqno();
        let n = diffs.len();
        let mut to_apply: Vec<VersionedData> = Vec::new();
        let mut i: usize = 0;
        proof {
            assert(hint.take(0) =~= Seq::<VersionedDataView>::empty());
            assert(hint.len() == diffs@.len());
        }
        while i < n
            invariant
                i <= n == diffs@.len(),
                hint == vd_seq_view(diffs@),
                cutoff.0 < u64::MAX,
                vd_seq_view(to_apply@) == live_from(hint.take(i as int), (cutoff.0 + 1) as u64),
            decreases n - i,
        {
            let e = diffs.get(i).unwrap();
            let ghost before = vd_seq_view(to_apply@);
            if e.seqno.0 > cutoff.0 {
                to_apply.push(e.copy());
                proof {
                    assert(vd_seq_view(to_apply@) =~= before + seq![diffs@[i as int]@]);
                }
            }
            proof {
                crate::location::lemma_live_from_snoc(
                    hint.take(i as int),
                    hint[i as int],
                    (cutoff.0 + 1) as u64,
                );
                assert(hint.take(i as int).push(hint[i as int]) =~= hint.take(i + 1));
                if !(e.seqno.0 > cutoff.0) {
                    assert(live_from(hint.take(i as int), (cutoff.0 + 1) as u64) + Seq::<
                        VersionedDataView,
                    >::empty() =~= live_from(hint.take(i as int), (cutoff.0 + 1) as u64));
                }
            }
            i = i + 1;
        }
        proof {
            assert(hint.take(n as int) =~= hint);
            let from = (cutoff.0 + 1) as u64;
            lemma_live_from_contiguous(hint, from);
            if q0 == log.last().seqno {
                assert(from > hint[0].seqno + hint.len() - 1);
                assert(live_from(hint, from) == Seq::<VersionedDataView>::empty());
                assert(log.skip(li + 1) =~= Seq::<VersionedDataView>::empty());
            } else {
                assert(from > hint[0].seqno);
                assert(hint.len() == log.len() - j);
                assert(from <= hint[0].seqno + hint.len() - 1);
                assert(live_from(hint, from) == hint.skip(from - hint[0].seqno));
                assert(hint.skip(from - hint[0].seqno) =~= log.skip(li + 1));
            }
            assert(vd_seq_view(to_apply@) == log.skip(li + 1));
            lemma_chain_apply(log, blobm, shard, build_version, states0, li);
        }
        state.apply_encoded_diffs(build_version, &to_apply);
        proof {
            assert(state@ == states0.last());
        }
        state
    }

    /// Fetches the current state of the shard, creating the shard if it is
    /// uninitialized: write the initial rollup to Blob, then race to
    /// compare-and-set the initial diff into Consensus. Exactly one of any
    /// number of concurrent callers wins that race; the losers read the
    /// winner's state back and delete their own staged rollup if it is not
    /// the one the winner registered.
    #[verifier::rlimit(100)]
    #[verifier::spinoff_prover]
    pub fn maybe_init_shard<C: Consensus, B: Blob>(
        &mut self,
        consensus: &mut C,
        blob: &mut B,
        shard_id: &ShardId,
    ) -> (r: Result<State, CodecMismatch>)
        requires
            old(consensus).inv(),
            old(blob).inv(),
            old(self).cfg.state_versions_recent_live_diffs_limit >= 1,
            ({
                let log = old(consensus).log_at(crate::codec::enc_u64(shard_id.0));
                &&& log.len() <= usize::MAX
                &&& (log.len() > 0 ==> {
                    &&& log.last().seqno < u64::MAX
                    &&& exists|states: Seq<StateView>|
                        chain_ok(log, old(blob).contents(), shard_id.0, log_version(log), states)
                    &&& (log_version(log) != old(self).cfg.build_version ==> log.len() < old(
                        self,
                    ).cfg.state_versions_recent_live_diffs_limit)
                })
            }),
        ensures
            final(consensus).inv(),
            final(blob).inv(),
            final(self).cfg == old(self).cfg,
            forall|p: Seq<u8>|
                p != crate::codec::enc_u64(shard_id.0) ==> final(consensus).log_at(p) == old(
                    consensus,
                ).log_at(p),
            ({
                let log = old(consensus).log_at(crate::codec::enc_u64(shard_id.0));
                let log2 = final(consensus).log_at(crate::codec::enc_u64(shard_id.0));
                if log.len() > 0 {
                    &&& log2 == log
                    &&& final(blob).contents() == old(blob).contents()
                    &&& (if log_version(log) == old(self).cfg.build_version {
                        match r {
                            Ok(state) => exists|states: Seq<StateView>|
                                chain_ok(
                                    log,
                                    final(blob).contents(),
                                    shard_id.0,
                                    log_version(log),
                                    states,
                                ) && state@ == states.last(),
                            Err(_) => false,
                        }
                    } else {
                        r is Err
                    })
                } else {
                    &&& log2.len() == 1
                    &&& log2[0].seqno == 1
                    &&& (exists|key: Seq<u8>, stv: StateView|
                        final(blob).contents() == old(blob).contents().insert(
                            blob_key_bytes(shard_id.0, key),
                            enc_state(old(self).cfg.build_version, stv),
                        ))
                    &&& match r {
                        Ok(state) => exists|states: Seq<StateView>|
                            {
                                &&& chain_ok(
                                    log2,
                                    final(blob).contents(),
                                    shard_id.0,
                                    old(self).cfg.build_version,
                                    states,
                                )
                                &&& reg_contains(states.last().rollups, 1)
                                &&& state@ == states.last()
                                &&& state@.seqno == 1
                            },
                        Err(_) => false,
                    }
                }
            }),
    {
        let ghost path_v = crate::codec::enc_u64(shard_id.0);
        let ghost log = old(consensus).log_at(path_v);

        // The common case: the shard is already initialized.
        proof {
            if log.len() >= self.cfg.state_versions_recent_live_diffs_limit {
                assert(log_version(log) == self.cfg.build_version);
                let states = choose|states: Seq<StateView>|
                    chain_ok(log, blob.contents(), shard_id.0, log_version(log), states);
                lemma_shard_slow_path_facts(log, blob.contents(), shard_id.0, log_version(log), states);
            }
        }
        let recent_live_diffs = self.fetch_recent_live_diffs(&*consensus, shard_id);
        if recent_live_diffs.0.len() > 0 {
            proof {
                assert(log.len() > 0);
                let states = choose|states: Seq<StateView>|
                    chain_ok(log, blob.contents(), shard_id.0, log_version(log), states);
                lemma_fresh_hint(
                    log,
                    blob.contents(),
                    shard_id.0,
                    log_version(log),
                    states,
                    vd_seq_view(recent_live_diffs.0@),
                );
            }
            return self.fetch_current_state(&*consensus, &*blob, shard_id, recent_live_diffs.0);
        }
        proof {
            assert(log.len() == 0);
        }

        // Shard is not initialized; stage a rollup and try to initialize it.
        let (initial_state, initial_diff) = self.write_initial_rollup(blob, shard_id);
        let ghost key = rollup_key_bytes(
            1,
            RollupId(old(self).cfg.writer_nonce, old(self).rollup_id_counter),
        );
        let ghost entry = VersionedDataView {
            seqno: 1,
            data: enc_diff(old(self).cfg.build_version, initial_diff@),
        };
        proof {
            crate::codec::lemma_diff_encodable(&initial_diff);
            crate::codec::lemma_state_encodable(&initial_state);
            lemma_init_chain(
                entry,
                blob.contents(),
                shard_id.0,
                self.cfg.build_version,
                initial_state@,
                initial_diff@,
                key,
            );
        }
        loop
            invariant
                consensus.inv(),
                blob.inv(),
                self.cfg == old(self).cfg,
                path_v == crate::codec::enc_u64(shard_id.0),
                self.cfg.state_versions_recent_live_diffs_limit >= 1,
                old(consensus).log_at(path_v).len() == 0,
                consensus.log_at(path_v) == Seq::<VersionedDataView>::empty()
                    || consensus.log_at(path_v) == Seq::<VersionedDataView>::empty().push(entry),
                forall|p: Seq<u8>|
                    p != path_v ==> consensus.log_at(p) == old(consensus).log_at(p),
                blob.contents() == old(blob).contents().insert(
                    blob_key_bytes(shard_id.0, key),
                    enc_state(old(self).cfg.build_version, initial_state@),
                ),
                initial_state@.wf(),
                state_encodable(initial_state@),
                initial_state@.seqno == 1,
                initial_state@.shard_id == shard_id.0,
                initial_state@.rollups == seq![(1u64, key)],
                initial_diff@.wf(),
                diff_encodable(initial_diff@),
                initial_diff@.seqno_to == 1,
                initial_diff@.latest_rollup_key == key,
                entry == (VersionedDataView {
                    seqno: 1,
                    data: enc_diff(old(self).cfg.build_version, initial_diff@),
                }),
                chain_ok(
                    seq![entry],
                    blob.contents(),
                    shard_id.0,
                    old(self).cfg.build_version,
                    seq![initial_state@],
                ),
                exists|id: RollupId| key == rollup_key_bytes(1, id),
            decreases consensus.cas_fuel(),
        {
            let cas_res = self.try_compare_and_set_current(
                consensus,
                None,
                &initial_state,
                &initial_diff,
            );
            match cas_res {
                Ok(Ok(())) => {
                    proof {
                        assert(consensus.log_at(path_v) =~= seq![entry]);
                        assert(reg_contains(initial_state@.rollups, 1)) by {
                            assert(initial_state@.rollups[0].0 == 1);
                        }
                        assert(seq![entry][0] == entry);
                        let states_w = seq![initial_state@];
                        assert(states_w.last() == initial_state@);
                        assert(reg_contains(states_w.last().rollups, 1));
                        assert(chain_ok(
                            consensus.log_at(path_v),
                            blob.contents(),
                            shard_id.0,
                            old(self).cfg.build_version,
                            states_w,
                        ));
                        let k2 = key;
                        let stv = initial_state@;
                        assert(blob.contents() == old(blob).contents().insert(
                            blob_key_bytes(shard_id.0, k2),
                            enc_state(old(self).cfg.build_version, stv),
                        ));
                        assert(exists|k3: Seq<u8>, stv3: StateView|
                            blob.contents() == old(blob).contents().insert(
                                blob_key_bytes(shard_id.0, k3),
                                enc_state(old(self).cfg.build_version, stv3),
                            ));
                    }
                    return Ok(initial_state);
                },
                Ok(Err(live_diffs)) => {
                    // We lost the race: someone's write reached Consensus
                    // first — here, that can only be an indeterminate attempt
                    // of ours that landed after all. Use the authoritative
                    // state to decide whether our staged rollup made it in.
                    proof {
                        assert(consensus.log_at(path_v) == Seq::<
                            VersionedDataView,
                        >::empty().push(entry));
                    }
                    return self.read_back_initialized(
                        consensus,
                        blob,
                        shard_id,
                        live_diffs,
                        &initial_state,
                        Ghost(entry),
                        Ghost(initial_state@),
                    );
                },
                Err(_) => {
                    // Indeterminate: our write may or may not have landed.
                    // Read the authoritative answer back.
                    proof {
                        let log_now = consensus.log_at(path_v);
                        if log_now.len() > 0 {
                            assert(log_now == Seq::<VersionedDataView>::empty().push(entry));
                            assert(log_now =~= seq![entry]);
                            crate::codec::lemma_diff_roundtrip(
                                self.cfg.build_version,
                                initial_diff@,
                            );
                            lemma_shard_slow_path_facts(
                                seq![entry],
                                blob.contents(),
                                shard_id.0,
                                self.cfg.build_version,
                                seq![initial_state@],
                            );
                            assert(entry_wf(log_now[0], self.cfg.build_version));
                            assert(log_version(log_now) == self.cfg.build_version);
                        }
                    }
                    let recent = self.fetch_recent_live_diffs(&*consensus, shard_id);
                    if recent.0.len() > 0 {
                        proof {
                            let log_now = consensus.log_at(path_v);
                            assert(log_now.len() > 0);
                            assert(log_now =~= seq![entry]);
                            let hint = vd_seq_view(recent.0@);
                            let j = choose|j: int|
                                0 <= j < log_now.len() && hint == log_now.skip(j) && (j == 0
                                    || log_now[j].seqno <= latest_rollup_seqno_of(log_now.last()));
                            assert(j == 0);
                            assert(hint == log_now.skip(0));
                            assert(log_now.skip(0) =~= log_now);
                        }
                        let snapshot = recent.0;
                        return self.read_back_initialized(
                            consensus,
                            blob,
                            shard_id,
                            snapshot,
                            &initial_state,
                            Ghost(entry),
                            Ghost(initial_state@),
                        );
                    }
                    proof {
                        let log_now = consensus.log_at(path_v);
                        if log_now.len() > 0 {
                            assert(false);
                        }
                    }
                },
            }
        }
    }

    /// The lose-the-race path of shard initialization: reconstruct the
    /// winner's state from the returned live diffs and delete our staged
    /// rollup blob unless it is the one the winner registered. While this
    /// caller holds the stores, the only possible winner is its own
    /// indeterminate attempt, whose rollup is registered, so the staged blob
    /// stays.
    #[verifier::spinoff_prover]
    fn read_back_initialized<C: Consensus, B: Blob>(
        &mut self,
        consensus: &mut C,
        blob: &mut B,
        shard_id: &ShardId,
        live_diffs: Vec<VersionedData>,
        initial_state: &State,
        Ghost(entry): Ghost<VersionedDataView>,
        Ghost(init_view): Ghost<StateView>,
    ) -> (r: Result<State, CodecMismatch>)
        requires
            old(consensus).inv(),
            old(blob).inv(),
            old(self).cfg.state_versions_recent_live_diffs_limit >= 1,
            old(consensus).log_at(crate::codec::enc_u64(shard_id.0)) == Seq::<
                VersionedDataView,
            >::empty().push(entry),
            entry.seqno == 1,
            chain_ok(
                seq![entry],
                old(blob).contents(),
                shard_id.0,
                old(self).cfg.build_version,
                seq![init_view],
            ),
            vd_seq_view(live_diffs@) == old(consensus).log_at(
                crate::codec::enc_u64(shard_id.0),
            ),
            initial_state@ == init_view,
            init_view.rollups.len() > 0,
        ensures
            final(consensus).inv(),
            final(blob).inv(),
            final(self).cfg == old(self).cfg,
            final(consensus).log_at(crate::codec::enc_u64(shard_id.0)) == old(consensus).log_at(
                crate::codec::enc_u64(shard_id.0),
            ),
            forall|p: Seq<u8>|
                p != crate::codec::enc_u64(shard_id.0) ==> final(consensus).log_at(p) == old(
                    consensus,
                ).log_at(p),
            final(blob).contents() == old(blob).contents(),
            match r {
                Ok(state) => exists|states: Seq<StateView>|
                    {
                        &&& chain_ok(
                            old(consensus).log_at(crate::codec::enc_u64(shard_id.0)),
                            final(blob).contents(),
                            shard_id.0,
                            old(self).cfg.build_version,
                            states,
                        )
                        &&& reg_contains(states.last().rollups, 1)
                        &&& state@ == states.last()
                        &&& state@.seqno == 1
                    },
                Err(_) => false,
            },
    {
        let ghost path_v = crate::codec::enc_u64(shard_id.0);
        let ghost log_now = old(consensus).log_at(path_v);
        proof {
            assert(log_now.len() == 1);
            assert(log_now[0] == entry);
            assert(log_now.last() == entry);
            assert(log_version(log_now) == self.cfg.build_version) by {
                assert(entry_wf(log_now[0], self.cfg.build_version));
            }
            assert(vd_seq_view(live_diffs@) == log_now.skip(0)) by {
                assert(log_now.skip(0) =~= log_now);
            }
            let states = seq![init_view];
            assert(states.last() == init_view);
            let lr = states.last().rollups.len() - 1;
            let id = choose|id: RollupId| init_view.rollups[lr].1 == rollup_key_bytes(
                init_view.rollups[lr].0,
                id,
            );
            crate::paths::lemma_parse_partial_rollup_key(init_view.rollups[lr].0, id);
            assert(latest_rollup_seqno_of(log_now.last()) == init_view.rollups[lr].0);
            assert(log_now[0].seqno <= latest_rollup_seqno_of(log_now.last()));
        }
        let state = match self.fetch_current_state(&*consensus, &*blob, shard_id, live_diffs) {
            Ok(s) => s,
            Err(_) => {
                proof {
                    assert(false);
                }
                unreached()
            },
        };
        // If our staged rollup is not among the winner's registered rollups,
        // it is an orphan and must be deleted. Here the winner always
        // registered it.
        let (_, rollup_key) = initial_state.latest_rollup();
        let should_delete_rollup = !state.has_rollup_value(&rollup_key);
        proof {
            let states = choose|states: Seq<StateView>|
                chain_ok(log_now, blob.contents(), shard_id.0, self.cfg.build_version, states)
                    && state@ == states.last() && state@.wf();
            let lr = states.last().rollups.len() - 1;
            assert(states.last().rollups[lr] == states.last().rollups.last());
            assert(states.last().rollups.last().1 == diff_of(log_now[0]).latest_rollup_key);
            assert(init_view.rollups.last().1 == diff_of(log_now[0]).latest_rollup_key);
            assert(init_view.rollups[init_view.rollups.len() - 1] == init_view.rollups.last());
            assert(rollup_key@ == states.last().rollups[lr].1);
            assert(reg_has_value(state@.rollups, rollup_key@));
            assert(!should_delete_rollup);
            assert(reg_contains(states.last().rollups, 1)) by {
                assert(states.last().rollups[lr].0 == 1) by {
                    assert(1 <= states.last().rollups[lr].0 <= states.last().seqno);
                }
            }
            assert(state@.seqno == 1);
        }
        if should_delete_rollup {
            self.delete_rollup(blob, shard_id, &rollup_key);
        }
        Ok(state)
    }
}

/// What a fresh live tail says about the chain: its tip is the log's tip,
/// whose denormalized key names the latest registered rollup; that rollup's
/// blob is present and is the encoding of the chain's state at its SeqNo.
pub proof fn lemma_hint_tip(
    log: Seq<VersionedDataView>,
    blobm: Map<Seq<u8>, Seq<u8>>,
    shard: u64,
    version: u64,
    states0: Seq<StateView>,
    hint: Seq<VersionedDataView>,
)
    requires
        chain_ok(log, blobm, shard, version, states0),
        is_live_suffix(hint, log),
    ensures
        ({
            let cur = states0.last();
            let q0 = cur.rollups.last().0;
            let k0 = cur.rollups.last().1;
            let earliest = log[0].seqno;
            let li = q0 - earliest;
            let jj = log.len() - hint.len();
            &&& hint.last() == log.last()
            &&& hint[0] == log[jj]
            &&& hint[0].seqno == earliest + jj
            &&& 0 <= li < log.len()
            &&& log[li].seqno == q0
            &&& q0 <= log.last().seqno
            &&& diff_of(log.last()).latest_rollup_key == k0
            &&& latest_rollup_seqno_of(log.last()) == q0
            &&& blobm.contains_key(blob_key_bytes(shard, k0))
            &&& parse_state(blobm[blob_key_bytes(shard, k0)]) == Some((version, states0[li]))
            &&& states0[li].wf()
        }),
{
    let cur = states0.last();
    let last_r = cur.rollups.len() - 1;
    assert(cur.rollups[last_r] == cur.rollups.last());
    let q0 = cur.rollups.last().0;
    let k0 = cur.rollups.last().1;
    let earliest = log[0].seqno;
    let li = q0 - earliest;
    let jj = log.len() - hint.len();
    assert(states0.last() == states0[states0.len() - 1]);
    assert(cur.seqno == log[log.len() - 1].seqno);
    assert(log.last() == log[log.len() - 1]);
    assert(earliest <= q0 <= cur.seqno);
    assert(0 <= li < log.len());
    assert(hint == log.skip(jj));
    assert(hint[hint.len() - 1] == log[jj + hint.len() - 1]);
    assert(hint.last() == hint[hint.len() - 1]);
    assert(hint[0] == log[jj]);
    let id = choose|id: RollupId| cur.rollups[last_r].1 == rollup_key_bytes(
        cur.rollups[last_r].0,
        id,
    );
    crate::paths::lemma_parse_partial_rollup_key(q0, id);
    assert(blobm[blob_key_bytes(shard, k0)] == enc_state(version, states0[li]));
    crate::codec::lemma_state_roundtrip(version, states0[li]);
}

/// A hint that the recent-diff fetch returned is a fresh live tail covering
/// the latest rollup, and therefore usable by the read path.
pub proof fn lemma_fresh_hint(
    log: Seq<VersionedDataView>,
    blobm: Map<Seq<u8>, Seq<u8>>,
    shard: u64,
    version: u64,
    states0: Seq<StateView>,
    hint2: Seq<VersionedDataView>,
)
    requires
        chain_ok(log, blobm, shard, version, states0),
        hint2.len() > 0,
        exists|j: int|
            0 <= j < log.len() && hint2 == log.skip(j) && (j == 0 || log[j].seqno
                <= latest_rollup_seqno_of(log.last())),
    ensures
        is_live_suffix(hint2, log),
        hint2[0].seqno <= latest_rollup_seqno_of(log.last()),
        diffs_wf(hint2, version),
        hint_ok(hint2, log, blobm, shard, version),
{
    lemma_shard_slow_path_facts(log, blobm, shard, version, states0);
    let j = choose|j: int|
        0 <= j < log.len() && hint2 == log.skip(j) && (j == 0 || log[j].seqno
            <= latest_rollup_seqno_of(log.last()));
    assert(hint2 == log.skip(j));
    assert(hint2[0] == log[j]);
    assert(hint2.len() == log.len() - j);
    assert(log.skip(log.len() - hint2.len()) == log.skip(j));
    assert forall|i: int| 0 <= i < hint2.len() implies entry_wf(#[trigger] hint2[i], version) by {
        assert(hint2[i] == log[j + i]);
    }
    if j == 0 {
        assert(hint2[0].seqno == log[0].seqno);
    }
}

/// The value of the first registry delta for `q` in a delta run, if any.
pub open spec fn delta_key_lookup(ds: Seq<crate::diff::DeltaView>, q: u64) -> Option<Seq<u8>>
    decreases ds.len(),
{
    if ds.len() == 0 {
        None
    } else if ds[0].key == q {
        Some(
            match ds[0].val {
                crate::diff::ValDiffView::Insert(v) => v,
                crate::diff::ValDiffView::Update(_, v) => v,
                crate::diff::ValDiffView::Delete(v) => v,
            },
        )
    } else {
        delta_key_lookup(ds.skip(1), q)
    }
}

/// The first rollup key for `q` that any hinted diff's registry deltas name:
/// the evidence the migration path recovers a rollup from when the current
/// registry has lost its entry.
pub open spec fn migration_key(entries: Seq<VersionedDataView>, q: u64) -> Option<Seq<u8>>
    decreases entries.len(),
{
    if entries.len() == 0 {
        None
    } else {
        match delta_key_lookup(diff_of(entries[0]).rollups, q) {
            Some(v) => Some(v),
            None => migration_key(entries.skip(1), q),
        }
    }
}

/// Whether the entries chain onto `st` in the iterator's sense: the first
/// entry may be the one `st` itself came from (absorbed as a no-op), each
/// later one advances the state by one diff.
pub open spec fn iter_entries_ok(
    entries: Seq<VersionedDataView>,
    st: StateView,
    version: u64,
) -> bool
    decreases entries.len(),
{
    entries.len() == 0 || {
        &&& entry_wf(entries[0], version)
        &&& (entries[0].seqno == st.seqno ==> iter_entries_ok(entries.skip(1), st, version))
        &&& (entries[0].seqno != st.seqno ==> diff_of(entries[0]).applies_to(st)
            && iter_entries_ok(entries.skip(1), diff_of(entries[0]).apply_to(st), version))
    }
}

/// A whole live log iterates from the chain's earliest state: the first diff
/// is a no-op on the rollup state, each later one advances it.
pub proof fn lemma_chain_iter_ok(
    log: Seq<VersionedDataView>,
    blob: Map<Seq<u8>, Seq<u8>>,
    shard: u64,
    version: u64,
    states: Seq<StateView>,
    i: int,
)
    requires
        chain_ok(log, blob, shard, version, states),
        0 <= i < log.len(),
    ensures
        iter_entries_ok(log.skip(i + 1), states[i], version),
    decreases log.len() - i,
{
    if i == log.len() - 1 {
        assert(log.skip(i + 1) =~= Seq::<VersionedDataView>::empty());
    } else {
        assert(log.skip(i + 1)[0] == log[i + 1]);
        assert(log.skip(i + 1).skip(1) =~= log.skip(i + 2));
        assert(log[i + 1].seqno != states[i].seqno) by {
            assert(states[i].seqno == log[i].seqno);
        }
        lemma_chain_iter_ok(log, blob, shard, version, states, i + 1);
    }
}

/// Under a valid chain, the head diff's denormalized rollup key has rollup
/// shape and points into the live range — what the slow-path fetch relies
/// on.
pub proof fn lemma_shard_slow_path_facts(
    log: Seq<VersionedDataView>,
    blob: Map<Seq<u8>, Seq<u8>>,
    shard: u64,
    version: u64,
    states: Seq<StateView>,
)
    requires
        chain_ok(log, blob, shard, version, states),
    ensures
        exists|q: u64, id: RollupId|
            diff_of(log.last()).latest_rollup_key == rollup_key_bytes(q, id) && log[0].seqno <= q
                <= log.last().seqno,
        log[0].seqno <= latest_rollup_seqno_of(log.last()),
{
    let cur = states.last();
    let lr = cur.rollups.len() - 1;
    assert(states.last() == states[states.len() - 1]);
    assert(cur.rollups[lr] == cur.rollups.last());
    assert(log.last() == log[log.len() - 1]);
    assert(cur.seqno == log.last().seqno);
    let id = choose|id: RollupId| cur.rollups[lr].1 == rollup_key_bytes(cur.rollups[lr].0, id);
    let q = cur.rollups[lr].0;
    assert(log[0].seqno <= q <= cur.seqno);
    assert(diff_of(log.last()).latest_rollup_key == rollup_key_bytes(q, id));
    crate::paths::lemma_parse_partial_rollup_key(q, id);
    assert(latest_rollup_seqno_of(log.last()) == q);
}

impl StateVersions {
    /// Advances a locally held state to current with minimum fetches:
    /// optimistically scans only the diffs past the state's own SeqNo, and
    /// falls back to a full read only when the state has fallen behind the
    /// earliest live diff.
    #[verifier::rlimit(100)]
    #[verifier::spinoff_prover]
    pub fn fetch_and_update_to_current<C: Consensus, B: Blob>(
        &mut self,
        consensus: &C,
        blob: &B,
        state: &mut State,
    ) -> (r: Result<(), CodecMismatch>)
        requires
            consensus.inv(),
            blob.inv(),
            old(self).cfg.state_versions_recent_live_diffs_limit >= 1,
            old(state)@.wf(),
            ({
                let log = consensus.log_at(crate::codec::enc_u64(old(state)@.shard_id));
                &&& log.len() > 0
                &&& log.len() <= usize::MAX
                &&& log.last().seqno < u64::MAX
                &&& log_version(log) == old(self).cfg.build_version
                &&& old(state)@.seqno <= log.last().seqno
                &&& (old(state)@.seqno + 1 < log[0].seqno || log[0].seqno <= old(state)@.seqno)
                &&& exists|states: Seq<StateView>|
                    chain_ok(
                        log,
                        blob.contents(),
                        old(state)@.shard_id,
                        log_version(log),
                        states,
                    ) && (log[0].seqno <= old(state)@.seqno ==> states[old(state)@.seqno - log[
                        0
                    ].seqno] == old(state)@)
            }),
        ensures
            r is Ok,
            final(self).cfg == old(self).cfg,
            final(state)@.wf(),
            exists|states: Seq<StateView>|
                chain_ok(
                    consensus.log_at(crate::codec::enc_u64(old(state)@.shard_id)),
                    blob.contents(),
                    old(state)@.shard_id,
                    old(self).cfg.build_version,
                    states,
                ) && final(state)@ == states.last(),
    {
        let ghost path_v = crate::codec::enc_u64(old(state)@.shard_id);
        let ghost log = consensus.log_at(path_v);
        let ghost v = log_version(log);
        let ghost earliest = log[0].seqno;
        let ghost states0 = choose|states: Seq<StateView>|
            chain_ok(log, blob.contents(), old(state)@.shard_id, v, states) && (earliest <= old(
                state,
            )@.seqno ==> states[old(state)@.seqno - earliest] == old(state)@);
        let shard_id = state.shard_id();
        let path = shard_id.to_path();
        let seqno_before = state.seqno();
        let diffs_to_current = consensus.scan(&path, seqno_before.next(), SCAN_ALL);
        proof {
            assert(log.last() == log[log.len() - 1]);
            lemma_live_from_contiguous(log, (seqno_before.0 + 1) as u64);
        }
        let diffs_apply = if diffs_to_current.len() == 0 {
            true
        } else {
            let first = diffs_to_current.get(0).unwrap();
            first.seqno.0 == seqno_before.0 + 1
        };
        if diffs_apply {
            proof {
                let live = live_from(log, (seqno_before.0 + 1) as u64);
                assert(vd_seq_view(diffs_to_current@).len() == diffs_to_current@.len());
                assert(vd_seq_view(diffs_to_current@) == live);
                if seqno_before.0 + 1 < earliest {
                    // The scan returned the whole log, whose first diff does
                    // not continue from this state: contradiction with
                    // diffs_apply.
                    assert(live == log);
                    assert(vd_seq_view(diffs_to_current@)[0] == log[0]);
                    assert(false);
                } else {
                    let i = seqno_before.0 - earliest;
                    assert(0 <= i < log.len());
                    assert(states0[i] == old(state)@);
                    if seqno_before.0 == log.last().seqno {
                        assert(live == Seq::<VersionedDataView>::empty());
                        assert(log.skip(i + 1) =~= Seq::<VersionedDataView>::empty());
                    } else {
                        assert(live == log.skip(seqno_before.0 + 1 - earliest));
                    }
                    assert(vd_seq_view(diffs_to_current@) == log.skip(i + 1));
                    lemma_chain_apply(log, blob.contents(), old(state)@.shard_id, v, states0, i);
                }
            }
            state.apply_encoded_diffs(self.cfg.build_version, &diffs_to_current);
            proof {
                assert(state@ == states0.last());
            }
            Ok(())
        } else {
            proof {
                if log.len() >= self.cfg.state_versions_recent_live_diffs_limit {
                    lemma_shard_slow_path_facts(
                        log,
                        blob.contents(),
                        old(state)@.shard_id,
                        v,
                        states0,
                    );
                }
            }
            let recent_live_diffs = self.fetch_recent_live_diffs(consensus, &shard_id);
            proof {
                lemma_fresh_hint(
                    log,
                    blob.contents(),
                    old(state)@.shard_id,
                    v,
                    states0,
                    vd_seq_view(recent_live_diffs.0@),
                );
            }
            let current = match self.fetch_current_state(
                consensus,
                blob,
                &shard_id,
                recent_live_diffs.0,
            ) {
                Ok(s) => s,
                Err(_) => {
                    proof {
                        assert(false);
                    }
                    unreached()
                },
            };
            *state = current;
            Ok(())
        }
    }

    /// Fetches the rollup registered for `seqno`, if one exists. Uses the
    /// hinted live diffs to reconstruct the current registry; where the
    /// registry has lost its entry (a healed historical defect), falls back
    /// to the evidence in the raw diffs and counts the hit.
    #[verifier::rlimit(100)]
    #[verifier::spinoff_prover]
    pub fn fetch_rollup_at_seqno<C: Consensus, B: Blob>(
        &mut self,
        consensus: &C,
        blob: &B,
        shard_id: &ShardId,
        live_diffs: Vec<VersionedData>,
        seqno: SeqNo,
    ) -> (r: Option<Result<State, CodecMismatch>>)
        requires
            consensus.inv(),
            blob.inv(),
            old(self).cfg.state_versions_recent_live_diffs_limit >= 1,
            ({
                let log = consensus.log_at(crate::codec::enc_u64(shard_id.0));
                &&& log.len() > 0
                &&& log.len() <= usize::MAX
                &&& log.last().seqno < u64::MAX
                &&& exists|states: Seq<StateView>|
                    chain_ok(log, blob.contents(), shard_id.0, log_version(log), states)
                &&& hint_ok(
                    vd_seq_view(live_diffs@),
                    log,
                    blob.contents(),
                    shard_id.0,
                    log_version(log),
                )
                &&& forall|states: Seq<StateView>|
                    chain_ok(log, blob.contents(), shard_id.0, log_version(log), states) ==> (
                    reg_lookup(states.last().rollups, seqno.0) is Some || migration_key(
                        vd_seq_view(live_diffs@),
                        seqno.0,
                    ) is Some)
            }),
        ensures
            final(self).cfg == old(self).cfg,
            ({
                let log = consensus.log_at(crate::codec::enc_u64(shard_id.0));
                if log_version(log) == old(self).cfg.build_version {
                    exists|states: Seq<StateView>|
                        chain_ok(log, blob.contents(), shard_id.0, log_version(log), states)
                            && match reg_lookup(states.last().rollups, seqno.0) {
                            Some(_) => {
                                &&& final(self).metrics.rollup_at_seqno_migration == old(
                                    self,
                                ).metrics.rollup_at_seqno_migration
                                &&& match r {
                                    Some(Ok(st)) => st@ == states[seqno.0 - log[0].seqno],
                                    _ => false,
                                }
                            },
                            None => {
                                &&& final(self).metrics.rollup_at_seqno_migration as int == if old(
                                    self,
                                ).metrics.rollup_at_seqno_migration < u64::MAX {
                                    old(self).metrics.rollup_at_seqno_migration + 1
                                } else {
                                    old(self).metrics.rollup_at_seqno_migration as int
                                }
                                &&& match migration_key(vd_seq_view(live_diffs@), seqno.0) {
                                    Some(mk) => match r {
                                        None => !blob.contents().contains_key(
                                            blob_key_bytes(shard_id.0, mk),
                                        ),
                                        Some(Ok(st)) => blob.contents().contains_key(
                                            blob_key_bytes(shard_id.0, mk),
                                        ) && parse_state(
                                            blob.contents()[blob_key_bytes(shard_id.0, mk)],
                                        ) == Some((old(self).cfg.build_version, st@)),
                                        Some(Err(_)) => blob.contents().contains_key(
                                            blob_key_bytes(shard_id.0, mk),
                                        ),
                                    },
                                    None => false,
                                }
                            },
                        }
                } else {
                    r matches Some(Err(_))
                }
            }),
    {
        let ghost path_v = crate::codec::enc_u64(shard_id.0);
        let ghost log = consensus.log_at(path_v);
        let ghost v = log_version(log);
        let ghost hint = vd_seq_view(live_diffs@);

        // Keep the raw diffs: they are the migration path's evidence.
        let raw_diffs = crate::location::copy_versioned(&live_diffs);
        let state = match self.fetch_current_state(consensus, blob, shard_id, live_diffs) {
            Ok(s) => s,
            Err(e) => {
                proof {
                    assert(v != self.cfg.build_version);
                }
                return Some(Err(e));
            },
        };
        let ghost states0 = choose|states: Seq<StateView>|
            chain_ok(log, blob.contents(), shard_id.0, v, states) && state@ == states.last()
                && state@.wf();
        proof {
            assert(chain_ok(log, blob.contents(), shard_id.0, v, states0));
        }
        match state.rollup_at(seqno) {
            Some(rollup_key) => {
                proof {
                    assert(reg_lookup(states0.last().rollups, seqno.0) == Some(rollup_key@));
                    let ri = crate::state::reg_index_of(state@.rollups, seqno.0);
                    assert(states0.last().rollups[ri].0 == seqno.0);
                    assert(blob.contents()[blob_key_bytes(shard_id.0, rollup_key@)] == enc_state(
                        v,
                        states0[seqno.0 - log[0].seqno],
                    ));
                    crate::codec::lemma_state_roundtrip(v, states0[seqno.0 - log[0].seqno]);
                }
                let fetched = self.fetch_rollup_at_key(blob, shard_id, &rollup_key);
                proof {
                    match &fetched {
                        Some(Ok(st)) => {
                            assert(st@ == states0[seqno.0 - log[0].seqno]);
                        },
                        _ => {
                            assert(false);
                        },
                    }
                    assert(self.metrics.rollup_at_seqno_migration == old(
                        self,
                    ).metrics.rollup_at_seqno_migration);
                }
                fetched
            },
            None => {
                // MIGRATION: the registry lost its entry; sniff the key out
                // of the raw diffs, count the hit, and fetch by that key.
                proof {
                    assert(reg_lookup(states0.last().rollups, seqno.0) is None);
                    assert(migration_key(hint, seqno.0) is Some);
                }
                let rollup_key = match self.migration_scan(&raw_diffs, seqno) {
                    Some(k) => k,
                    None => {
                        proof {
                            assert(false);
                        }
                        unreached()
                    },
                };
                inc(&mut self.metrics.rollup_at_seqno_migration);
                let fetched = self.fetch_rollup_at_key(blob, shard_id, &rollup_key);
                proof {
                    assert(migration_key(hint, seqno.0) == Some(rollup_key@));
                }
                fetched
            },
        }
    }

    /// Searches hinted diffs, oldest first, for a registry delta keyed by
    /// `seqno`, returning the rollup key it names.
    fn migration_scan(&self, diffs: &Vec<VersionedData>, seqno: SeqNo) -> (r: Option<
        PartialRollupKey,
    >)
        requires
            diffs_wf(vd_seq_view(diffs@), self.cfg.build_version),
        ensures
            match r {
                Some(k) => migration_key(vd_seq_view(diffs@), seqno.0) == Some(k@),
                None => migration_key(vd_seq_view(diffs@), seqno.0) is None,
            },
    {
        let ghost entries = vd_seq_view(diffs@);
        let n = diffs.len();
        let mut i: usize = 0;
        proof {
            assert(entries.skip(0) =~= entries);
        }
        while i < n
            invariant
                i <= n == diffs@.len(),
                entries == vd_seq_view(diffs@),
                diffs_wf(entries, self.cfg.build_version),
                migration_key(entries.skip(i as int), seqno.0) == migration_key(entries, seqno.0),
            decreases n - i,
        {
            proof {
                assert(entries.skip(i as int)[0] == entries[i as int]);
                assert(entries.skip(i as int).skip(1) =~= entries.skip(i as int + 1));
                assert(entry_wf(entries[i as int], self.cfg.build_version));
            }
            let data = bytes_to_vec(&diffs.get(i).unwrap().data);
            let d = match StateDiff::decode(self.cfg.build_version, &data) {
                Ok(d) => d,
                Err(_) => {
                    proof {
                        assert(false);
                    }
                    unreached()
                },
            };
            let ghost ds = d@.rollups;
            let m = d.rollups.len();
            let mut j: usize = 0;
            proof {
                assert(ds.skip(0) =~= ds);
                assert(d@ == diff_of(entries[i as int]));
            }
            while j < m
                invariant
                    i < n == diffs@.len(),
                    entries == vd_seq_view(diffs@),
                    migration_key(entries.skip(i as int), seqno.0) == migration_key(
                        entries,
                        seqno.0,
                    ),
                    d@ == diff_of(entries[i as int]),
                    j <= m == d.rollups@.len(),
                    ds == d@.rollups,
                    delta_key_lookup(ds.skip(j as int), seqno.0) == delta_key_lookup(ds, seqno.0),
                decreases m - j,
            {
                proof {
                    assert(ds.skip(j as int)[0] == ds[j as int]);
                    assert(ds.skip(j as int).skip(1) =~= ds.skip(j as int + 1));
                }
                let delta = &d.rollups[j];
                proof {
                    assert(ds[j as int] == d.rollups@[j as int]@);
                }
                if delta.key.0 == seqno.0 {
                    let k = match &delta.val {
                        StateFieldValDiff::Insert(x) => x.copy(),
                        StateFieldValDiff::Update(_, x) => x.copy(),
                        StateFieldValDiff::Delete(x) => x.copy(),
                    };
                    proof {
                        assert(d@ == diff_of(entries[i as int]));
                        assert(delta_key_lookup(ds.skip(j as int), seqno.0) == Some(k@));
                        assert(delta_key_lookup(diff_of(entries[i as int]).rollups, seqno.0)
                            == Some(k@));
                        assert(migration_key(entries.skip(i as int), seqno.0) == Some(k@));
                    }
                    return Some(k);
                }
                j = j + 1;
            }
            proof {
                assert(ds.skip(m as int) =~= Seq::<crate::diff::DeltaView>::empty());
                assert(delta_key_lookup(ds, seqno.0) is None);
            }
            i = i + 1;
        }
        proof {
            assert(entries.skip(n as int) =~= Seq::<VersionedDataView>::empty());
        }
        None
    }

    /// Returns an iterator over every live state of the shard, earliest
    /// through current, each successive state obtained by applying one diff.
    #[verifier::rlimit(100)]
    #[verifier::spinoff_prover]
    pub fn fetch_all_live_states<C: Consensus, B: Blob>(
        &mut self,
        consensus: &C,
        blob: &B,
        shard_id: &ShardId,
    ) -> (r: Result<StateVersionsIter, CodecMismatch>)
        requires
            consensus.inv(),
            blob.inv(),
            old(self).cfg.state_versions_recent_live_diffs_limit >= 1,
            ({
                let log = consensus.log_at(crate::codec::enc_u64(shard_id.0));
                &&& log.len() > 0
                &&& log.len() <= usize::MAX
                &&& log.last().seqno < u64::MAX
                &&& exists|states: Seq<StateView>|
                    chain_ok(log, blob.contents(), shard_id.0, log_version(log), states)
                &&& forall|states: Seq<StateView>|
                    chain_ok(log, blob.contents(), shard_id.0, log_version(log), states)
                        ==> reg_contains(states.last().rollups, log[0].seqno)
            }),
        ensures
            final(self).cfg == old(self).cfg,
            ({
                let log = consensus.log_at(crate::codec::enc_u64(shard_id.0));
                if log_version(log) == old(self).cfg.build_version {
                    match r {
                        Ok(iter) => exists|states: Seq<StateView>|
                            {
                                &&& chain_ok(
                                    log,
                                    blob.contents(),
                                    shard_id.0,
                                    log_version(log),
                                    states,
                                )
                                &&& iter.inv()
                                &&& iter.remaining() == log
                                &&& iter.current() == states[0]
                                &&& iter.version() == old(self).cfg.build_version
                            },
                        Err(_) => false,
                    }
                } else {
                    r is Err
                }
            }),
    {
        let ghost path_v = crate::codec::enc_u64(shard_id.0);
        let ghost log = consensus.log_at(path_v);
        let ghost v = log_version(log);
        let all_live_diffs = self.fetch_all_live_diffs(consensus, shard_id);
        proof {
            let states = choose|states: Seq<StateView>|
                chain_ok(log, blob.contents(), shard_id.0, v, states);
            assert(log.skip(0) =~= log);
            assert(vd_seq_view(all_live_diffs.0@) == log.skip(0));
            lemma_fresh_hint(
                log,
                blob.contents(),
                shard_id.0,
                v,
                states,
                vd_seq_view(all_live_diffs.0@),
            );
            assert(vd_seq_view(all_live_diffs.0@).len() == all_live_diffs.0@.len());
        }
        let earliest_seqno = all_live_diffs.0.get(0).unwrap().seqno;
        proof {
            assert(vd_seq_view(all_live_diffs.0@)[0] == log[0]);
            assert(earliest_seqno.0 == log[0].seqno);
        }
        let diffs_again = crate::location::copy_versioned(&all_live_diffs.0);
        let fetched = self.fetch_rollup_at_seqno(
            consensus,
            blob,
            shard_id,
            all_live_diffs.0,
            earliest_seqno,
        );
        let ghost states0 = choose|states: Seq<StateView>|
            chain_ok(log, blob.contents(), shard_id.0, v, states) && match reg_lookup(
                states.last().rollups,
                earliest_seqno.0,
            ) {
                Some(_) => {
                    &&& self.metrics.rollup_at_seqno_migration == old(
                        self,
                    ).metrics.rollup_at_seqno_migration
                    &&& match fetched {
                        Some(Ok(st)) => st@ == states[earliest_seqno.0 - log[0].seqno],
                        _ => false,
                    }
                },
                None => true,
            };
        let state = match fetched {
            Some(Ok(s)) => s,
            Some(Err(e)) => {
                proof {
                    if v == self.cfg.build_version {
                        assert(reg_contains(states0.last().rollups, log[0].seqno));
                        assert(reg_lookup(states0.last().rollups, earliest_seqno.0) is Some);
                        assert(false);
                    }
                }
                return Err(e);
            },
            None => {
                proof {
                    if v == self.cfg.build_version {
                        assert(reg_contains(states0.last().rollups, log[0].seqno));
                        assert(reg_lookup(states0.last().rollups, earliest_seqno.0) is Some);
                    }
                    assert(false);
                }
                unreached()
            },
        };
        proof {
            assert(v == self.cfg.build_version);
            assert(reg_contains(states0.last().rollups, log[0].seqno));
            assert(reg_lookup(states0.last().rollups, earliest_seqno.0) is Some);
            assert(state@ == states0[0]);
            lemma_chain_iter_ok(log, blob.contents(), shard_id.0, v, states0, 0);
            assert(log.skip(1) == log.skip(0int + 1));
            assert(log[0].seqno == states0[0].seqno);
            assert(log.skip(0) =~= log);
            assert(iter_entries_ok(log, states0[0], v)) by {
                assert(log[0].seqno == states0[0].seqno);
                assert(entry_wf(log[0], v));
            }
        }
        Ok(StateVersionsIter::new(self.cfg.build_version, state, diffs_again, Ghost(log)))
    }
}

/// An iterator over consecutive live states of one shard. The first call of
/// `next` yields the earliest live state (absorbing its own diff as a
/// no-op); each later call applies one diff and yields the result.
pub struct StateVersionsIter {
    build_version: u64,
    state: State,
    // Reversed, so one diff pops off the end cheaply.
    diffs: Vec<VersionedData>,
}

impl StateVersionsIter {
    /// The diffs not yet absorbed, oldest first.
    pub closed spec fn remaining(&self) -> Seq<VersionedDataView> {
        vd_seq_view(self.diffs@).reverse()
    }

    /// The state most recently yielded (the earliest state's rollup before
    /// the first `next`).
    pub closed spec fn current(&self) -> StateView {
        self.state@
    }

    /// The codec version diffs are decoded under.
    pub closed spec fn version(&self) -> u64 {
        self.build_version
    }

    /// Well-formedness: the remaining diffs chain onto the current state.
    pub closed spec fn inv(&self) -> bool {
        &&& self.state@.wf()
        &&& iter_entries_ok(self.remaining(), self.state@, self.build_version)
    }

    /// Packs a starting state and the live diffs from its SeqNo on.
    fn new(
        build_version: u64,
        state: State,
        diffs: Vec<VersionedData>,
        Ghost(log): Ghost<Seq<VersionedDataView>>,
    ) -> (r: StateVersionsIter)
        requires
            state@.wf(),
            vd_seq_view(diffs@) == log,
            iter_entries_ok(log, state@, build_version),
        ensures
            r.inv(),
            r.remaining() == log,
            r.current() == state@,
            r.version() == build_version,
    {
        let mut rev: Vec<VersionedData> = Vec::new();
        let n = diffs.len();
        let mut i: usize = 0;
        while i < n
            invariant
                i <= n == diffs@.len(),
                rev@.len() == i,
                forall|j: int| 0 <= j < i ==> (#[trigger] rev@[j])@ == diffs@[n - 1 - j]@,
            decreases n - i,
        {
            rev.push(diffs.get(n - 1 - i).unwrap().copy());
            i = i + 1;
        }
        let r = StateVersionsIter { build_version, state, diffs: rev };
        proof {
            assert(r.remaining() =~= vd_seq_view(diffs@));
        }
        r
    }

    /// How many states remain to be yielded.
    pub fn len(&self) -> (r: usize)
        ensures
            r == self.remaining().len(),
    {
        proof {
            assert(self.remaining().len() == self.diffs@.len());
        }
        self.diffs.len()
    }

    /// The SeqNo of the state the next call of `next` yields.
    pub fn peek_seqno(&self) -> (r: Option<SeqNo>)
        ensures
            match r {
                Some(s) => self.remaining().len() > 0 && s.0 == self.remaining()[0].seqno,
                None => self.remaining().len() == 0,
            },
    {
        let n = self.diffs.len();
        if n == 0 {
            proof {
                assert(self.remaining().len() == self.diffs@.len());
            }
            None
        } else {
            proof {
                assert(self.remaining()[0] == vd_seq_view(self.diffs@)[n - 1]);
            }
            Some(self.diffs.get(n - 1).unwrap().seqno)
        }
    }

    /// Absorbs one diff and yields the state it produces (the earliest
    /// state itself on the first call).
    pub fn next(&mut self) -> (r: Option<State>)
        requires
            old(self).inv(),
        ensures
            final(self).inv(),
            final(self).version() == old(self).version(),
            match r {
                None => old(self).remaining().len() == 0 && final(self).remaining() == old(
                    self,
                ).remaining() && final(self).current() == old(self).current(),
                Some(st) => {
                    &&& old(self).remaining().len() > 0
                    &&& final(self).remaining() == old(self).remaining().skip(1)
                    &&& final(self).current() == (if old(self).remaining()[0].seqno == old(
                        self,
                    ).current().seqno {
                        old(self).current()
                    } else {
                        diff_of(old(self).remaining()[0]).apply_to(old(self).current())
                    })
                    &&& st@ == final(self).current()
                    &&& st@.seqno == old(self).remaining()[0].seqno
                },
            },
    {
        let diff = match self.diffs.pop() {
            Some(x) => x,
            None => {
                proof {
                    assert(self.remaining().len() == self.diffs@.len());
                    assert(self.remaining() == old(self).remaining());
                }
                return None;
            },
        };
        let ghost rem0 = old(self).remaining();
        proof {
            assert(rem0.len() == old(self).diffs@.len());
            assert(rem0[0] == vd_seq_view(old(self).diffs@)[old(self).diffs@.len() - 1]);
            assert(rem0[0] == diff@);
            assert(self.remaining() =~= rem0.skip(1));
            assert(iter_entries_ok(rem0, self.state@, self.build_version));
        }
        if diff.seqno.0 == self.state.seqno.0 {
            // The first diff is the one the starting rollup already
            // includes: absorbing it is a no-op.
            proof {
                assert(self.state@.seqno == diff@.seqno);
            }
            let st = self.state.copy();
            Some(st)
        } else {
            let data = bytes_to_vec(&diff.data);
            let d = match StateDiff::decode(self.build_version, &data) {
                Ok(d) => d,
                Err(_) => {
                    proof {
                        assert(entry_wf(rem0[0], self.build_version));
                        assert(false);
                    }
                    unreached()
                },
            };
            proof {
                assert(d@ == diff_of(rem0[0]));
            }
            self.state.apply_diff(&d);
            proof {
                assert(self.state@.seqno == diff@.seqno);
            }
            let st = self.state.copy();
            Some(st)
        }
    }

    /// The state most recently yielded.
    pub fn state(&self) -> (r: State)
        ensures
            r@ == self.current(),
    {
        self.state.copy()
    }
}

} // verus!
