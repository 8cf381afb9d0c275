//! End-to-end tests of the state versions log against the in-memory stores.

use state_versions::diff::{StateDiff, StateFieldDiff, StateFieldValDiff};
use state_versions::plan::{
    AlterOptionParameter, CopyFormat, CreateDatabasePlan, CreateSchemaPlan, DatabaseId,
    MutationKind, NoticeSeverity, RaisePlan, ResolvedDatabaseSpecifier,
};
use state_versions::location::{bytes_to_vec, Blob, Consensus, MemBlob, MemConsensus, SCAN_ALL};
use state_versions::paths::{PartialRollupKey, RollupId, ShardId};
use state_versions::seqno::SeqNo;
use state_versions::state::State;
use state_versions::versions::{PersistConfig, StateVersions};

fn client(nonce: u64, limit: usize) -> StateVersions {
    StateVersions::new(PersistConfig {
        build_version: 1,
        hostname: b"host".to_vec(),
        now_ms: 42,
        state_versions_recent_live_diffs_limit: limit,
        writer_nonce: nonce,
    })
}

/// Proposes the successor of `state` (with the given registry deltas and new
/// remainder) and commits it by compare-and-set; the CAS must win.
fn advance(
    consensus: &mut MemConsensus,
    sv: &StateVersions,
    state: &mut State,
    deltas: Vec<StateFieldDiff>,
    new_extra: Vec<u8>,
) {
    let from = state.seqno();
    let mut diff = StateDiff {
        seqno_from: from,
        seqno_to: SeqNo(from.0 + 1),
        latest_rollup_key: PartialRollupKey(Vec::new()),
        rollups: deltas,
        new_extra,
    };
    let mut next = state.copy();
    next.apply_diff(&diff);
    let (_, latest_key) = next.latest_rollup();
    diff.latest_rollup_key = latest_key;
    let res = sv.try_compare_and_set_current(consensus, Some(from), &next, &diff);
    assert!(matches!(res, Ok(Ok(()))));
    *state = next;
}

fn live_seqnos(consensus: &MemConsensus, shard: &ShardId) -> Vec<u64> {
    let diffs = consensus.scan(&shard.to_path(), SeqNo(0), SCAN_ALL);
    diffs.iter().map(|d| d.seqno.0).collect()
}

#[test]
fn uninitialized_shard_has_no_live_diffs() {
    let consensus = MemConsensus::new();
    let mut sv = client(1, 10);
    let shard = ShardId(1);
    let recent = sv.fetch_recent_live_diffs(&consensus, &shard);
    assert_eq!(recent.0.len(), 0);
    let all = sv.fetch_all_live_diffs(&consensus, &shard);
    assert_eq!(all.0.len(), 0);
    assert_eq!(sv.metrics.fetch_recent_live_diffs_fast_path, 1);
}

#[test]
fn init_writes_first_version_and_rollup() {
    let mut consensus = MemConsensus::new();
    let mut blob = MemBlob::new();
    let mut sv = client(1, 10);
    let shard = ShardId(1);
    let state = sv.maybe_init_shard(&mut consensus, &mut blob, &shard).unwrap();
    assert_eq!(state.seqno(), SeqNo(1));
    assert_eq!(state.shard_id(), shard);
    assert_eq!(live_seqnos(&consensus, &shard), vec![1]);
    // The registry names a rollup for SeqNo 1 and its blob decodes back to
    // the initial state.
    let key = state.rollup_at(SeqNo(1)).expect("initial rollup must be registered");
    let fetched = sv.fetch_rollup_at_key(&blob, &shard, &key).unwrap().unwrap();
    assert_eq!(fetched.seqno(), SeqNo(1));
    assert_eq!(fetched.hostname, b"host".to_vec());
    assert_eq!(fetched.walltime_ms, 42);
    assert_eq!(blob.len(), 1);
}

#[test]
fn maybe_init_on_initialized_shard_reads_current() {
    let mut consensus = MemConsensus::new();
    let mut blob = MemBlob::new();
    let mut sv = client(1, 10);
    let shard = ShardId(1);
    let first = sv.maybe_init_shard(&mut consensus, &mut blob, &shard).unwrap();
    let mut other = client(2, 10);
    let second = other.maybe_init_shard(&mut consensus, &mut blob, &shard).unwrap();
    assert_eq!(second.seqno(), SeqNo(1));
    assert_eq!(
        second.latest_rollup().1,
        first.latest_rollup().1,
        "both callers must see the same registered rollup"
    );
    assert_eq!(live_seqnos(&consensus, &shard), vec![1]);
    assert_eq!(blob.len(), 1);
}

#[test]
fn cas_assigns_dense_seqnos() {
    let mut consensus = MemConsensus::new();
    let mut blob = MemBlob::new();
    let mut sv = client(1, 10);
    let shard = ShardId(5);
    let mut state = sv.maybe_init_shard(&mut consensus, &mut blob, &shard).unwrap();
    for _ in 0..3 {
        advance(&mut consensus, &sv, &mut state, Vec::new(), Vec::new());
    }
    assert_eq!(state.seqno(), SeqNo(4));
    // Contiguous, dense, earliest <= current.
    assert_eq!(live_seqnos(&consensus, &shard), vec![1, 2, 3, 4]);
}

#[test]
fn cas_mismatch_returns_live_tail() {
    let mut consensus = MemConsensus::new();
    let mut blob = MemBlob::new();
    let mut sv = client(1, 10);
    let shard = ShardId(5);
    let mut state = sv.maybe_init_shard(&mut consensus, &mut blob, &shard).unwrap();
    advance(&mut consensus, &sv, &mut state, Vec::new(), Vec::new());
    // A proposal expecting the no-longer-current SeqNo 1 must lose and be
    // told the authoritative tail.
    let stale_diff = StateDiff {
        seqno_from: SeqNo(1),
        seqno_to: SeqNo(2),
        latest_rollup_key: state.latest_rollup().1,
        rollups: Vec::new(),
        new_extra: Vec::new(),
    };
    let mut proposal = state.copy();
    proposal.seqno = SeqNo(2);
    let res = sv.try_compare_and_set_current(&mut consensus, Some(SeqNo(1)), &proposal, &stale_diff);
    match res {
        Ok(Err(live)) => {
            let seqnos: Vec<u64> = live.iter().map(|d| d.seqno.0).collect();
            assert_eq!(seqnos, vec![1, 2]);
        }
        _ => panic!("expected an expectation mismatch"),
    }
    assert_eq!(live_seqnos(&consensus, &shard), vec![1, 2]);
}

#[test]
fn first_writer_wins_losers_clean_up() {
    let mut consensus = MemConsensus::new();
    let mut blob = MemBlob::new();
    let mut p = client(1, 10);
    let mut q = client(2, 10);
    let shard = ShardId(9);

    // Both writers stage their initial rollups before either reaches
    // Consensus: two staged blobs under distinct fresh keys.
    let (p_state, p_diff) = p.write_initial_rollup(&mut blob, &shard);
    let (q_state, q_diff) = q.write_initial_rollup(&mut blob, &shard);
    assert_eq!(blob.len(), 2);

    // P commits first; Q's expect-nothing CAS must lose.
    let p_res = p.try_compare_and_set_current(&mut consensus, None, &p_state, &p_diff);
    assert!(matches!(p_res, Ok(Ok(()))));
    let q_res = q.try_compare_and_set_current(&mut consensus, None, &q_state, &q_diff);
    let live = match q_res {
        Ok(Err(live)) => live,
        _ => panic!("the second initializer must lose the race"),
    };

    // Q reconstructs the winner's state and deletes its own staged rollup,
    // which the winner did not register.
    let seen = q.fetch_current_state(&consensus, &blob, &shard, live).unwrap();
    assert_eq!(seen.seqno(), SeqNo(1));
    assert_eq!(seen.latest_rollup().1, p_state.latest_rollup().1);
    let (_, q_key) = q_state.latest_rollup();
    assert!(!seen.has_rollup_value(&q_key));
    q.delete_rollup(&mut blob, &shard, &q_key);

    // Exactly one rollup and one diff remain.
    assert_eq!(blob.len(), 1);
    assert_eq!(live_seqnos(&consensus, &shard), vec![1]);
}

#[test]
fn read_heals_through_gc_race() {
    let mut consensus = MemConsensus::new();
    let mut blob = MemBlob::new();
    let mut sv = client(1, 100);
    let shard = ShardId(4);
    let mut state = sv.maybe_init_shard(&mut consensus, &mut blob, &shard).unwrap();
    let k1 = state.rollup_at(SeqNo(1)).unwrap();
    advance(&mut consensus, &sv, &mut state, Vec::new(), Vec::new());

    // A reader captures a hint whose tip still references the rollup at 1.
    let stale_hint = sv.fetch_recent_live_diffs(&consensus, &shard);

    // Garbage collection moves the rollup forward to SeqNo 2, truncates, and
    // deletes the old blob.
    let k2 = PartialRollupKey::new(SeqNo(2), &RollupId(77, 0));
    let rollup2 = sv.encode_rollup_blob(&state, k2.copy());
    sv.write_rollup_blob(&mut blob, &rollup2);
    advance(
        &mut consensus,
        &sv,
        &mut state,
        vec![
            StateFieldDiff { key: SeqNo(2), val: StateFieldValDiff::Insert(k2.copy()) },
            StateFieldDiff { key: SeqNo(1), val: StateFieldValDiff::Delete(k1.copy()) },
        ],
        Vec::new(),
    );
    sv.truncate_diffs(&mut consensus, &shard, SeqNo(2));
    sv.delete_rollup(&mut blob, &shard, &k1);

    // The reader's stale hint self-heals: one counted retry, no error.
    assert_eq!(sv.metrics.fetch_latest_state_retries, 0);
    let current = sv.fetch_current_state(&consensus, &blob, &shard, stale_hint.0).unwrap();
    assert_eq!(current.seqno(), SeqNo(3));
    assert_eq!(sv.metrics.fetch_latest_state_retries, 1);
}

#[test]
fn slow_path_triggers_exactly_at_limit() {
    let mut consensus = MemConsensus::new();
    let mut blob = MemBlob::new();
    let mut sv = client(1, 4);
    let shard = ShardId(6);
    let mut state = sv.maybe_init_shard(&mut consensus, &mut blob, &shard).unwrap();
    // Grow the shard to SeqNo 22, snapshot a rollup there, register it at 23,
    // and keep writing through 25.
    while state.seqno().0 < 22 {
        advance(&mut consensus, &sv, &mut state, Vec::new(), Vec::new());
    }
    let k22 = PartialRollupKey::new(SeqNo(22), &RollupId(5, 5));
    let rollup22 = sv.encode_rollup_blob(&state, k22.copy());
    sv.write_rollup_blob(&mut blob, &rollup22);
    advance(
        &mut consensus,
        &sv,
        &mut state,
        vec![StateFieldDiff { key: SeqNo(22), val: StateFieldValDiff::Insert(k22.copy()) }],
        Vec::new(),
    );
    while state.seqno().0 < 25 {
        advance(&mut consensus, &sv, &mut state, Vec::new(), Vec::new());
    }

    let slow_before = sv.metrics.fetch_recent_live_diffs_slow_path;
    let recent = sv.fetch_recent_live_diffs(&consensus, &shard);
    assert_eq!(sv.metrics.fetch_recent_live_diffs_slow_path, slow_before + 1);
    let seqnos: Vec<u64> = recent.0.iter().map(|d| d.seqno.0).collect();
    assert_eq!(seqnos, vec![22, 23, 24, 25]);
    let current = sv.fetch_current_state(&consensus, &blob, &shard, recent.0).unwrap();
    assert_eq!(current.seqno(), SeqNo(25));
}

#[test]
fn fast_path_serves_one_page_short_of_limit() {
    let mut consensus = MemConsensus::new();
    let mut blob = MemBlob::new();
    let mut sv = client(1, 4);
    let shard = ShardId(7);
    let mut state = sv.maybe_init_shard(&mut consensus, &mut blob, &shard).unwrap();
    advance(&mut consensus, &sv, &mut state, Vec::new(), Vec::new());
    advance(&mut consensus, &sv, &mut state, Vec::new(), Vec::new());
    // Three live diffs against a page size of four: one bounded scan serves
    // the whole live set.
    let fast_before = sv.metrics.fetch_recent_live_diffs_fast_path;
    let slow_before = sv.metrics.fetch_recent_live_diffs_slow_path;
    let recent = sv.fetch_recent_live_diffs(&consensus, &shard);
    let seqnos: Vec<u64> = recent.0.iter().map(|d| d.seqno.0).collect();
    assert_eq!(seqnos, vec![1, 2, 3]);
    assert_eq!(sv.metrics.fetch_recent_live_diffs_fast_path, fast_before + 1);
    assert_eq!(sv.metrics.fetch_recent_live_diffs_slow_path, slow_before);
}

#[test]
fn cas_loser_rebases_and_commits() {
    let mut consensus = MemConsensus::new();
    let mut blob = MemBlob::new();
    let mut p = client(1, 10);
    let q = client(2, 10);
    let shard = ShardId(8);
    let p_state = p.maybe_init_shard(&mut consensus, &mut blob, &shard).unwrap();
    // Grow to SeqNo 7.
    let mut q_state = p_state.copy();
    while q_state.seqno().0 < 7 {
        advance(&mut consensus, &q, &mut q_state, Vec::new(), Vec::new());
    }
    // P (still believing SeqNo 7 after a fetch) and Q race for SeqNo 8; Q
    // commits first.
    let mut p_view = q_state.copy();
    advance(&mut consensus, &q, &mut q_state, Vec::new(), vec![1]);
    let p_diff = StateDiff {
        seqno_from: SeqNo(7),
        seqno_to: SeqNo(8),
        latest_rollup_key: p_view.latest_rollup().1,
        rollups: Vec::new(),
        new_extra: vec![2],
    };
    let mut p_proposal = p_view.copy();
    p_proposal.apply_diff(&p_diff);
    let res = p.try_compare_and_set_current(&mut consensus, Some(SeqNo(7)), &p_proposal, &p_diff);
    let live = match res {
        Ok(Err(live)) => live,
        _ => panic!("P must lose the race for SeqNo 8"),
    };
    assert_eq!(live.last().unwrap().seqno, SeqNo(8));

    // P discards its proposal, advances to the authoritative tip, re-plans,
    // and commits SeqNo 9.
    p.fetch_and_update_to_current(&consensus, &blob, &mut p_view).unwrap();
    assert_eq!(p_view.seqno(), SeqNo(8));
    assert_eq!(p_view.extra, vec![1], "the rebase must adopt Q's committed remainder");
    advance(&mut consensus, &p, &mut p_view, Vec::new(), vec![2]);
    assert_eq!(p_view.seqno(), SeqNo(9));
    assert_eq!(live_seqnos(&consensus, &shard).last().copied(), Some(9));
}

#[test]
fn migration_recovers_rollup_from_raw_diffs() {
    let mut consensus = MemConsensus::new();
    let mut blob = MemBlob::new();
    let mut sv = client(1, 100);
    let shard = ShardId(2);
    let mut state = sv.maybe_init_shard(&mut consensus, &mut blob, &shard).unwrap();
    let k1 = state.rollup_at(SeqNo(1)).unwrap();

    // Reproduce the healed defect: a write drops the registry entry for the
    // earliest live SeqNo while its blob (and the diff that registered it)
    // survive.
    let k2 = PartialRollupKey::new(SeqNo(2), &RollupId(3, 3));
    let rollup2 = sv.encode_rollup_blob(&state, k2.copy());
    sv.write_rollup_blob(&mut blob, &rollup2);
    advance(
        &mut consensus,
        &sv,
        &mut state,
        vec![
            StateFieldDiff { key: SeqNo(2), val: StateFieldValDiff::Insert(k2.copy()) },
            StateFieldDiff { key: SeqNo(1), val: StateFieldValDiff::Delete(k1.copy()) },
        ],
        Vec::new(),
    );
    assert!(state.rollup_at(SeqNo(1)).is_none());

    // The registry lookup misses; the raw diffs still hold the evidence.
    let all = sv.fetch_all_live_diffs(&consensus, &shard);
    assert_eq!(sv.metrics.rollup_at_seqno_migration, 0);
    let recovered = sv
        .fetch_rollup_at_seqno(&consensus, &blob, &shard, all.0, SeqNo(1))
        .expect("the blob for SeqNo 1 still exists")
        .unwrap();
    assert_eq!(recovered.seqno(), SeqNo(1));
    assert_eq!(sv.metrics.rollup_at_seqno_migration, 1);
}

#[test]
fn truncate_is_idempotent_and_noop_below_earliest() {
    let mut consensus = MemConsensus::new();
    let mut blob = MemBlob::new();
    let mut sv = client(1, 100);
    let shard = ShardId(3);
    let mut state = sv.maybe_init_shard(&mut consensus, &mut blob, &shard).unwrap();
    let k1 = state.rollup_at(SeqNo(1)).unwrap();
    advance(&mut consensus, &sv, &mut state, Vec::new(), Vec::new());
    let k2 = PartialRollupKey::new(SeqNo(2), &RollupId(6, 6));
    let rollup2 = sv.encode_rollup_blob(&state, k2.copy());
    sv.write_rollup_blob(&mut blob, &rollup2);
    advance(
        &mut consensus,
        &sv,
        &mut state,
        vec![
            StateFieldDiff { key: SeqNo(2), val: StateFieldValDiff::Insert(k2.copy()) },
            StateFieldDiff { key: SeqNo(1), val: StateFieldValDiff::Delete(k1.copy()) },
        ],
        Vec::new(),
    );

    sv.truncate_diffs(&mut consensus, &shard, SeqNo(2));
    assert_eq!(live_seqnos(&consensus, &shard), vec![2, 3]);
    // Truncating again at the same SeqNo deletes nothing.
    sv.truncate_diffs(&mut consensus, &shard, SeqNo(2));
    assert_eq!(live_seqnos(&consensus, &shard), vec![2, 3]);
    // Truncating at or below the earliest live SeqNo is a no-op.
    sv.truncate_diffs(&mut consensus, &shard, SeqNo(1));
    assert_eq!(live_seqnos(&consensus, &shard), vec![2, 3]);
    // Reads still work after garbage collection.
    sv.delete_rollup(&mut blob, &shard, &k1);
    let recent = sv.fetch_recent_live_diffs(&consensus, &shard);
    let current = sv.fetch_current_state(&consensus, &blob, &shard, recent.0).unwrap();
    assert_eq!(current.seqno(), SeqNo(3));
}

#[test]
fn incremental_update_applies_only_new_diffs() {
    let mut consensus = MemConsensus::new();
    let mut blob = MemBlob::new();
    let mut sv = client(1, 100);
    let shard = ShardId(12);
    let mut state = sv.maybe_init_shard(&mut consensus, &mut blob, &shard).unwrap();
    advance(&mut consensus, &sv, &mut state, Vec::new(), vec![1]);
    let mut held = state.copy();
    advance(&mut consensus, &sv, &mut state, Vec::new(), vec![2]);
    advance(&mut consensus, &sv, &mut state, Vec::new(), vec![3]);
    assert_eq!(held.seqno(), SeqNo(2));
    sv.fetch_and_update_to_current(&consensus, &blob, &mut held).unwrap();
    assert_eq!(held.seqno(), SeqNo(4));
    assert_eq!(held.extra, vec![3]);
}

#[test]
fn all_live_states_iterates_earliest_to_current() {
    let mut consensus = MemConsensus::new();
    let mut blob = MemBlob::new();
    let mut sv = client(1, 100);
    let shard = ShardId(13);
    let mut state = sv.maybe_init_shard(&mut consensus, &mut blob, &shard).unwrap();
    advance(&mut consensus, &sv, &mut state, Vec::new(), vec![1]);
    advance(&mut consensus, &sv, &mut state, Vec::new(), vec![2]);

    let mut iter = sv.fetch_all_live_states(&consensus, &blob, &shard).unwrap();
    assert_eq!(iter.len(), 3);
    assert_eq!(iter.peek_seqno(), Some(SeqNo(1)));
    let first = iter.next().unwrap();
    assert_eq!(first.seqno(), SeqNo(1));
    let second = iter.next().unwrap();
    assert_eq!(second.seqno(), SeqNo(2));
    assert_eq!(second.extra, vec![1]);
    assert_eq!(iter.peek_seqno(), Some(SeqNo(3)));
    let third = iter.next().unwrap();
    assert_eq!(third.seqno(), SeqNo(3));
    assert_eq!(third.extra, vec![2]);
    assert!(iter.next().is_none());
    assert_eq!(iter.state().seqno(), SeqNo(3));
}

#[test]
fn live_diffs_rebuild_the_registered_rollup() {
    let mut consensus = MemConsensus::new();
    let mut blob = MemBlob::new();
    let mut sv = client(1, 100);
    let shard = ShardId(14);
    let mut state = sv.maybe_init_shard(&mut consensus, &mut blob, &shard).unwrap();
    advance(&mut consensus, &sv, &mut state, Vec::new(), vec![1]);
    advance(&mut consensus, &sv, &mut state, Vec::new(), vec![2]);
    // Snapshot the state at SeqNo 3 and register it.
    let k3 = PartialRollupKey::new(SeqNo(3), &RollupId(8, 8));
    let rollup3 = sv.encode_rollup_blob(&state, k3.copy());
    sv.write_rollup_blob(&mut blob, &rollup3);
    advance(
        &mut consensus,
        &sv,
        &mut state,
        vec![StateFieldDiff { key: SeqNo(3), val: StateFieldValDiff::Insert(k3.copy()) }],
        vec![2],
    );

    // Reconstruct the state at the latest registered rollup's SeqNo by
    // applying live diffs forward from the earliest rollup; its encoding
    // must be byte-equal to the stored rollup blob.
    let mut iter = sv.fetch_all_live_states(&consensus, &blob, &shard).unwrap();
    let mut at_three: Option<State> = None;
    while let Some(s) = iter.next() {
        if s.seqno() == SeqNo(3) {
            at_three = Some(s);
        }
    }
    let rebuilt = at_three.unwrap();
    let mut encoded: Vec<u8> = Vec::new();
    rebuilt.encode(1, &mut encoded);
    let stored = blob.get(&k3.complete(&shard)).expect("registered rollup must exist");
    assert_eq!(bytes_to_vec(&stored), encoded);
}

#[test]
fn plan_records_hold_their_fields() {
    let create = CreateDatabasePlan { name: String::from("db"), if_not_exists: true };
    assert_eq!(create.name, "db");
    assert!(create.if_not_exists);
    let schema = CreateSchemaPlan {
        database_spec: ResolvedDatabaseSpecifier::Id(DatabaseId(3)),
        schema_name: String::from("s"),
        if_not_exists: false,
    };
    assert_eq!(schema.database_spec, ResolvedDatabaseSpecifier::Id(DatabaseId(3)));
    let raise = RaisePlan { severity: NoticeSeverity::Warning };
    assert_eq!(raise.severity, NoticeSeverity::Warning);
    assert!(matches!(MutationKind::Update, MutationKind::Update));
    assert_eq!(CopyFormat::Csv, CopyFormat::Csv);
    assert!(matches!(AlterOptionParameter::SetTo(String::from("4")), AlterOptionParameter::SetTo(_)));
}
