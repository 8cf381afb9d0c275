//! The durable laws of the log, stated and proved once over the stores'
//! mathematical views. Each law holds of every shard ever written through
//! this crate's operations, whose contracts supply exactly the hypotheses
//! used here.

use vstd::prelude::*;
use crate::codec::{enc_state, parse_state};
use crate::location::{cas_expectation_matches, live_from, VersionedDataView};
use crate::seqno::SeqNo;
use crate::state::{reg_contains, reg_index_of, reg_lookup};
use crate::versions::{
    apply_entries, chain_ok, entries_apply_to, lemma_chain_apply, log_contiguous,
};
use crate::paths::blob_key_bytes;
use crate::state::StateView;

verus! {

/// Every shard's SeqNos form a contiguous range with `earliest <= current`,
/// and a successful compare-and-set of the next dense SeqNo keeps it that
/// way.
pub proof fn lemma_cas_preserves_contiguity(log: Seq<VersionedDataView>, entry: VersionedDataView)
    requires
        log_contiguous(log),
        log.len() == 0 ==> entry.seqno == 1,
        log.len() > 0 ==> log.last().seqno < u64::MAX && entry.seqno == log.last().seqno + 1,
    ensures
        log_contiguous(log.push(entry)),
        log.push(entry)[0].seqno <= log.push(entry).last().seqno,
{
    let log2 = log.push(entry);
    assert(log2.last() == log2[log2.len() - 1]);
    assert forall|i: int| 0 <= i < log2.len() implies (#[trigger] log2[i]).seqno == log2[0].seqno
        + i by {
        if log.len() > 0 {
            assert(log.last() == log[log.len() - 1]);
            if i < log.len() {
                assert(log2[i] == log[i]);
            }
            assert(log2[0] == log[0]);
        }
    }
}

/// Truncation keeps the SeqNo range contiguous: the survivors are a suffix.
pub proof fn lemma_truncate_preserves_contiguity(log: Seq<VersionedDataView>, seqno: u64)
    requires
        log_contiguous(log),
    ensures
        log_contiguous(live_from(log, seqno)),
    decreases log.len(),
{
    if log.len() > 0 {
        let tail = log.skip(1);
        assert forall|i: int| 0 <= i < tail.len() implies (#[trigger] tail[i]).seqno == tail[0].seqno
            + i by {
            assert(tail[i] == log[i + 1]);
            assert(tail[0] == log[1]);
        }
        lemma_truncate_preserves_contiguity(tail, seqno);
        if log[0].seqno >= seqno {
            let live = live_from(log, seqno);
            assert(live == seq![log[0]] + live_from(tail, seqno));
            crate::versions::lemma_live_from_contiguous(log, seqno);
            assert(live == log);
        }
    }
}

/// For every successful compare-and-set producing SeqNo `S`, the next
/// successful compare-and-set of the same shard produces `S + 1`: the second
/// writer must expect exactly the tip the first one left, and this crate
/// proposes exactly the successor of what it expects.
pub proof fn lemma_cas_seqnos_dense(
    log: Seq<VersionedDataView>,
    first: VersionedDataView,
    expected: SeqNo,
    second: VersionedDataView,
)
    requires
        cas_expectation_matches(log.push(first), Some(expected)),
        expected.0 < u64::MAX,
        second.seqno == expected.0 + 1,
    ensures
        second.seqno == first.seqno + 1,
{
    assert(log.push(first).last() == first);
}

/// Every entry the truncation keeps is at or past the truncation point.
pub proof fn lemma_live_from_ge(log: Seq<VersionedDataView>, seqno: u64)
    ensures
        forall|i: int|
            0 <= i < live_from(log, seqno).len() ==> (#[trigger] live_from(log, seqno)[i]).seqno
                >= seqno,
    decreases log.len(),
{
    if log.len() > 0 {
        lemma_live_from_ge(log.skip(1), seqno);
        if log[0].seqno >= seqno {
            assert(live_from(log, seqno) == seq![log[0]] + live_from(log.skip(1), seqno));
            assert forall|i: int|
                0 <= i < live_from(log, seqno).len() implies (#[trigger] live_from(
                log,
                seqno,
            )[i]).seqno >= seqno by {
                if i > 0 {
                    assert(live_from(log, seqno)[i] == live_from(log.skip(1), seqno)[i - 1]);
                }
            }
        } else {
            assert(live_from(log, seqno) == live_from(log.skip(1), seqno));
        }
    }
}

/// A run whose entries all sit at or past the truncation point is untouched
/// by it.
pub proof fn lemma_live_from_noop(log: Seq<VersionedDataView>, seqno: u64)
    requires
        forall|i: int| 0 <= i < log.len() ==> (#[trigger] log[i]).seqno >= seqno,
    ensures
        live_from(log, seqno) == log,
    decreases log.len(),
{
    if log.len() > 0 {
        assert forall|i: int|
            0 <= i < log.skip(1).len() implies (#[trigger] log.skip(1)[i]).seqno >= seqno by {
            assert(log.skip(1)[i] == log[i + 1]);
        }
        lemma_live_from_noop(log.skip(1), seqno);
        assert(live_from(log, seqno) == seq![log[0]] + log.skip(1));
        assert(seq![log[0]] + log.skip(1) =~= log);
    }
}

/// Idempotence of truncate: truncating twice at the same SeqNo leaves
/// exactly what one truncation leaves, so the second call deletes nothing.
pub proof fn lemma_truncate_idempotent(log: Seq<VersionedDataView>, seqno: u64)
    ensures
        live_from(live_from(log, seqno), seqno) == live_from(log, seqno),
{
    lemma_live_from_ge(log, seqno);
    lemma_live_from_noop(live_from(log, seqno), seqno);
}

/// Idempotence of initialization: an expect-nothing compare-and-set matches
/// only the empty log, so of any number of concurrent initializers exactly
/// the first to commit wins, and every later attempt is told the winner's
/// tail instead.
pub proof fn lemma_init_single_winner(log: Seq<VersionedDataView>, entry: VersionedDataView)
    ensures
        cas_expectation_matches(log, None) <==> log.len() == 0,
        !cas_expectation_matches(log.push(entry), None),
{
}

/// The rollup-at-earliest invariant: whenever the current state registers a
/// rollup for the earliest live SeqNo — which every operation of this crate
/// maintains — that rollup blob exists and decodes to the chain's state at
/// exactly the earliest SeqNo.
pub proof fn lemma_rollup_at_earliest(
    log: Seq<VersionedDataView>,
    blobm: Map<Seq<u8>, Seq<u8>>,
    shard: u64,
    version: u64,
    states: Seq<StateView>,
)
    requires
        chain_ok(log, blobm, shard, version, states),
        reg_contains(states.last().rollups, log[0].seqno),
    ensures
        ({
            let earliest = log[0].seqno;
            let key = reg_lookup(states.last().rollups, earliest).unwrap();
            &&& blobm.contains_key(blob_key_bytes(shard, key))
            &&& parse_state(blobm[blob_key_bytes(shard, key)]) == Some((version, states[0]))
            &&& states[0].seqno == earliest
        }),
{
    let earliest = log[0].seqno;
    let cur = states.last();
    assert(states.last() == states[states.len() - 1]);
    let idx = reg_index_of(cur.rollups, earliest);
    assert(0 <= idx < cur.rollups.len() && cur.rollups[idx].0 == earliest);
    assert(blobm[blob_key_bytes(shard, cur.rollups[idx].1)] == enc_state(
        version,
        states[earliest - earliest],
    ));
    crate::codec::lemma_state_roundtrip(version, states[0]);
}

/// Reconstruction agrees with the rollups: applying the live diffs forward
/// from the earliest rollup's state reaches the current state, and the blob
/// under the current state's latest registered rollup key is byte-equal to
/// the encoding of the chain's state at that key's SeqNo.
pub proof fn lemma_diffs_rebuild_rollup(
    log: Seq<VersionedDataView>,
    blobm: Map<Seq<u8>, Seq<u8>>,
    shard: u64,
    version: u64,
    states: Seq<StateView>,
)
    requires
        chain_ok(log, blobm, shard, version, states),
        reg_contains(states.last().rollups, log[0].seqno),
    ensures
        entries_apply_to(log.skip(1), states[0], version),
        apply_entries(log.skip(1), states[0], version) == states.last(),
        ({
            let latest = states.last().rollups.last();
            blobm[blob_key_bytes(shard, latest.1)] == enc_state(
                version,
                states[latest.0 - log[0].seqno],
            )
        }),
{
    lemma_chain_apply(log, blobm, shard, version, states, 0);
    assert(log.skip(0int + 1) == log.skip(1));
    let cur = states.last();
    assert(states.last() == states[states.len() - 1]);
    let lr = cur.rollups.len() - 1;
    assert(cur.rollups[lr] == cur.rollups.last());
    assert(blobm[blob_key_bytes(shard, cur.rollups[lr].1)] == enc_state(
        version,
        states[cur.rollups[lr].0 - log[0].seqno],
    ));
}

} // verus!
