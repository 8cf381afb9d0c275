//! Tests of the codecs and the blob key scheme.

use state_versions::codec::{get_bytes, get_u64, put_bytes, put_u64};
use state_versions::diff::{StateDiff, StateFieldDiff, StateFieldValDiff};
use state_versions::paths::{BlobKey, PartialBlobKey, PartialRollupKey, RollupId, ShardId};
use state_versions::seqno::SeqNo;
use state_versions::state::State;

fn sample_state() -> State {
    let key1 = PartialRollupKey::new(SeqNo(1), &RollupId(7, 8));
    let key3 = PartialRollupKey::new(SeqNo(3), &RollupId(7, 9));
    State {
        seqno: SeqNo(3),
        shard_id: ShardId(11),
        hostname: b"reader-a".to_vec(),
        walltime_ms: 1234,
        extra: vec![1, 2, 3],
        rollups: vec![(SeqNo(1), key1), (SeqNo(3), key3)],
    }
}

#[test]
fn u64_and_bytes_primitives_roundtrip() {
    let mut buf: Vec<u8> = Vec::new();
    put_u64(&mut buf, 513);
    put_bytes(&mut buf, &vec![9, 9, 9]);
    put_u64(&mut buf, u64::MAX);
    let (a, p1) = get_u64(&buf, 0).unwrap();
    assert_eq!(a, 513);
    let (b, p2) = get_bytes(&buf, p1).unwrap();
    assert_eq!(b, vec![9, 9, 9]);
    let (c, p3) = get_u64(&buf, p2).unwrap();
    assert_eq!(c, u64::MAX);
    assert_eq!(p3, buf.len());
    assert!(get_u64(&buf, p3).is_none());
}

#[test]
fn empty_state_encodes_to_exact_bytes() {
    let state = State {
        seqno: SeqNo(0),
        shard_id: ShardId(7),
        hostname: Vec::new(),
        walltime_ms: 0,
        extra: Vec::new(),
        rollups: Vec::new(),
    };
    let mut buf: Vec<u8> = Vec::new();
    state.encode(1, &mut buf);
    let mut expected: Vec<u8> = Vec::new();
    expected.extend_from_slice(&[1, 0, 0, 0, 0, 0, 0, 0]); // build version
    expected.extend_from_slice(&[0; 8]); // seqno
    expected.extend_from_slice(&[7, 0, 0, 0, 0, 0, 0, 0]); // shard
    expected.extend_from_slice(&[0; 8]); // hostname length
    expected.extend_from_slice(&[0; 8]); // walltime
    expected.extend_from_slice(&[0; 8]); // extra length
    expected.extend_from_slice(&[0; 8]); // rollup count
    assert_eq!(buf, expected);
}

#[test]
fn state_codec_roundtrips_exactly() {
    let state = sample_state();
    let mut buf: Vec<u8> = Vec::new();
    state.encode(42, &mut buf);
    let back = State::decode(42, &buf).unwrap();
    assert_eq!(back.seqno, state.seqno);
    assert_eq!(back.shard_id, state.shard_id);
    assert_eq!(back.hostname, state.hostname);
    assert_eq!(back.walltime_ms, state.walltime_ms);
    assert_eq!(back.extra, state.extra);
    assert_eq!(back.rollups, state.rollups);
}

#[test]
fn state_decode_rejects_other_version() {
    let state = sample_state();
    let mut buf: Vec<u8> = Vec::new();
    state.encode(42, &mut buf);
    let err = State::decode(43, &buf).unwrap_err();
    assert_eq!(err.expected_version, 43);
    assert_eq!(err.actual_version, Some(42));
}

#[test]
fn state_decode_rejects_malformed_bytes() {
    assert!(State::decode(1, &vec![1, 2, 3]).is_err());
    assert!(State::decode(1, &Vec::new()).is_err());
    // A valid encoding with trailing garbage is not canonical.
    let state = sample_state();
    let mut buf: Vec<u8> = Vec::new();
    state.encode(1, &mut buf);
    buf.push(0);
    assert!(State::decode(1, &buf).is_err());
}

#[test]
fn diff_codec_roundtrips_exactly() {
    let k1 = PartialRollupKey::new(SeqNo(4), &RollupId(1, 2));
    let k2 = PartialRollupKey::new(SeqNo(2), &RollupId(3, 4));
    let k3 = PartialRollupKey::new(SeqNo(2), &RollupId(5, 6));
    let diff = StateDiff {
        seqno_from: SeqNo(3),
        seqno_to: SeqNo(4),
        latest_rollup_key: k1.copy(),
        rollups: vec![
            StateFieldDiff { key: SeqNo(4), val: StateFieldValDiff::Insert(k1.copy()) },
            StateFieldDiff { key: SeqNo(2), val: StateFieldValDiff::Update(k2, k3) },
            StateFieldDiff { key: SeqNo(1), val: StateFieldValDiff::Delete(k1) },
        ],
        new_extra: vec![5, 5],
    };
    let mut buf: Vec<u8> = Vec::new();
    diff.encode(9, &mut buf);
    let back = StateDiff::decode(9, &buf).unwrap();
    assert_eq!(back.seqno_from, SeqNo(3));
    assert_eq!(back.seqno_to, SeqNo(4));
    assert_eq!(back.latest_rollup_key, diff.latest_rollup_key);
    assert_eq!(back.new_extra, vec![5, 5]);
    assert_eq!(back.rollups.len(), 3);
    assert!(matches!(back.rollups[0].val, StateFieldValDiff::Insert(_)));
    assert!(matches!(back.rollups[1].val, StateFieldValDiff::Update(_, _)));
    assert!(matches!(back.rollups[2].val, StateFieldValDiff::Delete(_)));
    assert!(StateDiff::decode(10, &buf).is_err());
}

#[test]
fn rollup_blob_keys_roundtrip() {
    let shard = ShardId(77);
    let partial = PartialRollupKey::new(SeqNo(12), &RollupId(34, 56));
    let full = partial.complete(&shard);
    let (shard_back, parsed) = BlobKey::parse_ids(&full).unwrap();
    assert_eq!(shard_back, shard);
    match parsed {
        PartialBlobKey::Rollup(seqno, id) => {
            assert_eq!(seqno, SeqNo(12));
            assert_eq!(id, RollupId(34, 56));
        }
        PartialBlobKey::Batch(_) => panic!("rollup key classified as batch data"),
    }
}

#[test]
fn batch_blob_keys_classify_and_garbage_fails() {
    let shard = ShardId(3);
    // A batch partial key: the batch tag followed by raw bytes.
    let mut batch_partial = vec![98u8];
    batch_partial.extend_from_slice(b"part-01");
    let full = PartialRollupKey(batch_partial).complete(&shard);
    let (shard_back, parsed) = BlobKey::parse_ids(&full).unwrap();
    assert_eq!(shard_back, shard);
    assert!(matches!(parsed, PartialBlobKey::Batch(_)));

    // Unknown tags and truncated keys fail to parse.
    let junk = PartialRollupKey(vec![0u8, 1, 2]).complete(&shard);
    assert!(BlobKey::parse_ids(&junk).is_err());
    assert!(BlobKey::parse_ids(&BlobKey(vec![1, 2, 3])).is_err());
}

#[test]
fn apply_diff_advances_state_and_registry() {
    let mut state = sample_state();
    let k5 = PartialRollupKey::new(SeqNo(4), &RollupId(0, 1));
    let diff = StateDiff {
        seqno_from: SeqNo(3),
        seqno_to: SeqNo(4),
        latest_rollup_key: k5.copy(),
        rollups: vec![
            StateFieldDiff { key: SeqNo(4), val: StateFieldValDiff::Insert(k5.copy()) },
            StateFieldDiff {
                key: SeqNo(1),
                val: StateFieldValDiff::Delete(PartialRollupKey::new(SeqNo(1), &RollupId(7, 8))),
            },
        ],
        new_extra: vec![9],
    };
    state.apply_diff(&diff);
    assert_eq!(state.seqno, SeqNo(4));
    assert_eq!(state.extra, vec![9]);
    assert_eq!(state.rollups.len(), 2);
    assert_eq!(state.rollups[0].0, SeqNo(3));
    assert_eq!(state.rollups[1].0, SeqNo(4));
    assert_eq!(state.rollups[1].1, k5);
    assert!(state.rollup_at(SeqNo(1)).is_none());
    let (latest_seqno, latest_key) = state.latest_rollup();
    assert_eq!(latest_seqno, SeqNo(4));
    assert_eq!(latest_key, k5);
}
