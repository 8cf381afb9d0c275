//! Identifiers and the blob key scheme.
//!
//! A rollup blob is stored under a key derived from the shard, the SeqNo of
//! the state it snapshots, and a caller-unique rollup id. Only the partial
//! key (everything but the shard) is recorded inside states and diffs; the
//! shard prefix is added back when the blob store is addressed. The parser
//! classifies keys (rollups versus batch data) and round-trips exactly.

use vstd::prelude::*;
use crate::codec::{enc_u64, get_u64, parse_u64, put_u64, lemma_parse_enc_u64};
use crate::seqno::SeqNo;

verus! {

/// An opaque identifier of one shard: the unit of isolation.
#[derive(Clone, Copy, Debug, PartialEq, Eq, Hash, Structural)]
pub struct ShardId(pub u64);

impl ShardId {
    /// The path under which this shard's diffs live in Consensus.
    pub fn to_path(&self) -> (r: Vec<u8>)
        ensures
            r@ == enc_u64(self.0),
    {
        let mut buf: Vec<u8> = Vec::new();
        put_u64(&mut buf, self.0);
        proof {
            assert(buf@ =~= enc_u64(self.0));
        }
        buf
    }
}

/// A unique identifier of one rollup write. Two writers staging rollups for
/// the same SeqNo hold distinct RollupIds, so their staged blobs never
/// collide.
#[derive(Clone, Copy, Debug, PartialEq, Eq, Hash, Structural)]
pub struct RollupId(pub u64, pub u64);

/// The first byte of a partial blob key that names a rollup.
pub const ROLLUP_KEY_TAG: u8 = 114;

/// The first byte of a partial blob key that names batch data.
pub const BATCH_KEY_TAG: u8 = 98;

/// The wire form of a rollup's partial key.
pub open spec fn rollup_key_bytes(seqno: u64, id: RollupId) -> Seq<u8> {
    seq![ROLLUP_KEY_TAG] + enc_u64(seqno) + enc_u64(id.0) + enc_u64(id.1)
}

/// The wire form of a fully qualified blob key: the shard, then the partial
/// key.
pub open spec fn blob_key_bytes(shard: u64, partial: Seq<u8>) -> Seq<u8> {
    enc_u64(shard) + partial
}

/// A key naming a rollup blob, relative to a shard.
#[derive(Clone, Debug, PartialEq, Eq, Hash)]
pub struct PartialRollupKey(pub Vec<u8>);

impl View for PartialRollupKey {
    type V = Seq<u8>;

    open spec fn view(&self) -> Seq<u8> {
        self.0@
    }
}

impl PartialRollupKey {
    /// The partial key of a rollup of the state at `seqno`, written under
    /// `id`.
    pub fn new(seqno: SeqNo, id: &RollupId) -> (r: PartialRollupKey)
        ensures
            r@ == rollup_key_bytes(seqno.0, *id),
    {
        let mut buf: Vec<u8> = Vec::new();
        buf.push(ROLLUP_KEY_TAG);
        put_u64(&mut buf, seqno.0);
        put_u64(&mut buf, id.0);
        put_u64(&mut buf, id.1);
        proof {
            assert(buf@ =~= rollup_key_bytes(seqno.0, *id));
        }
        PartialRollupKey(buf)
    }

    /// Duplicates the key.
    pub fn copy(&self) -> (r: PartialRollupKey)
        ensures
            r@ == self@,
    {
        PartialRollupKey(self.0.clone())
    }

    /// Qualifies this partial key with its shard, yielding the key under
    /// which the blob store is addressed.
    pub fn complete(&self, shard_id: &ShardId) -> (r: BlobKey)
        ensures
            r@ == blob_key_bytes(shard_id.0, self@),
    {
        let mut buf: Vec<u8> = Vec::new();
        put_u64(&mut buf, shard_id.0);
        let mut tail = self.0.clone();
        buf.append(&mut tail);
        proof {
            assert(buf@ =~= blob_key_bytes(shard_id.0, self@));
        }
        BlobKey(buf)
    }
}

/// A fully qualified blob store key.
#[derive(Clone, Debug, PartialEq, Eq, Hash)]
pub struct BlobKey(pub Vec<u8>);

impl View for BlobKey {
    type V = Seq<u8>;

    open spec fn view(&self) -> Seq<u8> {
        self.0@
    }
}

/// A classified partial blob key: either a rollup (with the ids it embeds) or
/// batch data (kept raw; this log never writes batches, but it must not
/// misread their keys).
#[derive(Clone, Debug, PartialEq, Eq)]
pub enum PartialBlobKey {
    Rollup(SeqNo, RollupId),
    Batch(Vec<u8>),
}

/// What a well-formed partial blob key parses to.
pub open spec fn parse_partial_key(s: Seq<u8>) -> Option<PartialBlobKeyView> {
    if s.len() == 0 {
        None
    } else if s[0] == ROLLUP_KEY_TAG {
        match parse_u64(s.skip(1)) {
            None => None,
            Some((seqno, r1)) => match parse_u64(r1) {
                None => None,
                Some((id0, r2)) => match parse_u64(r2) {
                    None => None,
                    Some((id1, r3)) => {
                        if r3.len() == 0 {
                            Some(PartialBlobKeyView::Rollup(seqno, id0, id1))
                        } else {
                            None
                        }
                    },
                },
            },
        }
    } else if s[0] == BATCH_KEY_TAG {
        Some(PartialBlobKeyView::Batch(s.skip(1)))
    } else {
        None
    }
}

/// The spec-level mirror of [`PartialBlobKey`].
pub enum PartialBlobKeyView {
    Rollup(u64, u64, u64),
    Batch(Seq<u8>),
}

impl View for PartialBlobKey {
    type V = PartialBlobKeyView;

    open spec fn view(&self) -> PartialBlobKeyView {
        match self {
            PartialBlobKey::Rollup(seqno, id) => {
                PartialBlobKeyView::Rollup(seqno.0, id.0, id.1)
            },
            PartialBlobKey::Batch(raw) => PartialBlobKeyView::Batch(raw@),
        }
    }
}

/// What a well-formed fully qualified blob key parses to.
pub open spec fn parse_blob_key(s: Seq<u8>) -> Option<(u64, PartialBlobKeyView)> {
    match parse_u64(s) {
        None => None,
        Some((shard, rest)) => match parse_partial_key(rest) {
            None => None,
            Some(partial) => Some((shard, partial)),
        },
    }
}

impl BlobKey {
    /// Splits a fully qualified key into the shard and the classified partial
    /// key. Fails exactly on byte strings this library never writes.
    pub fn parse_ids(key: &BlobKey) -> (r: Result<(ShardId, PartialBlobKey), ()>)
        ensures
            match r {
                Ok((shard, partial)) => parse_blob_key(key@) == Some((shard.0, partial@)),
                Err(()) => parse_blob_key(key@) is None,
            },
    {
        let buf = &key.0;
        let (shard, p) = match get_u64(buf, 0) {
            Some(x) => x,
            None => {
                proof {
                    assert(buf@.skip(0) =~= buf@);
                }
                return Err(());
            },
        };
        proof {
            assert(buf@.skip(0) =~= buf@);
        }
        if p == buf.len() {
            return Err(());
        }
        let tag = *buf.get(p).unwrap();
        proof {
            assert(buf@.skip(p as int)[0] == buf@[p as int]);
        }
        if tag == ROLLUP_KEY_TAG {
            proof {
                assert(buf@.skip(p as int).skip(1) =~= buf@.skip(p as int + 1));
            }
            let (seqno, p1) = match get_u64(buf, p + 1) {
                Some(x) => x,
                None => {
                    return Err(());
                },
            };
            let (id0, p2) = match get_u64(buf, p1) {
                Some(x) => x,
                None => {
                    return Err(());
                },
            };
            let (id1, p3) = match get_u64(buf, p2) {
                Some(x) => x,
                None => {
                    return Err(());
                },
            };
            if p3 != buf.len() {
                return Err(());
            }
            Ok((ShardId(shard), PartialBlobKey::Rollup(SeqNo(seqno), RollupId(id0, id1))))
        } else if tag == BATCH_KEY_TAG {
            let mut raw: Vec<u8> = Vec::new();
            let blen = buf.len();
            let mut i: usize = p + 1;
            while i < blen
                invariant
                    p + 1 <= i <= blen == buf@.len(),
                    raw@ == buf@.skip(p as int + 1).take(i - p - 1),
                decreases blen - i,
            {
                raw.push(*buf.get(i).unwrap());
                proof {
                    assert(raw@ =~= buf@.skip(p as int + 1).take(i + 1 - p - 1));
                }
                i = i + 1;
            }
            proof {
                assert(raw@ =~= buf@.skip(p as int).skip(1));
            }
            Ok((ShardId(shard), PartialBlobKey::Batch(raw)))
        } else {
            Err(())
        }
    }
}

/// Round-trip: a partial rollup key built from ids parses back to those ids.
pub proof fn lemma_parse_partial_rollup_key(seqno: u64, id: RollupId)
    ensures
        parse_partial_key(rollup_key_bytes(seqno, id)) == Some(
            PartialBlobKeyView::Rollup(seqno, id.0, id.1),
        ),
{
    let partial = rollup_key_bytes(seqno, id);
    assert(partial[0] == ROLLUP_KEY_TAG);
    let tail0 = enc_u64(seqno) + enc_u64(id.0) + enc_u64(id.1);
    assert(partial.skip(1) =~= tail0);
    lemma_parse_enc_u64(seqno, enc_u64(id.0) + enc_u64(id.1));
    assert(tail0 =~= enc_u64(seqno) + (enc_u64(id.0) + enc_u64(id.1)));
    lemma_parse_enc_u64(id.0, enc_u64(id.1));
    lemma_parse_enc_u64(id.1, Seq::<u8>::empty());
    assert(enc_u64(id.1) =~= enc_u64(id.1) + Seq::<u8>::empty());
}

/// Round-trip: a rollup key built from ids parses back to those ids.
pub proof fn lemma_rollup_key_roundtrip(shard: u64, seqno: u64, id: RollupId)
    ensures
        parse_blob_key(blob_key_bytes(shard, rollup_key_bytes(seqno, id)))
            == Some((shard, PartialBlobKeyView::Rollup(seqno, id.0, id.1))),
{
    let partial = rollup_key_bytes(seqno, id);
    lemma_parse_enc_u64(shard, partial);
    lemma_parse_partial_rollup_key(seqno, id);
}

} // verus!
