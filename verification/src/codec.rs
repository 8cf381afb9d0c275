//! Binary encoding primitives shared by the state and diff codecs and by the
//! blob key scheme: little-endian `u64`s and length-delimited byte strings.
//!
//! Every `parse_*` spec function is the single definition of what its
//! wire form means; the exec encoders and decoders are verified against the
//! same definitions, which is what makes the round-trip lemmas possible.

use vstd::prelude::*;
use vstd::bytes::{
    lemma_auto_spec_u64_to_from_le_bytes, spec_u64_from_le_bytes, spec_u64_to_le_bytes,
    u64_from_le_bytes, u64_to_le_bytes,
};
use crate::diff::{DeltaView, StateDiff, StateDiffView, StateFieldDiff, StateFieldValDiff, ValDiffView};
use crate::error::CodecMismatch;
use crate::paths::PartialRollupKey;
use crate::seqno::SeqNo;
use crate::state::{reg_of, reg_sorted, State, StateView};
use crate::paths::ShardId;

verus! {

/// The wire form of a `u64`: eight little-endian bytes.
pub open spec fn enc_u64(x: u64) -> Seq<u8> {
    spec_u64_to_le_bytes(x)
}

/// Reads one `u64` off the front of `s`, returning it and the remainder.
pub open spec fn parse_u64(s: Seq<u8>) -> Option<(u64, Seq<u8>)> {
    if s.len() >= 8 {
        Some((spec_u64_from_le_bytes(s.take(8)), s.skip(8)))
    } else {
        None
    }
}

/// The wire form of a byte string: a `u64` length followed by the bytes.
pub open spec fn enc_bytes(b: Seq<u8>) -> Seq<u8>
    recommends
        b.len() <= u64::MAX,
{
    enc_u64(b.len() as u64) + b
}

/// Reads one length-delimited byte string off the front of `s`.
pub open spec fn parse_bytes(s: Seq<u8>) -> Option<(Seq<u8>, Seq<u8>)> {
    match parse_u64(s) {
        None => None,
        Some((n, r)) => {
            if r.len() >= n {
                Some((r.take(n as int), r.skip(n as int)))
            } else {
                None
            }
        },
    }
}

/// A `u64` followed by anything parses back to itself.
pub proof fn lemma_parse_enc_u64(x: u64, rest: Seq<u8>)
    ensures
        parse_u64(enc_u64(x) + rest) == Some((x, rest)),
{
    lemma_auto_spec_u64_to_from_le_bytes();
    assert((enc_u64(x) + rest).take(8) =~= enc_u64(x));
    assert((enc_u64(x) + rest).skip(8) =~= rest);
}

/// A length-delimited byte string followed by anything parses back to itself.
pub proof fn lemma_parse_enc_bytes(b: Seq<u8>, rest: Seq<u8>)
    requires
        b.len() <= u64::MAX,
    ensures
        parse_bytes(enc_bytes(b) + rest) == Some((b, rest)),
{
    lemma_parse_enc_u64(b.len() as u64, b + rest);
    assert(enc_bytes(b) + rest =~= enc_u64(b.len() as u64) + (b + rest));
    assert((b + rest).take(b.len() as int) =~= b);
    assert((b + rest).skip(b.len() as int) =~= rest);
}

/// Appends the wire form of `x` to `buf`.
pub fn put_u64(buf: &mut Vec<u8>, x: u64)
    ensures
        final(buf)@ == old(buf)@ + enc_u64(x),
{
    let mut le = u64_to_le_bytes(x);
    buf.append(&mut le);
}

/// Appends the wire form of the byte string `b` to `buf`.
pub fn put_bytes(buf: &mut Vec<u8>, b: &Vec<u8>)
    ensures
        final(buf)@ == old(buf)@ + enc_bytes(b@),
{
    proof {
        lemma_auto_spec_u64_to_from_le_bytes();
    }
    put_u64(buf, b.len() as u64);
    let mut i: usize = 0;
    while i < b.len()
        invariant
            i <= b.len(),
            buf@ == old(buf)@ + enc_u64(b@.len() as u64) + b@.take(i as int),
        decreases b.len() - i,
    {
        buf.push(b[i]);
        proof {
            assert(buf@ =~= old(buf)@ + enc_u64(b@.len() as u64) + b@.take(i + 1));
        }
        i = i + 1;
    }
    proof {
        assert(b@.take(b@.len() as int) =~= b@);
        assert(buf@ =~= old(buf)@ + enc_bytes(b@));
    }
}

/// Byte-string equality.
pub fn bytes_eq(a: &Vec<u8>, b: &Vec<u8>) -> (r: bool)
    ensures
        r == (a@ == b@),
{
    if a.len() != b.len() {
        return false;
    }
    let mut i: usize = 0;
    while i < a.len()
        invariant
            i <= a.len() == b.len(),
            forall|j: int| 0 <= j < i ==> a@[j] == b@[j],
        decreases a.len() - i,
    {
        if *a.get(i).unwrap() != *b.get(i).unwrap() {
            return false;
        }
        i = i + 1;
    }
    proof {
        assert(a@ =~= b@);
    }
    true
}

/// Reads the `u64` at position `pos` of `buf`, mirroring [`parse_u64`] on the
/// suffix of `buf` that starts at `pos`.
pub fn get_u64(buf: &Vec<u8>, pos: usize) -> (r: Option<(u64, usize)>)
    requires
        pos <= buf@.len(),
    ensures
        match r {
            Some((x, p2)) => {
                &&& parse_u64(buf@.skip(pos as int)) == Some((x, buf@.skip(p2 as int)))
                &&& pos <= p2 <= buf@.len()
            },
            None => parse_u64(buf@.skip(pos as int)) is None,
        },
{
    if buf.len() - pos < 8 {
        return None;
    }
    let blen = buf.len();
    let mut le: Vec<u8> = Vec::new();
    let mut i: usize = 0;
    while i < 8
        invariant
            i <= 8,
            pos + 8 <= blen == buf@.len(),
            le@ == buf@.skip(pos as int).take(8).take(i as int),
        decreases 8 - i,
    {
        le.push(*buf.get(pos + i).unwrap());
        proof {
            assert(le@ =~= buf@.skip(pos as int).take(8).take(i + 1));
        }
        i = i + 1;
    }
    proof {
        assert(le@ =~= buf@.skip(pos as int).take(8));
    }
    let x = u64_from_le_bytes(le.as_slice());
    proof {
        assert(buf@.skip(pos as int).skip(8) =~= buf@.skip(pos as int + 8));
    }
    Some((x, pos + 8))
}

/// Reads the byte string at position `pos` of `buf`, mirroring
/// [`parse_bytes`] on the suffix of `buf` that starts at `pos`.
pub fn get_bytes(buf: &Vec<u8>, pos: usize) -> (r: Option<(Vec<u8>, usize)>)
    requires
        pos <= buf@.len(),
    ensures
        match r {
            Some((b, p2)) => {
                &&& parse_bytes(buf@.skip(pos as int)) == Some((b@, buf@.skip(p2 as int)))
                &&& pos <= p2 <= buf@.len()
            },
            None => parse_bytes(buf@.skip(pos as int)) is None,
        },
{
    let (n, p) = match get_u64(buf, pos) {
        Some(x) => x,
        None => {
            return None;
        },
    };
    if n > (buf.len() - p) as u64 {
        return None;
    }
    let n = n as usize;
    let blen = buf.len();
    let mut b: Vec<u8> = Vec::new();
    let mut i: usize = 0;
    while i < n
        invariant
            i <= n,
            p + n <= blen == buf@.len(),
            b@ == buf@.skip(p as int).take(n as int).take(i as int),
        decreases n - i,
    {
        b.push(*buf.get(p + i).unwrap());
        proof {
            assert(b@ =~= buf@.skip(p as int).take(n as int).take(i + 1));
        }
        i = i + 1;
    }
    proof {
        assert(b@ =~= buf@.skip(p as int).take(n as int));
        assert(buf@.skip(p as int).skip(n as int) =~= buf@.skip(p as int + n));
    }
    Some((b, p + n))
}

// ---------------------------------------------------------------------------
// The state codec.
// ---------------------------------------------------------------------------

/// The wire form of one registry entry.
pub open spec fn enc_reg_entry(e: (u64, Seq<u8>)) -> Seq<u8> {
    enc_u64(e.0) + enc_bytes(e.1)
}

/// The wire form of a registry: its entries in order.
pub open spec fn enc_reg(s: Seq<(u64, Seq<u8>)>) -> Seq<u8>
    decreases s.len(),
{
    if s.len() == 0 {
        Seq::<u8>::empty()
    } else {
        enc_reg_entry(s[0]) + enc_reg(s.skip(1))
    }
}

/// Reads `n` registry entries off the front of `s`.
pub open spec fn parse_reg(s: Seq<u8>, n: nat) -> Option<(Seq<(u64, Seq<u8>)>, Seq<u8>)>
    decreases n,
{
    if n == 0 {
        Some((Seq::<(u64, Seq<u8>)>::empty(), s))
    } else {
        match parse_u64(s) {
            None => None,
            Some((k, r1)) => match parse_bytes(r1) {
                None => None,
                Some((v, r2)) => match parse_reg(r2, (n - 1) as nat) {
                    None => None,
                    Some((es, r3)) => Some((seq![(k, v)] + es, r3)),
                },
            },
        }
    }
}

/// The bounds under which a state fits the wire format (every length fits in
/// a `u64`); always true of states held in vectors.
pub open spec fn state_encodable(s: StateView) -> bool {
    &&& s.hostname.len() <= u64::MAX
    &&& s.extra.len() <= u64::MAX
    &&& s.rollups.len() <= u64::MAX
    &&& forall|i: int| 0 <= i < s.rollups.len() ==> #[trigger] s.rollups[i].1.len() <= u64::MAX
}

/// The wire form of a whole state, stamped with the writer's build version.
pub open spec fn enc_state(version: u64, s: StateView) -> Seq<u8>
    recommends
        state_encodable(s),
{
    enc_u64(version) + enc_u64(s.seqno) + enc_u64(s.shard_id) + enc_bytes(s.hostname) + enc_u64(
        s.walltime_ms,
    ) + enc_bytes(s.extra) + enc_u64(s.rollups.len() as u64) + enc_reg(s.rollups)
}

/// What a byte string means as a state: the embedded build version and the
/// state, or nothing. Only canonical encodings of well-formed states parse.
pub open spec fn parse_state(s: Seq<u8>) -> Option<(u64, StateView)> {
    match parse_u64(s) {
        None => None,
        Some((version, r1)) => match parse_u64(r1) {
            None => None,
            Some((seqno, r2)) => match parse_u64(r2) {
                None => None,
                Some((shard_id, r3)) => match parse_bytes(r3) {
                    None => None,
                    Some((hostname, r4)) => match parse_u64(r4) {
                        None => None,
                        Some((walltime_ms, r5)) => match parse_bytes(r5) {
                            None => None,
                            Some((extra, r6)) => match parse_u64(r6) {
                                None => None,
                                Some((n, r7)) => match parse_reg(r7, n as nat) {
                                    None => None,
                                    Some((rollups, r8)) => {
                                        let sv = StateView {
                                            seqno,
                                            shard_id,
                                            hostname,
                                            walltime_ms,
                                            extra,
                                            rollups,
                                        };
                                        if r8.len() == 0 && sv.wf() {
                                            Some((version, sv))
                                        } else {
                                            None
                                        }
                                    },
                                },
                            },
                        },
                    },
                },
            },
        },
    }
}

/// Any state held in vectors fits the wire format.
pub proof fn lemma_state_encodable(s: &State)
    ensures
        state_encodable(s@),
{
    vstd::std_specs::vec::axiom_spec_len(&s.hostname);
    vstd::std_specs::vec::axiom_spec_len(&s.extra);
    vstd::std_specs::vec::axiom_spec_len(&s.rollups);
    assert forall|i: int| 0 <= i < s@.rollups.len() implies #[trigger] s@.rollups[i].1.len()
        <= u64::MAX by {
        vstd::std_specs::vec::axiom_spec_len(&s.rollups@[i].1.0);
        assert(s@.rollups[i].1 == s.rollups@[i].1.0@);
    }
}

/// Any diff held in vectors fits the wire format.
pub proof fn lemma_diff_encodable(d: &StateDiff)
    ensures
        diff_encodable(d@),
{
    vstd::std_specs::vec::axiom_spec_len(&d.latest_rollup_key.0);
    vstd::std_specs::vec::axiom_spec_len(&d.new_extra);
    vstd::std_specs::vec::axiom_spec_len(&d.rollups);
    assert forall|i: int|
        0 <= i < d@.rollups.len() implies match (#[trigger] d@.rollups[i]).val {
        ValDiffView::Insert(v) => v.len() <= u64::MAX,
        ValDiffView::Update(o, v) => o.len() <= u64::MAX && v.len() <= u64::MAX,
        ValDiffView::Delete(v) => v.len() <= u64::MAX,
    } by {
        match d.rollups@[i].val {
            StateFieldValDiff::Insert(k) => {
                vstd::std_specs::vec::axiom_spec_len(&k.0);
            },
            StateFieldValDiff::Update(o, k) => {
                vstd::std_specs::vec::axiom_spec_len(&o.0);
                vstd::std_specs::vec::axiom_spec_len(&k.0);
            },
            StateFieldValDiff::Delete(k) => {
                vstd::std_specs::vec::axiom_spec_len(&k.0);
            },
        }
    }
}

/// Encoding distributes over appending one registry entry.
pub proof fn lemma_enc_reg_snoc(s: Seq<(u64, Seq<u8>)>, e: (u64, Seq<u8>))
    ensures
        enc_reg(s.push(e)) == enc_reg(s) + enc_reg_entry(e),
    decreases s.len(),
{
    if s.len() == 0 {
        assert(s.push(e).skip(1) =~= Seq::<(u64, Seq<u8>)>::empty());
        assert(s.push(e)[0] == e);
        assert(enc_reg(s.push(e).skip(1)) == Seq::<u8>::empty());
        assert(enc_reg(s) == Seq::<u8>::empty());
        assert(enc_reg(s.push(e)) == enc_reg_entry(e) + Seq::<u8>::empty());
        assert(enc_reg_entry(e) + Seq::<u8>::empty() =~= Seq::<u8>::empty() + enc_reg_entry(e));
    } else {
        assert(s.push(e).skip(1) =~= s.skip(1).push(e));
        assert(s.push(e)[0] == s[0]);
        lemma_enc_reg_snoc(s.skip(1), e);
        assert(enc_reg_entry(s[0]) + (enc_reg(s.skip(1)) + enc_reg_entry(e)) =~= (enc_reg_entry(
            s[0],
        ) + enc_reg(s.skip(1))) + enc_reg_entry(e));
    }
}

/// An encoded registry followed by anything parses back to itself.
pub proof fn lemma_parse_enc_reg(s: Seq<(u64, Seq<u8>)>, rest: Seq<u8>)
    requires
        forall|i: int| 0 <= i < s.len() ==> #[trigger] s[i].1.len() <= u64::MAX,
    ensures
        parse_reg(enc_reg(s) + rest, s.len() as nat) == Some((s, rest)),
    decreases s.len(),
{
    if s.len() == 0 {
        assert(enc_reg(s) + rest =~= rest);
    } else {
        let tail = enc_reg(s.skip(1)) + rest;
        lemma_parse_enc_u64(s[0].0, enc_bytes(s[0].1) + tail);
        assert(enc_reg(s) + rest =~= enc_u64(s[0].0) + (enc_bytes(s[0].1) + tail));
        lemma_parse_enc_bytes(s[0].1, tail);
        lemma_parse_enc_reg(s.skip(1), rest);
        assert(seq![s[0]] + s.skip(1) =~= s);
    }
}

/// Round-trip of the state codec: a well-formed state, encoded, parses back
/// to exactly the same state and build version — in particular the SeqNo, the
/// shard, and the rollup registry are preserved.
pub proof fn lemma_state_roundtrip(version: u64, s: StateView)
    requires
        s.wf(),
        state_encodable(s),
    ensures
        parse_state(enc_state(version, s)) == Some((version, s)),
{
    let b8 = enc_reg(s.rollups);
    let b7 = enc_u64(s.rollups.len() as u64) + b8;
    let b6 = enc_bytes(s.extra) + b7;
    let b5 = enc_u64(s.walltime_ms) + b6;
    let b4 = enc_bytes(s.hostname) + b5;
    let b3 = enc_u64(s.shard_id) + b4;
    let b2 = enc_u64(s.seqno) + b3;
    let b1 = enc_u64(version) + b2;
    assert(enc_state(version, s) =~= b1);
    lemma_parse_enc_u64(version, b2);
    lemma_parse_enc_u64(s.seqno, b3);
    lemma_parse_enc_u64(s.shard_id, b4);
    lemma_parse_enc_bytes(s.hostname, b5);
    lemma_parse_enc_u64(s.walltime_ms, b6);
    lemma_parse_enc_bytes(s.extra, b7);
    lemma_parse_enc_u64(s.rollups.len() as u64, b8);
    assert(b8 =~= enc_reg(s.rollups) + Seq::<u8>::empty());
    lemma_parse_enc_reg(s.rollups, Seq::<u8>::empty());
}

impl State {
    /// Appends the wire form of this state, stamped with `build_version`, to
    /// `buf`.
    pub fn encode(&self, build_version: u64, buf: &mut Vec<u8>)
        ensures
            final(buf)@ == old(buf)@ + enc_state(build_version, self@),
    {
        put_u64(buf, build_version);
        put_u64(buf, self.seqno.0);
        put_u64(buf, self.shard_id.0);
        put_bytes(buf, &self.hostname);
        put_u64(buf, self.walltime_ms);
        put_bytes(buf, &self.extra);
        put_u64(buf, self.rollups.len() as u64);
        let ghost prefix = buf@;
        let n = self.rollups.len();
        let mut i: usize = 0;
        while i < n
            invariant
                i <= n == self.rollups@.len(),
                buf@ == prefix + enc_reg(self@.rollups.take(i as int)),
            decreases n - i,
        {
            let e = self.rollups.get(i).unwrap();
            put_u64(buf, e.0.0);
            put_bytes(buf, &e.1.0);
            proof {
                lemma_enc_reg_snoc(self@.rollups.take(i as int), self@.rollups[i as int]);
                assert(self@.rollups.take(i as int).push(self@.rollups[i as int]) =~= self@
                    .rollups
                    .take(i + 1));
                assert(buf@ =~= prefix + enc_reg(self@.rollups.take(i + 1)));
            }
            i = i + 1;
        }
        proof {
            assert(self@.rollups.take(n as int) =~= self@.rollups);
            assert(buf@ =~= old(buf)@ + enc_state(build_version, self@));
        }
    }

    /// Decodes a state from `buf`, validating the embedded build version
    /// against `build_version`. Returns the state exactly when `buf` is the
    /// canonical encoding of a well-formed state under that version, and a
    /// [`CodecMismatch`] otherwise.
    pub fn decode(build_version: u64, buf: &Vec<u8>) -> (r: Result<State, CodecMismatch>)
        ensures
            match r {
                Ok(state) => {
                    &&& parse_state(buf@) == Some((build_version, state@))
                    &&& state@.wf()
                },
                Err(_) => match parse_state(buf@) {
                    Some((v, _)) => v != build_version,
                    None => true,
                },
            },
    {
        proof {
            assert(buf@.skip(0) =~= buf@);
        }
        let mismatch = |actual: Option<u64>| -> CodecMismatch {
            CodecMismatch { expected_version: build_version, actual_version: actual }
        };
        let (version, p1) = match get_u64(buf, 0) {
            Some(x) => x,
            None => {
                return Err(CodecMismatch { expected_version: build_version, actual_version: None });
            },
        };
        let (seqno, p2) = match get_u64(buf, p1) {
            Some(x) => x,
            None => {
                return Err(
                    CodecMismatch {
                        expected_version: build_version,
                        actual_version: Some(version),
                    },
                );
            },
        };
        let (shard_id, p3) = match get_u64(buf, p2) {
            Some(x) => x,
            None => {
                return Err(
                    CodecMismatch {
                        expected_version: build_version,
                        actual_version: Some(version),
                    },
                );
            },
        };
        let (hostname, p4) = match get_bytes(buf, p3) {
            Some(x) => x,
            None => {
                return Err(
                    CodecMismatch {
                        expected_version: build_version,
                        actual_version: Some(version),
                    },
                );
            },
        };
        let (walltime_ms, p5) = match get_u64(buf, p4) {
            Some(x) => x,
            None => {
                return Err(
                    CodecMismatch {
                        expected_version: build_version,
                        actual_version: Some(version),
                    },
                );
            },
        };
        let (extra, p6) = match get_bytes(buf, p5) {
            Some(x) => x,
            None => {
                return Err(
                    CodecMismatch {
                        expected_version: build_version,
                        actual_version: Some(version),
                    },
                );
            },
        };
        let (n, p7) = match get_u64(buf, p6) {
            Some(x) => x,
            None => {
                return Err(
                    CodecMismatch {
                        expected_version: build_version,
                        actual_version: Some(version),
                    },
                );
            },
        };
        let (rollups, p8) = match get_reg(buf, p7, n) {
            Some(x) => x,
            None => {
                return Err(
                    CodecMismatch {
                        expected_version: build_version,
                        actual_version: Some(version),
                    },
                );
            },
        };
        if p8 != buf.len() {
            return Err(
                CodecMismatch { expected_version: build_version, actual_version: Some(version) },
            );
        }
        let state = State {
            seqno: SeqNo(seqno),
            shard_id: ShardId(shard_id),
            hostname,
            walltime_ms,
            extra,
            rollups,
        };
        if !state_wf_check(&state) {
            return Err(
                CodecMismatch { expected_version: build_version, actual_version: Some(version) },
            );
        }
        if version != build_version {
            return Err(
                CodecMismatch { expected_version: build_version, actual_version: Some(version) },
            );
        }
        proof {
            assert(buf@.skip(p8 as int).len() == 0);
        }
        Ok(state)
    }
}

/// Checks [`StateView::wf`] of a decoded state.
fn state_wf_check(state: &State) -> (r: bool)
    ensures
        r == state@.wf(),
{
    let n = state.rollups.len();
    let mut i: usize = 0;
    while i < n
        invariant
            i <= n == state@.rollups.len(),
            forall|a: int, b: int| 0 <= a < b < i ==> state@.rollups[a].0 < state@.rollups[b].0,
            forall|a: int| 0 <= a < i ==> #[trigger] state@.rollups[a].0 <= state@.seqno,
        decreases n - i,
    {
        let e = state.rollups.get(i).unwrap();
        if e.0.0 > state.seqno.0 {
            proof {
                assert(state@.rollups[i as int].0 > state@.seqno);
            }
            return false;
        }
        if i > 0 {
            let prev = state.rollups.get(i - 1).unwrap();
            if prev.0.0 >= e.0.0 {
                proof {
                    assert(!(state@.rollups[i - 1].0 < state@.rollups[i as int].0));
                    assert(!reg_sorted(state@.rollups));
                }
                return false;
            }
        }
        proof {
            assert forall|a: int, b: int| 0 <= a < b < i + 1 implies state@.rollups[a].0
                < state@.rollups[b].0 by {
                if b == i && a < i - 1 {
                    assert(state@.rollups[a].0 < state@.rollups[i - 1].0);
                }
            }
        }
        i = i + 1;
    }
    true
}

/// Reads `n` registry entries starting at `pos`, mirroring [`parse_reg`].
fn get_reg(buf: &Vec<u8>, pos: usize, n: u64) -> (r: Option<
    (Vec<(SeqNo, PartialRollupKey)>, usize),
>)
    requires
        pos <= buf@.len(),
    ensures
        match r {
            Some((es, p2)) => {
                &&& pos <= p2 <= buf@.len()
                &&& parse_reg(buf@.skip(pos as int), n as nat) == Some(
                    (reg_of(es@), buf@.skip(p2 as int)),
                )
            },
            None => parse_reg(buf@.skip(pos as int), n as nat) is None,
        },
    decreases n,
{
    if n == 0 {
        let es: Vec<(SeqNo, PartialRollupKey)> = Vec::new();
        proof {
            assert(reg_of(es@) =~= Seq::<(u64, Seq<u8>)>::empty());
        }
        return Some((es, pos));
    }
    let (k, p1) = match get_u64(buf, pos) {
        Some(x) => x,
        None => {
            return None;
        },
    };
    let (v, p2) = match get_bytes(buf, p1) {
        Some(x) => x,
        None => {
            return None;
        },
    };
    let (mut es, p3) = match get_reg(buf, p2, n - 1) {
        Some(x) => x,
        None => {
            return None;
        },
    };
    let ghost tail_view = reg_of(es@);
    es.insert(0, (SeqNo(k), PartialRollupKey(v)));
    proof {
        assert(reg_of(es@) =~= seq![(k, v@)] + tail_view);
    }
    Some((es, p3))
}

// ---------------------------------------------------------------------------
// The diff codec.
// ---------------------------------------------------------------------------

/// Wire tags of the three registry delta shapes.
pub const DELTA_TAG_INSERT: u64 = 0;

pub const DELTA_TAG_UPDATE: u64 = 1;

pub const DELTA_TAG_DELETE: u64 = 2;

/// The wire form of one registry delta.
pub open spec fn enc_delta(d: DeltaView) -> Seq<u8> {
    enc_u64(d.key) + match d.val {
        ValDiffView::Insert(v) => enc_u64(DELTA_TAG_INSERT) + enc_bytes(v),
        ValDiffView::Update(o, v) => enc_u64(DELTA_TAG_UPDATE) + enc_bytes(o) + enc_bytes(v),
        ValDiffView::Delete(v) => enc_u64(DELTA_TAG_DELETE) + enc_bytes(v),
    }
}

/// The wire form of a delta sequence: the deltas in order.
pub open spec fn enc_deltas(ds: Seq<DeltaView>) -> Seq<u8>
    decreases ds.len(),
{
    if ds.len() == 0 {
        Seq::<u8>::empty()
    } else {
        enc_delta(ds[0]) + enc_deltas(ds.skip(1))
    }
}

/// Reads one registry delta off the front of `s`.
pub open spec fn parse_delta(s: Seq<u8>) -> Option<(DeltaView, Seq<u8>)> {
    match parse_u64(s) {
        None => None,
        Some((k, r1)) => match parse_u64(r1) {
            None => None,
            Some((tag, r2)) => {
                if tag == DELTA_TAG_INSERT {
                    match parse_bytes(r2) {
                        None => None,
                        Some((v, r3)) => Some(
                            (DeltaView { key: k, val: ValDiffView::Insert(v) }, r3),
                        ),
                    }
                } else if tag == DELTA_TAG_UPDATE {
                    match parse_bytes(r2) {
                        None => None,
                        Some((o, r3)) => match parse_bytes(r3) {
                            None => None,
                            Some((v, r4)) => Some(
                                (DeltaView { key: k, val: ValDiffView::Update(o, v) }, r4),
                            ),
                        },
                    }
                } else if tag == DELTA_TAG_DELETE {
                    match parse_bytes(r2) {
                        None => None,
                        Some((v, r3)) => Some(
                            (DeltaView { key: k, val: ValDiffView::Delete(v) }, r3),
                        ),
                    }
                } else {
                    None
                }
            },
        },
    }
}

/// Reads `n` registry deltas off the front of `s`.
pub open spec fn parse_deltas(s: Seq<u8>, n: nat) -> Option<(Seq<DeltaView>, Seq<u8>)>
    decreases n,
{
    if n == 0 {
        Some((Seq::<DeltaView>::empty(), s))
    } else {
        match parse_delta(s) {
            None => None,
            Some((d, r1)) => match parse_deltas(r1, (n - 1) as nat) {
                None => None,
                Some((ds, r2)) => Some((seq![d] + ds, r2)),
            },
        }
    }
}

/// The bounds under which a diff fits the wire format.
pub open spec fn diff_encodable(d: StateDiffView) -> bool {
    &&& d.latest_rollup_key.len() <= u64::MAX
    &&& d.new_extra.len() <= u64::MAX
    &&& d.rollups.len() <= u64::MAX
    &&& forall|i: int|
        0 <= i < d.rollups.len() ==> match #[trigger] d.rollups[i].val {
            ValDiffView::Insert(v) => v.len() <= u64::MAX,
            ValDiffView::Update(o, v) => o.len() <= u64::MAX && v.len() <= u64::MAX,
            ValDiffView::Delete(v) => v.len() <= u64::MAX,
        }
}

/// The wire form of a whole diff, stamped with the writer's build version.
pub open spec fn enc_diff(version: u64, d: StateDiffView) -> Seq<u8>
    recommends
        diff_encodable(d),
{
    enc_u64(version) + enc_u64(d.seqno_from) + enc_u64(d.seqno_to) + enc_bytes(
        d.latest_rollup_key,
    ) + enc_bytes(d.new_extra) + enc_u64(d.rollups.len() as u64) + enc_deltas(d.rollups)
}

/// What a byte string means as a diff. Only canonical encodings of
/// well-formed diffs parse.
pub open spec fn parse_diff(s: Seq<u8>) -> Option<(u64, StateDiffView)> {
    match parse_u64(s) {
        None => None,
        Some((version, r1)) => match parse_u64(r1) {
            None => None,
            Some((seqno_from, r2)) => match parse_u64(r2) {
                None => None,
                Some((seqno_to, r3)) => match parse_bytes(r3) {
                    None => None,
                    Some((latest_rollup_key, r4)) => match parse_bytes(r4) {
                        None => None,
                        Some((new_extra, r5)) => match parse_u64(r5) {
                            None => None,
                            Some((n, r6)) => match parse_deltas(r6, n as nat) {
                                None => None,
                                Some((rollups, r7)) => {
                                    let dv = StateDiffView {
                                        seqno_from,
                                        seqno_to,
                                        latest_rollup_key,
                                        rollups,
                                        new_extra,
                                    };
                                    if r7.len() == 0 && dv.wf() {
                                        Some((version, dv))
                                    } else {
                                        None
                                    }
                                },
                            },
                        },
                    },
                },
            },
        },
    }
}

/// An encoded delta followed by anything parses back to itself.
pub proof fn lemma_parse_enc_delta(d: DeltaView, rest: Seq<u8>)
    requires
        match d.val {
            ValDiffView::Insert(v) => v.len() <= u64::MAX,
            ValDiffView::Update(o, v) => o.len() <= u64::MAX && v.len() <= u64::MAX,
            ValDiffView::Delete(v) => v.len() <= u64::MAX,
        },
    ensures
        parse_delta(enc_delta(d) + rest) == Some((d, rest)),
{
    match d.val {
        ValDiffView::Insert(v) => {
            let t1 = enc_u64(DELTA_TAG_INSERT) + enc_bytes(v);
            lemma_parse_enc_u64(d.key, t1 + rest);
            assert(enc_delta(d) + rest =~= enc_u64(d.key) + (t1 + rest));
            lemma_parse_enc_u64(DELTA_TAG_INSERT, enc_bytes(v) + rest);
            assert(t1 + rest =~= enc_u64(DELTA_TAG_INSERT) + (enc_bytes(v) + rest));
            lemma_parse_enc_bytes(v, rest);
        },
        ValDiffView::Update(o, v) => {
            let t1 = enc_u64(DELTA_TAG_UPDATE) + enc_bytes(o) + enc_bytes(v);
            lemma_parse_enc_u64(d.key, t1 + rest);
            assert(enc_delta(d) + rest =~= enc_u64(d.key) + (t1 + rest));
            lemma_parse_enc_u64(DELTA_TAG_UPDATE, enc_bytes(o) + (enc_bytes(v) + rest));
            assert(t1 + rest =~= enc_u64(DELTA_TAG_UPDATE) + (enc_bytes(o) + (enc_bytes(v)
                + rest)));
            lemma_parse_enc_bytes(o, enc_bytes(v) + rest);
            lemma_parse_enc_bytes(v, rest);
        },
        ValDiffView::Delete(v) => {
            let t1 = enc_u64(DELTA_TAG_DELETE) + enc_bytes(v);
            lemma_parse_enc_u64(d.key, t1 + rest);
            assert(enc_delta(d) + rest =~= enc_u64(d.key) + (t1 + rest));
            lemma_parse_enc_u64(DELTA_TAG_DELETE, enc_bytes(v) + rest);
            assert(t1 + rest =~= enc_u64(DELTA_TAG_DELETE) + (enc_bytes(v) + rest));
            lemma_parse_enc_bytes(v, rest);
        },
    }
}

/// Encoding distributes over appending one delta.
pub proof fn lemma_enc_deltas_snoc(ds: Seq<DeltaView>, d: DeltaView)
    ensures
        enc_deltas(ds.push(d)) == enc_deltas(ds) + enc_delta(d),
    decreases ds.len(),
{
    if ds.len() == 0 {
        assert(ds.push(d).skip(1) =~= Seq::<DeltaView>::empty());
        assert(ds.push(d)[0] == d);
        assert(enc_deltas(ds.push(d).skip(1)) == Seq::<u8>::empty());
        assert(enc_deltas(ds) == Seq::<u8>::empty());
        assert(enc_deltas(ds.push(d)) == enc_delta(d) + Seq::<u8>::empty());
        assert(enc_delta(d) + Seq::<u8>::empty() =~= Seq::<u8>::empty() + enc_delta(d));
    } else {
        assert(ds.push(d).skip(1) =~= ds.skip(1).push(d));
        assert(ds.push(d)[0] == ds[0]);
        lemma_enc_deltas_snoc(ds.skip(1), d);
        assert(enc_delta(ds[0]) + (enc_deltas(ds.skip(1)) + enc_delta(d)) =~= (enc_delta(ds[0])
            + enc_deltas(ds.skip(1))) + enc_delta(d));
    }
}

/// An encoded delta sequence followed by anything parses back to itself.
pub proof fn lemma_parse_enc_deltas(ds: Seq<DeltaView>, rest: Seq<u8>)
    requires
        forall|i: int|
            0 <= i < ds.len() ==> match (#[trigger] ds[i]).val {
                ValDiffView::Insert(v) => v.len() <= u64::MAX,
                ValDiffView::Update(o, v) => o.len() <= u64::MAX && v.len() <= u64::MAX,
                ValDiffView::Delete(v) => v.len() <= u64::MAX,
            },
    ensures
        parse_deltas(enc_deltas(ds) + rest, ds.len() as nat) == Some((ds, rest)),
    decreases ds.len(),
{
    if ds.len() == 0 {
        assert(enc_deltas(ds) + rest =~= rest);
    } else {
        let tail = enc_deltas(ds.skip(1)) + rest;
        lemma_parse_enc_delta(ds[0], tail);
        assert(enc_deltas(ds) + rest =~= enc_delta(ds[0]) + tail);
        lemma_parse_enc_deltas(ds.skip(1), rest);
        assert(seq![ds[0]] + ds.skip(1) =~= ds);
    }
}

/// Round-trip of the diff codec: a well-formed diff, encoded, parses back to
/// exactly the same diff and build version.
pub proof fn lemma_diff_roundtrip(version: u64, d: StateDiffView)
    requires
        d.wf(),
        diff_encodable(d),
    ensures
        parse_diff(enc_diff(version, d)) == Some((version, d)),
{
    let b7 = enc_deltas(d.rollups);
    let b6 = enc_u64(d.rollups.len() as u64) + b7;
    let b5 = enc_bytes(d.new_extra) + b6;
    let b4 = enc_bytes(d.latest_rollup_key) + b5;
    let b3 = enc_u64(d.seqno_to) + b4;
    let b2 = enc_u64(d.seqno_from) + b3;
    assert(enc_diff(version, d) =~= enc_u64(version) + b2);
    lemma_parse_enc_u64(version, b2);
    lemma_parse_enc_u64(d.seqno_from, b3);
    lemma_parse_enc_u64(d.seqno_to, b4);
    lemma_parse_enc_bytes(d.latest_rollup_key, b5);
    lemma_parse_enc_bytes(d.new_extra, b6);
    lemma_parse_enc_u64(d.rollups.len() as u64, b7);
    assert(b7 =~= enc_deltas(d.rollups) + Seq::<u8>::empty());
    lemma_parse_enc_deltas(d.rollups, Seq::<u8>::empty());
}

impl StateDiff {
    /// Appends the wire form of this diff, stamped with `build_version`, to
    /// `buf`.
    pub fn encode(&self, build_version: u64, buf: &mut Vec<u8>)
        ensures
            final(buf)@ == old(buf)@ + enc_diff(build_version, self@),
    {
        put_u64(buf, build_version);
        put_u64(buf, self.seqno_from.0);
        put_u64(buf, self.seqno_to.0);
        put_bytes(buf, &self.latest_rollup_key.0);
        put_bytes(buf, &self.new_extra);
        put_u64(buf, self.rollups.len() as u64);
        let ghost prefix = buf@;
        let n = self.rollups.len();
        let mut i: usize = 0;
        while i < n
            invariant
                i <= n == self.rollups@.len(),
                buf@ == prefix + enc_deltas(self@.rollups.take(i as int)),
            decreases n - i,
        {
            let d = self.rollups.get(i).unwrap();
            put_u64(buf, d.key.0);
            match &d.val {
                StateFieldValDiff::Insert(v) => {
                    put_u64(buf, DELTA_TAG_INSERT);
                    put_bytes(buf, &v.0);
                },
                StateFieldValDiff::Update(o, v) => {
                    put_u64(buf, DELTA_TAG_UPDATE);
                    put_bytes(buf, &o.0);
                    put_bytes(buf, &v.0);
                },
                StateFieldValDiff::Delete(v) => {
                    put_u64(buf, DELTA_TAG_DELETE);
                    put_bytes(buf, &v.0);
                },
            }
            proof {
                lemma_enc_deltas_snoc(self@.rollups.take(i as int), self@.rollups[i as int]);
                assert(self@.rollups.take(i as int).push(self@.rollups[i as int]) =~= self@
                    .rollups
                    .take(i + 1));
                assert(buf@ =~= prefix + enc_deltas(self@.rollups.take(i + 1)));
            }
            i = i + 1;
        }
        proof {
            assert(self@.rollups.take(n as int) =~= self@.rollups);
            assert(buf@ =~= old(buf)@ + enc_diff(build_version, self@));
        }
    }

    /// Decodes a diff from `buf`, validating the embedded build version
    /// against `build_version`.
    pub fn decode(build_version: u64, buf: &Vec<u8>) -> (r: Result<StateDiff, CodecMismatch>)
        ensures
            match r {
                Ok(d) => {
                    &&& parse_diff(buf@) == Some((build_version, d@))
                    &&& d@.wf()
                },
                Err(_) => match parse_diff(buf@) {
                    Some((v, _)) => v != build_version,
                    None => true,
                },
            },
    {
        proof {
            assert(buf@.skip(0) =~= buf@);
        }
        let (version, p1) = match get_u64(buf, 0) {
            Some(x) => x,
            None => {
                return Err(CodecMismatch { expected_version: build_version, actual_version: None });
            },
        };
        let err = CodecMismatch { expected_version: build_version, actual_version: Some(version) };
        let (seqno_from, p2) = match get_u64(buf, p1) {
            Some(x) => x,
            None => {
                return Err(err);
            },
        };
        let (seqno_to, p3) = match get_u64(buf, p2) {
            Some(x) => x,
            None => {
                return Err(err);
            },
        };
        let (latest_rollup_key, p4) = match get_bytes(buf, p3) {
            Some(x) => x,
            None => {
                return Err(err);
            },
        };
        let (new_extra, p5) = match get_bytes(buf, p4) {
            Some(x) => x,
            None => {
                return Err(err);
            },
        };
        let (n, p6) = match get_u64(buf, p5) {
            Some(x) => x,
            None => {
                return Err(err);
            },
        };
        let (rollups, p7) = match get_deltas(buf, p6, n) {
            Some(x) => x,
            None => {
                return Err(err);
            },
        };
        if p7 != buf.len() {
            return Err(err);
        }
        let d = StateDiff {
            seqno_from: SeqNo(seqno_from),
            seqno_to: SeqNo(seqno_to),
            latest_rollup_key: PartialRollupKey(latest_rollup_key),
            rollups,
            new_extra,
        };
        if !diff_wf_check(&d) {
            return Err(err);
        }
        if version != build_version {
            return Err(err);
        }
        proof {
            assert(buf@.skip(p7 as int).len() == 0);
        }
        Ok(d)
    }
}

/// Checks [`StateDiffView::wf`] of a decoded diff.
fn diff_wf_check(d: &StateDiff) -> (r: bool)
    ensures
        r == d@.wf(),
{
    if !(d.seqno_from.0 < u64::MAX && d.seqno_to.0 == d.seqno_from.0 + 1) {
        proof {
            if d.seqno_from.0 < u64::MAX {
                assert(d@.seqno_to != d@.seqno_from + 1);
            } else {
                assert(d@.seqno_from == u64::MAX && d@.seqno_to <= u64::MAX);
            }
        }
        return false;
    }
    let n = d.rollups.len();
    let mut i: usize = 0;
    while i < n
        invariant
            i <= n == d@.rollups.len(),
            d@.seqno_to == d@.seqno_from + 1,
            forall|a: int| 0 <= a < i ==> #[trigger] d@.rollups[a].key <= d@.seqno_to,
        decreases n - i,
    {
        if d.rollups.get(i).unwrap().key.0 > d.seqno_to.0 {
            proof {
                assert(d@.rollups[i as int].key > d@.seqno_to);
            }
            return false;
        }
        i = i + 1;
    }
    true
}

/// Reads `n` deltas starting at `pos`, mirroring [`parse_deltas`].
fn get_deltas(buf: &Vec<u8>, pos: usize, n: u64) -> (r: Option<(Vec<StateFieldDiff>, usize)>)
    requires
        pos <= buf@.len(),
    ensures
        match r {
            Some((ds, p2)) => {
                &&& pos <= p2 <= buf@.len()
                &&& parse_deltas(buf@.skip(pos as int), n as nat) == Some(
                    (Seq::new(ds@.len(), |i: int| ds@[i]@), buf@.skip(p2 as int)),
                )
            },
            None => parse_deltas(buf@.skip(pos as int), n as nat) is None,
        },
    decreases n,
{
    if n == 0 {
        let ds: Vec<StateFieldDiff> = Vec::new();
        proof {
            assert(Seq::new(ds@.len(), |i: int| ds@[i]@) =~= Seq::<DeltaView>::empty());
        }
        return Some((ds, pos));
    }
    let (k, p1) = match get_u64(buf, pos) {
        Some(x) => x,
        None => {
            return None;
        },
    };
    let (tag, p2) = match get_u64(buf, p1) {
        Some(x) => x,
        None => {
            return None;
        },
    };
    let (val, p3) = if tag == DELTA_TAG_INSERT {
        let (v, q) = match get_bytes(buf, p2) {
            Some(x) => x,
            None => {
                return None;
            },
        };
        (StateFieldValDiff::Insert(PartialRollupKey(v)), q)
    } else if tag == DELTA_TAG_UPDATE {
        let (o, q1) = match get_bytes(buf, p2) {
            Some(x) => x,
            None => {
                return None;
            },
        };
        let (v, q2) = match get_bytes(buf, q1) {
            Some(x) => x,
            None => {
                return None;
            },
        };
        (StateFieldValDiff::Update(PartialRollupKey(o), PartialRollupKey(v)), q2)
    } else if tag == DELTA_TAG_DELETE {
        let (v, q) = match get_bytes(buf, p2) {
            Some(x) => x,
            None => {
                return None;
            },
        };
        (StateFieldValDiff::Delete(PartialRollupKey(v)), q)
    } else {
        return None;
    };
    let (mut ds, p4) = match get_deltas(buf, p3, n - 1) {
        Some(x) => x,
        None => {
            return None;
        },
    };
    let ghost tail_view = Seq::new(ds@.len(), |i: int| ds@[i]@);
    let d = StateFieldDiff { key: SeqNo(k), val };
    let ghost dv = d@;
    ds.insert(0, d);
    proof {
        assert(Seq::new(ds@.len(), |i: int| ds@[i]@) =~= seq![dv] + tail_view);
    }
    Some((ds, p4))
}

} // verus!
