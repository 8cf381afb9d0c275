//! The two durable substrates the log coordinates: a CAS-capable Consensus
//! store of versioned entries and an object-keyed Blob store.
//!
//! Both are abstract dependencies, stated as traits whose contracts are all
//! the log relies on; [`MemConsensus`] and [`MemBlob`] are in-memory
//! implementations proved against those contracts. Payloads cross both
//! interfaces as [`bytes::Bytes`] buffers, which clone by reference count.

use vstd::prelude::*;
use crate::codec::bytes_eq;
use crate::paths::BlobKey;
use crate::seqno::SeqNo;

verus! {

/// The cheaply cloneable byte buffer in which Consensus entries and Blob
/// values travel.
#[verifier::external_type_specification]
#[verifier::external_body]
pub struct ExBytes(bytes::Bytes);

/// The contents of a [`bytes::Bytes`] buffer.
pub uninterp spec fn bytes_view(b: bytes::Bytes) -> Seq<u8>;

/// Relies on `<bytes::Bytes as From<Vec<u8>>>::from`: wraps the vector's
/// bytes unchanged.
#[verifier::external_body]
pub fn bytes_from_vec(v: Vec<u8>) -> (r: bytes::Bytes)
    ensures
        bytes_view(r) == v@,
{
    bytes::Bytes::from(v)
}

/// Relies on `<bytes::Bytes as AsRef<[u8]>>::as_ref`: exposes exactly the
/// buffer's bytes (copied out here into a plain vector).
#[verifier::external_body]
pub fn bytes_to_vec(b: &bytes::Bytes) -> (r: Vec<u8>)
    ensures
        r@ == bytes_view(*b),
{
    b.as_ref().to_vec()
}

/// Relies on `<bytes::Bytes as Clone>::clone`: a reference-counted copy of
/// the same buffer.
#[verifier::external_body]
pub fn bytes_clone(b: &bytes::Bytes) -> (r: bytes::Bytes)
    ensures
        bytes_view(r) == bytes_view(*b),
{
    b.clone()
}

/// The opaque unit stored in Consensus: a SeqNo and the encoded diff at that
/// SeqNo.
#[derive(Debug)]
pub struct VersionedData {
    pub seqno: SeqNo,
    pub data: bytes::Bytes,
}

/// The mathematical content of a [`VersionedData`].
pub struct VersionedDataView {
    pub seqno: u64,
    pub data: Seq<u8>,
}

impl View for VersionedData {
    type V = VersionedDataView;

    open spec fn view(&self) -> VersionedDataView {
        VersionedDataView { seqno: self.seqno.0, data: bytes_view(self.data) }
    }
}

impl VersionedData {
    /// Duplicates the entry (the payload is shared by reference count).
    pub fn copy(&self) -> (r: VersionedData)
        ensures
            r@ == self@,
    {
        VersionedData { seqno: self.seqno, data: bytes_clone(&self.data) }
    }
}

/// The mathematical content of a sequence of [`VersionedData`].
pub open spec fn vd_seq_view(s: Seq<VersionedData>) -> Seq<VersionedDataView> {
    Seq::new(s.len(), |i: int| s[i]@)
}

/// The Consensus layer could not certify whether a compare-and-set took
/// effect. Callers recover by reading the authoritative state back, never by
/// remembering the attempt.
#[derive(Clone, Copy, Debug, PartialEq, Eq, Structural)]
pub struct Indeterminate;

/// Whether a Blob write must be all-or-nothing visible.
#[derive(Clone, Copy, Debug, PartialEq, Eq, Structural)]
pub enum Atomicity {
    RequireAtomic,
    AllowNonAtomic,
}

/// The scan limit that requests no limit.
pub const SCAN_ALL: usize = usize::MAX;

/// Whether a compare-and-set expectation matches a log: `None` expects an
/// uninitialized (empty) log, `Some(e)` expects the tip to be exactly `e`.
pub open spec fn cas_expectation_matches(
    log: Seq<VersionedDataView>,
    expected: Option<SeqNo>,
) -> bool {
    match expected {
        None => log.len() == 0,
        Some(e) => log.len() > 0 && log.last().seqno == e.0,
    }
}

/// The entries of `log` with SeqNo at or past `from`, in log order.
pub open spec fn live_from(log: Seq<VersionedDataView>, from: u64) -> Seq<VersionedDataView>
    decreases log.len(),
{
    if log.len() == 0 {
        Seq::<VersionedDataView>::empty()
    } else if log[0].seqno < from {
        live_from(log.skip(1), from)
    } else {
        seq![log[0]] + live_from(log.skip(1), from)
    }
}

/// What a scan with a limit returns: the live tail from `from`, cut to the
/// first `limit` entries.
pub open spec fn scan_window(
    log: Seq<VersionedDataView>,
    from: u64,
    limit: nat,
) -> Seq<VersionedDataView> {
    let live = live_from(log, from);
    live.take(if limit < live.len() { limit as int } else { live.len() as int })
}

/// `live_from` distributes over appending one entry.
pub proof fn lemma_live_from_snoc(s: Seq<VersionedDataView>, v: VersionedDataView, from: u64)
    ensures
        live_from(s.push(v), from) == live_from(s, from) + (if v.seqno >= from {
            seq![v]
        } else {
            Seq::<VersionedDataView>::empty()
        }),
    decreases s.len(),
{
    let tail: Seq<VersionedDataView> = if v.seqno >= from {
        seq![v]
    } else {
        Seq::<VersionedDataView>::empty()
    };
    if s.len() == 0 {
        assert(s.push(v).skip(1) =~= Seq::<VersionedDataView>::empty());
        assert(s.push(v)[0] == v);
        assert(live_from(s.push(v).skip(1), from) == Seq::<VersionedDataView>::empty());
        assert(live_from(s, from) == Seq::<VersionedDataView>::empty());
        if v.seqno >= from {
            assert(live_from(s.push(v), from) == seq![v] + Seq::<VersionedDataView>::empty());
            assert(seq![v] + Seq::<VersionedDataView>::empty() =~= Seq::<
                VersionedDataView,
            >::empty() + seq![v]);
        } else {
            assert(live_from(s.push(v), from) == Seq::<VersionedDataView>::empty());
            assert(Seq::<VersionedDataView>::empty() + Seq::<VersionedDataView>::empty() =~= Seq::<
                VersionedDataView,
            >::empty());
        }
    } else {
        assert(s.push(v).skip(1) =~= s.skip(1).push(v));
        assert(s.push(v)[0] == s[0]);
        lemma_live_from_snoc(s.skip(1), v, from);
        if s[0].seqno < from {
        } else {
            assert(seq![s[0]] + (live_from(s.skip(1), from) + tail) =~= (seq![s[0]] + live_from(
                s.skip(1),
                from,
            )) + tail);
        }
    }
}

/// From the minimum SeqNo, the live tail is the whole log.
pub proof fn lemma_live_from_zero(s: Seq<VersionedDataView>)
    ensures
        live_from(s, 0) == s,
    decreases s.len(),
{
    if s.len() > 0 {
        lemma_live_from_zero(s.skip(1));
        assert(seq![s[0]] + s.skip(1) =~= s);
    }
}

/// A CAS-capable key→version log: the durable substrate that orders a
/// shard's diffs. Its contracts are everything the log above relies on.
pub trait Consensus: Sized {
    /// Implementation well-formedness, carried through every operation.
    spec fn inv(&self) -> bool;

    /// The entries currently stored under `path`, oldest first. An
    /// uninitialized path holds the empty log.
    spec fn log_at(&self, path: Seq<u8>) -> Seq<VersionedDataView>;

    /// How many more indeterminate compare-and-set outcomes this store may
    /// report. Real transports misbehave only finitely often between
    /// successful exchanges; the fuel makes retry loops provably
    /// terminating. A determinate store has fuel zero forever.
    spec fn cas_fuel(&self) -> nat;

    /// Atomically appends `new` under `path` iff the tip matches `expected`.
    /// On a mismatch, nothing changes and the caller receives a snapshot of
    /// the current live entries to rebase on. An `Indeterminate` outcome
    /// promises only that the store either appended `new` (the expectation
    /// matched) or did nothing.
    fn compare_and_set(&mut self, path: &Vec<u8>, expected: Option<SeqNo>, new: VersionedData) -> (r:
        Result<Result<(), Vec<VersionedData>>, Indeterminate>)
        requires
            old(self).inv(),
            match expected {
                Some(e) => new@.seqno > e.0,
                None => true,
            },
        ensures
            final(self).inv(),
            forall|p: Seq<u8>|
                p != path@ ==> final(self).log_at(p) == old(self).log_at(p),
            match r {
                Ok(Ok(())) => {
                    &&& cas_expectation_matches(old(self).log_at(path@), expected)
                    &&& final(self).log_at(path@) == old(self).log_at(path@).push(new@)
                },
                Ok(Err(live)) => {
                    &&& !cas_expectation_matches(old(self).log_at(path@), expected)
                    &&& final(self).log_at(path@) == old(self).log_at(path@)
                    &&& vd_seq_view(live@) == old(self).log_at(path@)
                },
                Err(_) => {
                    &&& final(self).cas_fuel() < old(self).cas_fuel()
                    &&& {
                        ||| final(self).log_at(path@) == old(self).log_at(path@)
                        ||| (cas_expectation_matches(old(self).log_at(path@), expected)
                            && final(self).log_at(path@) == old(self).log_at(path@).push(new@))
                    }
                },
            },
    ;

    /// Returns the entries under `path` with SeqNo at or past `from`, oldest
    /// first, at most `limit` of them ([`SCAN_ALL`] for no limit).
    fn scan(&self, path: &Vec<u8>, from: SeqNo, limit: usize) -> (r: Vec<VersionedData>)
        requires
            self.inv(),
        ensures
            vd_seq_view(r@) == scan_window(self.log_at(path@), from.0, limit as nat),
    ;

    /// Returns the entry with the largest SeqNo under `path`, if any.
    fn head(&self, path: &Vec<u8>) -> (r: Option<VersionedData>)
        requires
            self.inv(),
        ensures
            match r {
                Some(v) => self.log_at(path@).len() > 0 && v@ == self.log_at(path@).last(),
                None => self.log_at(path@).len() == 0,
            },
    ;

    /// Deletes all entries under `path` with SeqNo strictly less than
    /// `seqno`, returning how many were deleted. Callers keep at least one
    /// entry live: `seqno` never passes the tip.
    fn truncate(&mut self, path: &Vec<u8>, seqno: SeqNo) -> (r: usize)
        requires
            old(self).inv(),
            old(self).log_at(path@).len() > 0,
            seqno.0 <= old(self).log_at(path@).last().seqno,
        ensures
            final(self).inv(),
            forall|p: Seq<u8>|
                p != path@ ==> final(self).log_at(p) == old(self).log_at(p),
            final(self).log_at(path@) == live_from(old(self).log_at(path@), seqno.0),
            r == old(self).log_at(path@).len() - final(self).log_at(path@).len(),
    ;
}

/// An object store of byte blobs under byte keys: where rollups live.
pub trait Blob: Sized {
    /// Implementation well-formedness, carried through every operation.
    spec fn inv(&self) -> bool;

    /// The blobs currently stored, by key.
    spec fn contents(&self) -> Map<Seq<u8>, Seq<u8>>;

    /// Returns the blob under `key`, if present.
    fn get(&self, key: &BlobKey) -> (r: Option<bytes::Bytes>)
        requires
            self.inv(),
        ensures
            match r {
                Some(b) => self.contents().contains_key(key@) && bytes_view(b)
                    == self.contents()[key@],
                None => !self.contents().contains_key(key@),
            },
    ;

    /// Writes `value` under `key`, replacing any previous blob. With
    /// [`Atomicity::RequireAtomic`] the write is all-or-nothing visible.
    fn set(&mut self, key: &BlobKey, value: bytes::Bytes, atomic: Atomicity)
        requires
            old(self).inv(),
        ensures
            final(self).inv(),
            final(self).contents() == old(self).contents().insert(key@, bytes_view(value)),
    ;

    /// Deletes the blob under `key`, if present.
    fn delete(&mut self, key: &BlobKey)
        requires
            old(self).inv(),
        ensures
            final(self).inv(),
            final(self).contents() == old(self).contents().remove(key@),
    ;
}

// ---------------------------------------------------------------------------
// In-memory implementations.
// ---------------------------------------------------------------------------

/// Whether an association list has pairwise distinct paths.
pub open spec fn paths_unique(ss: Seq<(Vec<u8>, Vec<VersionedData>)>) -> bool {
    forall|i: int, j: int| 0 <= i < j < ss.len() ==> ss[i].0@ != ss[j].0@
}

/// Whether some entry of the list holds `path`.
pub open spec fn paths_contain(ss: Seq<(Vec<u8>, Vec<VersionedData>)>, path: Seq<u8>) -> bool {
    exists|i: int| 0 <= i < ss.len() && ss[i].0@ == path
}

/// The index of the entry holding `path` (unique when paths are distinct).
pub open spec fn path_index_of(ss: Seq<(Vec<u8>, Vec<VersionedData>)>, path: Seq<u8>) -> int {
    choose|i: int| 0 <= i < ss.len() && ss[i].0@ == path
}

/// The log stored under `path` in the list.
pub open spec fn assoc_log(
    ss: Seq<(Vec<u8>, Vec<VersionedData>)>,
    path: Seq<u8>,
) -> Seq<VersionedDataView> {
    if paths_contain(ss, path) {
        vd_seq_view(ss[path_index_of(ss, path)].1@)
    } else {
        Seq::<VersionedDataView>::empty()
    }
}

/// With distinct paths, the entry for a path is unique.
pub proof fn lemma_path_index_unique(ss: Seq<(Vec<u8>, Vec<VersionedData>)>, path: Seq<u8>, i: int)
    requires
        paths_unique(ss),
        0 <= i < ss.len(),
        ss[i].0@ == path,
    ensures
        paths_contain(ss, path),
        path_index_of(ss, path) == i,
        assoc_log(ss, path) == vd_seq_view(ss[i].1@),
{
    assert(paths_contain(ss, path));
    let j = path_index_of(ss, path);
    if j < i {
        assert(ss[j].0@ != ss[i].0@);
    } else if i < j {
        assert(ss[i].0@ != ss[j].0@);
    }
}

/// An in-memory Consensus: one totally ordered entry list per path.
#[derive(Debug)]
pub struct MemConsensus {
    shards: Vec<(Vec<u8>, Vec<VersionedData>)>,
}

impl MemConsensus {
    /// An empty store: every path is uninitialized.
    pub fn new() -> (r: MemConsensus)
        ensures
            r.inv(),
            forall|p: Seq<u8>| r.log_at(p) == Seq::<VersionedDataView>::empty(),
    {
        let r = MemConsensus { shards: Vec::new() };
        proof {
            assert(forall|p: Seq<u8>| !paths_contain(r.shards@, p));
        }
        r
    }

    /// The index of the entry list for `path`, if the path is initialized.
    fn find_path(&self, path: &Vec<u8>) -> (r: Option<usize>)
        requires
            self.inv(),
        ensures
            match r {
                Some(i) => {
                    &&& i < self.shards@.len()
                    &&& self.shards@[i as int].0@ == path@
                    &&& self.log_at(path@) == vd_seq_view(self.shards@[i as int].1@)
                },
                None => !paths_contain(self.shards@, path@) && self.log_at(path@) == Seq::<
                    VersionedDataView,
                >::empty(),
            },
    {
        let mut i: usize = 0;
        let n = self.shards.len();
        while i < n
            invariant
                self.inv(),
                i <= n == self.shards@.len(),
                forall|j: int| 0 <= j < i ==> self.shards@[j].0@ != path@,
            decreases n - i,
        {
            if bytes_eq(&self.shards.get(i).unwrap().0, path) {
                proof {
                    lemma_path_index_unique(self.shards@, path@, i as int);
                }
                return Some(i);
            }
            i = i + 1;
        }
        None
    }

}

/// Copies a list of entries (payloads shared by reference count).
pub fn copy_versioned(entries: &Vec<VersionedData>) -> (r: Vec<VersionedData>)
    ensures
        vd_seq_view(r@) == vd_seq_view(entries@),
{
    let mut out: Vec<VersionedData> = Vec::new();
    let mut i: usize = 0;
    while i < entries.len()
        invariant
            i <= entries@.len(),
            out@.len() == i,
            forall|j: int| 0 <= j < i ==> (#[trigger] out@[j])@ == entries@[j]@,
        decreases entries@.len() - i,
    {
        out.push(entries.get(i).unwrap().copy());
        i = i + 1;
    }
    proof {
        assert(vd_seq_view(out@) =~= vd_seq_view(entries@));
    }
    out
}

impl Consensus for MemConsensus {
    closed spec fn inv(&self) -> bool {
        paths_unique(self.shards@)
    }

    closed spec fn log_at(&self, path: Seq<u8>) -> Seq<VersionedDataView> {
        assoc_log(self.shards@, path)
    }

    closed spec fn cas_fuel(&self) -> nat {
        0
    }

    fn compare_and_set(&mut self, path: &Vec<u8>, expected: Option<SeqNo>, new: VersionedData) -> (r:
        Result<Result<(), Vec<VersionedData>>, Indeterminate>) {
        let found = self.find_path(path);
        match found {
            Some(i) => {
                let matches = match expected {
                    None => self.shards.get(i).unwrap().1.len() == 0,
                    Some(e) => {
                        let entries = &self.shards.get(i).unwrap().1;
                        let n = entries.len();
                        n > 0 && entries.get(n - 1).unwrap().seqno.0 == e.0
                    },
                };
                proof {
                    let log = old(self).log_at(path@);
                    if matches {
                        assert(cas_expectation_matches(log, expected));
                    } else {
                        assert(!cas_expectation_matches(log, expected));
                    }
                }
                if matches {
                    let ghost old_shards = self.shards@;
                    let mut entry = self.shards.remove(i);
                    entry.1.push(new);
                    self.shards.insert(i, entry);
                    proof {
                        assert(self.shards@ =~= old_shards.update(
                            i as int,
                            (old_shards[i as int].0, self.shards@[i as int].1),
                        ));
                        assert(self.shards@[i as int].0@ == path@);
                        assert forall|a: int, b: int|
                            0 <= a < b < self.shards@.len() implies self.shards@[a].0@
                            != self.shards@[b].0@ by {
                            assert(self.shards@[a].0@ == old_shards[a].0@);
                            assert(self.shards@[b].0@ == old_shards[b].0@);
                        }
                        lemma_path_index_unique(old_shards, path@, i as int);
                        lemma_path_index_unique(self.shards@, path@, i as int);
                        assert(vd_seq_view(self.shards@[i as int].1@) =~= old(self).log_at(
                            path@,
                        ).push(new@));
                        assert forall|p: Seq<u8>| p != path@ implies self.log_at(p) == old(
                            self,
                        ).log_at(p) by {
                            Self::lemma_other_paths(old_shards, self.shards@, i as int, p);
                        }
                    }
                    Ok(Ok(()))
                } else {
                    let snapshot = copy_versioned(&self.shards.get(i).unwrap().1);
                    proof {
                        lemma_path_index_unique(self.shards@, path@, i as int);
                    }
                    Ok(Err(snapshot))
                }
            },
            None => {
                match expected {
                    None => {
                        let ghost old_shards = self.shards@;
                        let mut entries: Vec<VersionedData> = Vec::new();
                        entries.push(new);
                        self.shards.push((path.clone(), entries));
                        proof {
                            let n = old_shards.len() as int;
                            assert(self.shards@[n].0@ == path@);
                            assert forall|i: int, j: int|
                                0 <= i < j < self.shards@.len() implies self.shards@[i].0@
                                != self.shards@[j].0@ by {
                                if j == n {
                                    assert(!paths_contain(old_shards, path@));
                                    assert(self.shards@[i].0@ == old_shards[i].0@);
                                }
                            }
                            lemma_path_index_unique(self.shards@, path@, n);
                            assert(vd_seq_view(self.shards@[n].1@) =~= old(self).log_at(path@).push(
                                new@,
                            ));
                            assert forall|p: Seq<u8>| p != path@ implies self.log_at(p) == old(
                                self,
                            ).log_at(p) by {
                                Self::lemma_push_other_paths(old_shards, self.shards@, p);
                            }
                        }
                        Ok(Ok(()))
                    },
                    Some(_) => {
                        let snapshot: Vec<VersionedData> = Vec::new();
                        proof {
                            assert(vd_seq_view(snapshot@) =~= Seq::<VersionedDataView>::empty());
                        }
                        Ok(Err(snapshot))
                    },
                }
            },
        }
    }

    fn scan(&self, path: &Vec<u8>, from: SeqNo, limit: usize) -> (r: Vec<VersionedData>) {
        let found = self.find_path(path);
        let mut out: Vec<VersionedData> = Vec::new();
        match found {
            None => {
                proof {
                    assert(vd_seq_view(out@) =~= scan_window(self.log_at(path@), from.0, limit as nat));
                }
                out
            },
            Some(i) => {
                let entries = &self.shards.get(i).unwrap().1;
                let ghost log = vd_seq_view(entries@);
                let n = entries.len();
                let mut j: usize = 0;
                proof {
                    assert(log.take(0) =~= Seq::<VersionedDataView>::empty());
                }
                while j < n
                    invariant
                        j <= n == entries@.len(),
                        log == vd_seq_view(entries@),
                        vd_seq_view(out@) == live_from(log.take(j as int), from.0),
                    decreases n - j,
                {
                    let e = entries.get(j).unwrap();
                    let ghost out_before = vd_seq_view(out@);
                    if e.seqno.0 >= from.0 {
                        out.push(e.copy());
                        proof {
                            assert(vd_seq_view(out@) =~= out_before + seq![entries@[j as int]@]);
                        }
                    }
                    proof {
                        lemma_live_from_snoc(log.take(j as int), log[j as int], from.0);
                        assert(log.take(j as int).push(log[j as int]) =~= log.take(j + 1));
                        if e.seqno.0 < from.0 {
                            assert(live_from(log.take(j as int), from.0) + Seq::<
                                VersionedDataView,
                            >::empty() =~= live_from(log.take(j as int), from.0));
                        }
                    }
                    j = j + 1;
                }
                proof {
                    assert(log.take(n as int) =~= log);
                }
                out.truncate(limit);
                proof {
                    let live = live_from(log, from.0);
                    if limit < live.len() {
                        assert(vd_seq_view(out@) =~= live.take(limit as int));
                    } else {
                        assert(vd_seq_view(out@) =~= live.take(live.len() as int));
                    }
                }
                out
            },
        }
    }

    fn head(&self, path: &Vec<u8>) -> (r: Option<VersionedData>) {
        let found = self.find_path(path);
        match found {
            None => None,
            Some(i) => {
                let entries = &self.shards.get(i).unwrap().1;
                let n = entries.len();
                if n == 0 {
                    None
                } else {
                    Some(entries.get(n - 1).unwrap().copy())
                }
            },
        }
    }

    fn truncate(&mut self, path: &Vec<u8>, seqno: SeqNo) -> (r: usize) {
        let found = self.find_path(path);
        let i = match found {
            Some(i) => i,
            None => {
                proof {
                    assert(false);
                }
                unreached()
            },
        };
        let ghost old_shards = self.shards@;
        let mut entry = self.shards.remove(i);
        let before = entry.1.len();
        let ghost old_log = vd_seq_view(entry.1@);
        let mut kept: Vec<VersionedData> = Vec::new();
        let n = entry.1.len();
        let mut j: usize = 0;
        proof {
            assert(old_log.take(0) =~= Seq::<VersionedDataView>::empty());
        }
        while j < n
            invariant
                j <= n == entry.1@.len(),
                kept@.len() <= j,
                old_log == vd_seq_view(entry.1@),
                vd_seq_view(kept@) == live_from(old_log.take(j as int), seqno.0),
            decreases n - j,
        {
            let e = entry.1.get(j).unwrap();
            let ghost kept_before = vd_seq_view(kept@);
            if e.seqno.0 >= seqno.0 {
                kept.push(e.copy());
                proof {
                    assert(vd_seq_view(kept@) =~= kept_before + seq![entry.1@[j as int]@]);
                }
            }
            proof {
                lemma_live_from_snoc(old_log.take(j as int), old_log[j as int], seqno.0);
                assert(old_log.take(j as int).push(old_log[j as int]) =~= old_log.take(j + 1));
                if e.seqno.0 < seqno.0 {
                    assert(live_from(old_log.take(j as int), seqno.0) + Seq::<
                        VersionedDataView,
                    >::empty() =~= live_from(old_log.take(j as int), seqno.0));
                }
            }
            j = j + 1;
        }
        proof {
            assert(old_log.take(n as int) =~= old_log);
        }
        let after = kept.len();
        let new_entry = (entry.0, kept);
        self.shards.insert(i, new_entry);
        proof {
            assert(self.shards@ =~= old_shards.update(
                i as int,
                (old_shards[i as int].0, self.shards@[i as int].1),
            ));
            assert(self.shards@[i as int].0@ == path@);
            assert forall|a: int, b: int|
                0 <= a < b < self.shards@.len() implies self.shards@[a].0@
                != self.shards@[b].0@ by {
                assert(self.shards@[a].0@ == old_shards[a].0@);
                assert(self.shards@[b].0@ == old_shards[b].0@);
            }
            lemma_path_index_unique(self.shards@, path@, i as int);
            lemma_path_index_unique(old_shards, path@, i as int);
            assert(vd_seq_view(self.shards@[i as int].1@) =~= live_from(
                old(self).log_at(path@),
                seqno.0,
            ));
            assert forall|p: Seq<u8>| p != path@ implies self.log_at(p) == old(self).log_at(p) by {
                Self::lemma_other_paths(old_shards, self.shards@, i as int, p);
            }
        }
        before - after
    }
}

/// Whether an association list has pairwise distinct keys.
pub open spec fn blob_keys_unique(es: Seq<(Vec<u8>, bytes::Bytes)>) -> bool {
    forall|i: int, j: int| 0 <= i < j < es.len() ==> es[i].0@ != es[j].0@
}

/// Whether some entry of the list holds `key`.
pub open spec fn blob_keys_contain(es: Seq<(Vec<u8>, bytes::Bytes)>, key: Seq<u8>) -> bool {
    exists|i: int| 0 <= i < es.len() && es[i].0@ == key
}

/// The index of the entry holding `key` (unique when keys are distinct).
pub open spec fn blob_index_of(es: Seq<(Vec<u8>, bytes::Bytes)>, key: Seq<u8>) -> int {
    choose|i: int| 0 <= i < es.len() && es[i].0@ == key
}

/// The association list read as a map from key to blob contents.
pub open spec fn blob_map(es: Seq<(Vec<u8>, bytes::Bytes)>) -> Map<Seq<u8>, Seq<u8>> {
    Map::new(
        |k: Seq<u8>| blob_keys_contain(es, k),
        |k: Seq<u8>| bytes_view(es[blob_index_of(es, k)].1),
    )
}

/// With distinct keys, the entry for a key is unique.
pub proof fn lemma_blob_index_unique(es: Seq<(Vec<u8>, bytes::Bytes)>, key: Seq<u8>, i: int)
    requires
        blob_keys_unique(es),
        0 <= i < es.len(),
        es[i].0@ == key,
    ensures
        blob_keys_contain(es, key),
        blob_index_of(es, key) == i,
        blob_map(es).contains_key(key),
        blob_map(es)[key] == bytes_view(es[i].1),
{
    assert(blob_keys_contain(es, key));
    let j = blob_index_of(es, key);
    if j < i {
        assert(es[j].0@ != es[i].0@);
    } else if i < j {
        assert(es[i].0@ != es[j].0@);
    }
}

/// An in-memory Blob: an association list of keys and buffers.
#[derive(Debug)]
pub struct MemBlob {
    entries: Vec<(Vec<u8>, bytes::Bytes)>,
}

impl MemBlob {
    /// An empty store.
    pub fn new() -> (r: MemBlob)
        ensures
            r.inv(),
            r.contents() == Map::<Seq<u8>, Seq<u8>>::empty(),
    {
        let r = MemBlob { entries: Vec::new() };
        proof {
            assert(forall|k: Seq<u8>| !blob_keys_contain(r.entries@, k));
            assert(r.contents() =~= Map::<Seq<u8>, Seq<u8>>::empty());
        }
        r
    }

    /// How many blobs are stored.
    pub fn len(&self) -> (r: usize)
        requires
            self.inv(),
        ensures
            r == self.contents().dom().len(),
    {
        proof {
            Self::lemma_dom_len(self.entries@);
        }
        self.entries.len()
    }

    /// The domain of the map of a unique-keyed list has the list's length.
    proof fn lemma_dom_len(es: Seq<(Vec<u8>, bytes::Bytes)>)
        requires
            blob_keys_unique(es),
        ensures
            blob_map(es).dom().len() == es.len(),
            blob_map(es).dom().finite(),
        decreases es.len(),
    {
        if es.len() == 0 {
            assert(blob_map(es).dom() =~= Set::<Seq<u8>>::empty());
        } else {
            let head = es.drop_last();
            Self::lemma_dom_len(head);
            let k = es.last().0@;
            assert forall|a: int| 0 <= a < head.len() implies (#[trigger] head[a]).0@ != k by {
                assert(es[a].0@ != es[es.len() - 1].0@);
            }
            assert(!blob_map(head).dom().contains(k));
            assert(blob_map(es).dom() =~= blob_map(head).dom().insert(k)) by {
                assert forall|q: Seq<u8>| blob_keys_contain(es, q) implies blob_keys_contain(
                    head,
                    q,
                ) || q == k by {
                    let w = choose|w: int| 0 <= w < es.len() && es[w].0@ == q;
                    if w < es.len() - 1 {
                        assert(head[w].0@ == q);
                    }
                }
                assert forall|q: Seq<u8>| blob_keys_contain(head, q) implies blob_keys_contain(
                    es,
                    q,
                ) by {
                    let w = choose|w: int| 0 <= w < head.len() && head[w].0@ == q;
                    assert(es[w].0@ == q);
                }
                assert(blob_keys_contain(es, k));
            }
            vstd::set::axiom_set_insert_len(blob_map(head).dom(), k);
        }
    }

    /// The index of the entry for `key`, if present.
    fn find_key(&self, key: &BlobKey) -> (r: Option<usize>)
        requires
            self.inv(),
        ensures
            match r {
                Some(i) => {
                    &&& i < self.entries@.len()
                    &&& self.entries@[i as int].0@ == key@
                    &&& blob_index_of(self.entries@, key@) == i
                    &&& self.contents().contains_key(key@)
                    &&& self.contents()[key@] == bytes_view(self.entries@[i as int].1)
                },
                None => !self.contents().contains_key(key@),
            },
    {
        let mut i: usize = 0;
        let n = self.entries.len();
        while i < n
            invariant
                self.inv(),
                i <= n == self.entries@.len(),
                forall|j: int| 0 <= j < i ==> self.entries@[j].0@ != key@,
            decreases n - i,
        {
            if bytes_eq(&self.entries.get(i).unwrap().0, &key.0) {
                proof {
                    lemma_blob_index_unique(self.entries@, key@, i as int);
                }
                return Some(i);
            }
            i = i + 1;
        }
        proof {
            if self.contents().contains_key(key@) {
                let w = blob_index_of(self.entries@, key@);
                assert(0 <= w < self.entries@.len() && self.entries@[w].0@ == key@);
            }
        }
        None
    }
}

impl Blob for MemBlob {
    closed spec fn inv(&self) -> bool {
        blob_keys_unique(self.entries@)
    }

    closed spec fn contents(&self) -> Map<Seq<u8>, Seq<u8>> {
        blob_map(self.entries@)
    }

    fn get(&self, key: &BlobKey) -> (r: Option<bytes::Bytes>) {
        match self.find_key(key) {
            Some(i) => Some(bytes_clone(&self.entries.get(i).unwrap().1)),
            None => None,
        }
    }

    fn set(&mut self, key: &BlobKey, value: bytes::Bytes, atomic: Atomicity) {
        let ghost old_entries = self.entries@;
        let found = self.find_key(key);
        match found {
            Some(i) => {
                self.entries.remove(i);
                self.entries.insert(i, (key.0.clone(), value));
                proof {
                    assert(self.entries@ =~= old_entries.update(
                        i as int,
                        self.entries@[i as int],
                    ));
                    assert(self.entries@[i as int].0@ == key@);
                    assert forall|a: int, b: int|
                        0 <= a < b < self.entries@.len() implies self.entries@[a].0@
                        != self.entries@[b].0@ by {
                        assert(self.entries@[a].0@ == old_entries[a].0@);
                        assert(self.entries@[b].0@ == old_entries[b].0@);
                    }
                    Self::lemma_contents_after_replace(old_entries, self.entries@, i as int, key@);
                    assert(self.contents() =~= blob_map(old_entries).insert(
                        key@,
                        bytes_view(value),
                    ));
                }
            },
            None => {
                self.entries.push((key.0.clone(), value));
                proof {
                    let n = old_entries.len() as int;
                    assert(self.entries@[n].0@ == key@);
                    assert forall|a: int, b: int|
                        0 <= a < b < self.entries@.len() implies self.entries@[a].0@
                        != self.entries@[b].0@ by {
                        if b == n {
                            assert(!blob_keys_contain(old_entries, key@));
                            assert(self.entries@[a].0@ == old_entries[a].0@);
                        }
                    }
                    Self::lemma_contents_after_push(old_entries, self.entries@, key@);
                    assert(self.contents() =~= blob_map(old_entries).insert(
                        key@,
                        bytes_view(value),
                    ));
                }
            },
        }
    }

    fn delete(&mut self, key: &BlobKey) {
        let ghost old_entries = self.entries@;
        let found = self.find_key(key);
        match found {
            Some(i) => {
                self.entries.remove(i);
                proof {
                    assert forall|a: int, b: int|
                        0 <= a < b < self.entries@.len() implies self.entries@[a].0@
                        != self.entries@[b].0@ by {
                        let a0 = if a < i as int { a } else { a + 1 };
                        let b0 = if b < i as int { b } else { b + 1 };
                        assert(old_entries[a0].0@ != old_entries[b0].0@);
                    }
                    Self::lemma_contents_after_remove(old_entries, self.entries@, i as int, key@);
                    assert(self.contents() =~= blob_map(old_entries).remove(key@));
                }
            },
            None => {
                proof {
                    assert(self.contents() =~= blob_map(old_entries).remove(key@));
                }
            },
        }
    }
}

impl MemBlob {
    /// Replacing the value at one key rewrites exactly that key's entry of
    /// the map.
    proof fn lemma_contents_after_replace(
        before: Seq<(Vec<u8>, bytes::Bytes)>,
        after: Seq<(Vec<u8>, bytes::Bytes)>,
        i: int,
        key: Seq<u8>,
    )
        requires
            blob_keys_unique(before),
            blob_keys_unique(after),
            before.len() == after.len(),
            0 <= i < before.len(),
            before[i].0@ == key,
            after[i].0@ == key,
            forall|j: int| 0 <= j < before.len() && j != i ==> after[j] == before[j],
        ensures
            blob_map(after) == blob_map(before).insert(key, bytes_view(after[i].1)),
    {
        assert forall|j: int| 0 <= j < before.len() implies (#[trigger] after[j]).0@
            == before[j].0@ by {}
        assert(blob_map(after) =~= blob_map(before).insert(key, bytes_view(after[i].1))) by {
            assert forall|q: Seq<u8>| blob_keys_contain(after, q) == blob_keys_contain(
                before,
                q,
            ) by {
                if blob_keys_contain(after, q) {
                    let w = choose|w: int| 0 <= w < after.len() && after[w].0@ == q;
                    assert(before[w].0@ == q);
                }
                if blob_keys_contain(before, q) {
                    let w = choose|w: int| 0 <= w < before.len() && before[w].0@ == q;
                    assert(after[w].0@ == q);
                }
            }
            assert forall|q: Seq<u8>| blob_keys_contain(after, q) && q != key implies blob_map(
                after,
            )[q] == blob_map(before)[q] by {
                let w = choose|w: int| 0 <= w < after.len() && after[w].0@ == q;
                lemma_blob_index_unique(after, q, w);
                assert(before[w].0@ == q);
                lemma_blob_index_unique(before, q, w);
                assert(w != i);
            }
            lemma_blob_index_unique(after, key, i);
        }
    }

    /// Appending an entry under a fresh key adds exactly that key to the map.
    proof fn lemma_contents_after_push(
        before: Seq<(Vec<u8>, bytes::Bytes)>,
        after: Seq<(Vec<u8>, bytes::Bytes)>,
        key: Seq<u8>,
    )
        requires
            blob_keys_unique(before),
            blob_keys_unique(after),
            after.len() == before.len() + 1,
            after[after.len() - 1].0@ == key,
            !blob_keys_contain(before, key),
            forall|j: int| 0 <= j < before.len() ==> after[j] == before[j],
        ensures
            blob_map(after) == blob_map(before).insert(key, bytes_view(after[after.len() - 1].1)),
    {
        let n = before.len() as int;
        assert(blob_map(after) =~= blob_map(before).insert(
            key,
            bytes_view(after[after.len() - 1].1),
        )) by {
            assert forall|q: Seq<u8>| blob_keys_contain(after, q) implies blob_keys_contain(
                before,
                q,
            ) || q == key by {
                let w = choose|w: int| 0 <= w < after.len() && after[w].0@ == q;
                if w < n {
                    assert(before[w].0@ == q);
                }
            }
            assert forall|q: Seq<u8>| blob_keys_contain(before, q) implies blob_keys_contain(
                after,
                q,
            ) by {
                let w = choose|w: int| 0 <= w < before.len() && before[w].0@ == q;
                assert(after[w].0@ == q);
            }
            assert forall|q: Seq<u8>| blob_keys_contain(before, q) implies blob_map(after)[q]
                == blob_map(before)[q] by {
                let w = choose|w: int| 0 <= w < before.len() && before[w].0@ == q;
                lemma_blob_index_unique(before, q, w);
                assert(after[w].0@ == q);
                lemma_blob_index_unique(after, q, w);
            }
            lemma_blob_index_unique(after, key, n);
        }
    }

    /// Removing the entry at one key removes exactly that key from the map.
    proof fn lemma_contents_after_remove(
        before: Seq<(Vec<u8>, bytes::Bytes)>,
        after: Seq<(Vec<u8>, bytes::Bytes)>,
        i: int,
        key: Seq<u8>,
    )
        requires
            blob_keys_unique(before),
            blob_keys_unique(after),
            0 <= i < before.len(),
            before[i].0@ == key,
            after == before.remove(i),
        ensures
            blob_map(after) == blob_map(before).remove(key),
    {
        assert(blob_map(after) =~= blob_map(before).remove(key)) by {
            assert forall|q: Seq<u8>| blob_keys_contain(after, q) implies blob_keys_contain(
                before,
                q,
            ) && q != key by {
                let w = choose|w: int| 0 <= w < after.len() && after[w].0@ == q;
                let w0 = if w < i { w } else { w + 1 };
                assert(before[w0].0@ == q);
                if q == key {
                    lemma_blob_index_unique(before, key, i);
                    lemma_blob_index_unique(before, q, w0);
                }
            }
            assert forall|q: Seq<u8>| blob_keys_contain(before, q) && q != key
                implies blob_keys_contain(after, q) by {
                let w = choose|w: int| 0 <= w < before.len() && before[w].0@ == q;
                assert(w != i);
                let w1 = if w < i { w } else { w - 1 };
                assert(after[w1].0@ == q);
            }
            assert forall|q: Seq<u8>| blob_keys_contain(after, q) implies blob_map(after)[q]
                == blob_map(before)[q] by {
                let w = choose|w: int| 0 <= w < after.len() && after[w].0@ == q;
                lemma_blob_index_unique(after, q, w);
                let w0 = if w < i { w } else { w + 1 };
                assert(before[w0].0@ == q);
                lemma_blob_index_unique(before, q, w0);
            }
        }
    }

}

impl MemConsensus {
    /// After updating one entry's log in place, every other path reads the
    /// same log as before.
    proof fn lemma_other_paths(
        before: Seq<(Vec<u8>, Vec<VersionedData>)>,
        after: Seq<(Vec<u8>, Vec<VersionedData>)>,
        i: int,
        p: Seq<u8>,
    )
        requires
            paths_unique(before),
            before.len() == after.len(),
            0 <= i < before.len(),
            forall|j: int| 0 <= j < before.len() ==> after[j].0@ == before[j].0@,
            forall|j: int| 0 <= j < before.len() && j != i ==> after[j].1 == before[j].1,
            p != before[i].0@,
        ensures
            assoc_log(after, p) == assoc_log(before, p),
    {
        assert(paths_unique(after));
        if paths_contain(before, p) {
            let j = path_index_of(before, p);
            assert(before[j].0@ == p);
            assert(after[j].0@ == p);
            assert(j != i);
            lemma_path_index_unique(before, p, j);
            lemma_path_index_unique(after, p, j);
        } else {
            if paths_contain(after, p) {
                let j = path_index_of(after, p);
                assert(before[j].0@ == p);
            }
        }
    }

    /// After appending an entry for a fresh path, every other path reads the
    /// same log as before.
    proof fn lemma_push_other_paths(
        before: Seq<(Vec<u8>, Vec<VersionedData>)>,
        after: Seq<(Vec<u8>, Vec<VersionedData>)>,
        p: Seq<u8>,
    )
        requires
            paths_unique(before),
            paths_unique(after),
            after.len() == before.len() + 1,
            forall|j: int| 0 <= j < before.len() ==> after[j] == before[j],
            p != after[after.len() - 1].0@,
        ensures
            assoc_log(after, p) == assoc_log(before, p),
    {
        if paths_contain(before, p) {
            let j = path_index_of(before, p);
            assert(before[j].0@ == p);
            assert(after[j].0@ == p);
            lemma_path_index_unique(before, p, j);
            lemma_path_index_unique(after, p, j);
        } else {
            if paths_contain(after, p) {
                let j = path_index_of(after, p);
                assert(after[j].0@ == p);
                assert(j < before.len());
                assert(before[j].0@ == p);
            }
        }
    }
}

} // verus!
