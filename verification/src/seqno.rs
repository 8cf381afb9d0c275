//! Sequence numbers: the dense, monotone version counter of a shard.

use vstd::prelude::*;

verus! {

/// An opaque sequence number of a shard's version log.
///
/// SeqNos are densely allocated: the first state written to an initialized
/// shard is `SeqNo(1)`, and each subsequent state is assigned its
/// predecessor's SeqNo plus one. `SeqNo(0)` is the reserved "before-first"
/// number and never names a written state.
#[derive(Clone, Copy, Debug, PartialEq, Eq, Hash, Structural)]
pub struct SeqNo(pub u64);

impl SeqNo {
    /// The smallest possible SeqNo, reserved as "before the first write".
    pub fn minimum() -> (r: SeqNo)
        ensures
            r == SeqNo(0),
    {
        SeqNo(0)
    }

    /// The successor SeqNo.
    pub fn next(self) -> (r: SeqNo)
        requires
            self.0 < u64::MAX,
        ensures
            r.0 == self.0 + 1,
    {
        SeqNo(self.0 + 1)
    }

}

} // verus!
