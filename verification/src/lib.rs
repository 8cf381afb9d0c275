//! A durable, truncatable log of versions of shard metadata.
//!
//! A shard's metadata (its [`state::State`]) is made durable in two ways: as
//! periodic full copies ("rollups") written to a [`location::Blob`] store, and
//! as incremental [`diff::StateDiff`]s written to a [`location::Consensus`]
//! log. [`versions::StateVersions`] coordinates the two stores to provide
//! single-writer linearizable updates, latest-state retrieval, bounded history
//! reconstruction, and safe truncation of old versions. The laws the two
//! stores jointly obey are stated and proved in [`laws`].

use vstd::prelude::*;

pub mod codec;
pub mod diff;
pub mod error;
pub mod laws;
pub mod location;
pub mod paths;
pub mod plan;
pub mod seqno;
pub mod state;
pub mod versions;

verus! {

} // verus!
