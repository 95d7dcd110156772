//! A `k`-way merge of sorted sources driven by a tournament (a selection
//! structure holding one pending candidate per active source).
//!
//! Given `k` sources, each sorted by the same ordering strategy, the
//! merges produce the combined items in that order, lazily, one step at a
//! time.
use vstd::prelude::*;

pub mod comparator;
pub mod iter_tournament;
pub mod merge;
pub mod streaming_tournament;

pub use comparator::{Comparator, MaxComparator, MinComparator};
pub use iter_tournament::Tournament;
pub use streaming_tournament::{BufferSource, StreamingTournament};

verus! {

} // verus!
