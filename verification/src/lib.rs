//! Building blocks of an approximate nearest-neighbour index over integer
//! identifiers: identifier sets in two representations, bit-sliced saturating
//! counters on top of them, a bounded best-hits collector, and the bucket
//! index that ties them together.
//!
//! Similarities enter the library as integer keys that order the same way as
//! the scores they stand for; a score that is not a number has no key.

pub mod bitmap;
pub mod counting;
pub mod dense;
pub mod error;
pub mod ranking;
pub mod result;
pub mod search;
pub mod spaces;
pub mod sparse;
pub mod store;

pub use bitmap::{Bitmap, ID};
pub use counting::CountingBitmap;
pub use dense::DenseBitmap;
pub use error::SearchError;
pub use result::{Hit, ResultSet};
pub use search::{full_table_scan_search, Similarity};
pub use spaces::{check_dimension, pack_code};
pub use store::{overscan_budget, VectorStore};
