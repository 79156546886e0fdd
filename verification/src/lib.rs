//! A keyed collection of growable series, all kept at the same length.
//!
//! `HashMapVec<K, V>` maps keys to sequences of values.  Every mutation
//! that advances one series by a value pads all the other series with a
//! default value, so that after each operation all series share one
//! common length: the number of logical steps taken so far.

pub mod hashmap_vec;
pub mod traits;

pub use hashmap_vec::HashMapVec;
pub use traits::SeriesKey;
pub use traits::PadDefault;
