//! Filtered Space-Saving: approximate top-k heavy hitters of a stream under fixed memory.
//!
//! A small filter of hashed counters absorbs rare values; a bounded list, kept
//! ordered weakest first, tracks the current top-k candidates.
pub mod element;
pub mod model;
pub mod fss;
pub mod laws;

pub use element::{BitmapCounter, CellFSS, Element, MonitoredList};
pub use fss::FilterdSpaceSaving;
