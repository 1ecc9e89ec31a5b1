//! An in-memory multi-dimensional indexed store for proximity-beacon
//! observation records. Each record carries a hardware address, a signal
//! strength, a timestamp and a geographic position; the store answers
//! point, range, spatial and conjunctive queries over an append-only
//! collection of such records.
pub mod bucket_index;
pub mod cube;
pub mod geomath;
pub mod obs;
pub mod polygon;
pub mod seq_facts;
pub mod spatial;

pub use cube::BleCube;
pub use obs::BleObservation;
