//! A verified indexing and query core for time-stamped sensor readings.
//!
//! Readings are stored twice in an embedded ordered key-value store, under a
//! time-primary key and under a sensor-primary key, so that time-window
//! queries and per-sensor queries are both answered by one ordered scan.
//! The key codec, the dual-index writes and scans, the query engine, the
//! response downsampler, the retention pruner and the device log ring are
//! verified; the embedded store itself is trusted through contracts on the
//! few calls made into it.

use vstd::prelude::*;

pub mod device_logs;
pub mod downsample;
pub mod keys;
pub mod payload;
pub mod prune;
pub mod query;
pub mod store;

pub use downsample::lemma_downsample_bound;
pub use query::fetch_measurements;
pub use query::MeasurementQuery;
pub use device_logs::DeviceLogs;
pub use device_logs::LogEntry;
pub use keys::decode_sensor_prefixed_key;
pub use keys::decode_ts_prefixed_key;
pub use keys::get_sensor_prefixed_key;
pub use keys::get_ts_prefixed_key;
pub use keys::u64_be_vec;
pub use keys::KeyDecodingError;
pub use keys::Measurement;
pub use keys::MeasurementView;
pub use store::decode_entries;
pub use store::fetch_all_measurements;
pub use store::fetch_measurements_by_sensor;
pub use store::fetch_measurements_by_ts;
pub use store::insert_measurements;
pub use store::ts_bound_to_key;
pub use store::DbState;
pub use store::IoError;
pub use store::KeyBound;
pub use store::TsBound;
pub use store::MAX_POINTS_TO_PROCESS;
