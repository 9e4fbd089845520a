//! An in-process metrics library: producers record numeric observations into
//! named histograms, a collector owns the storage, and the whole state can be
//! serialized to a JSON-like structure at any time.

use vstd::prelude::*;

pub mod assoc;
pub mod indexing;
pub mod json;
pub mod keyed;
pub mod misc;
pub mod plain;
pub mod service;
pub mod single;
pub mod task;
pub mod telemetry;
mod vecmap;

verus! {

/// Data that may be converted to numbers for storage in a histogram.
pub use misc::Flatten;

/// A serialization format, as a subset of JSON.
pub use misc::SerializationFormat;

/// A subset of the data to export.
pub use misc::Subset;

/// The JSON-like value that serialization produces.
pub use json::Json;

/// Plain histograms.
pub use plain::Histogram;

/// Keyed histograms.
pub use keyed::KeyedHistogram;

/// The telemetry service. You need one (or more) per application.
pub use service::Service;

} // verus!
