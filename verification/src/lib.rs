//! Reading, merging and re-serializing fixed-length framed seismic
//! waveform records (the MiniSEED format).
//!
//! The crate decodes a record's fixed header into a structured time base
//! and typed sample buffer, converts between the compact on-disk time
//! encoding and a continuous microsecond timestamp, and assembles records
//! from one or more channels into ordered trace segments with healing,
//! sorting and gap/availability analysis.

pub mod error;
pub mod record;
pub mod stream;

pub mod time;
pub mod trace;
pub mod wire;

pub use error::MsError;
pub use record::{Data, EncodingKind, ms_record};
pub use time::BTime;
pub use trace::{Trace, TraceGroup};
