//! Tools for EGS phase-space files: a binary codec for the fixed-format
//! header and particle records, in-memory streaming readers and writers,
//! and the file-level operations built on them — combining, comparing,
//! resampling, record mapping and a bounded-memory random permutation.

pub mod binary32;
pub mod codec;
pub mod error;
pub mod header;
pub mod ops;
pub mod record;
mod rng;
pub mod stream;
mod wide;

pub use error::{EGSError, EGSResult};
pub use header::{Header, Mode};
pub use ops::{combine, compare, map_records, randomize, sample_combine, SampleRate};
pub use record::Record;
pub use stream::{read_file, write_file, PHSPReader, PHSPWriter};
