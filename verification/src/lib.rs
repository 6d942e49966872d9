//! Reading and writing of the FASTA text format for biological sequences,
//! together with an index-backed random-access mode: given a side-file that
//! records, per sequence, its length and line-wrapping layout, a range of
//! bases can be fetched by pure offset arithmetic instead of scanning the
//! whole file.
//!
//! The library works on in-memory byte strings; opening files and other
//! plumbing stays outside of it.

pub mod bytes;
pub mod error;
pub mod index;
pub mod indexed;
pub mod reader;
pub mod record;
pub mod writer;

pub use error::Error;
pub use index::Index;
pub use index::IndexRecord;
pub use index::Sequence;
pub use indexed::IndexedReader;
pub use reader::Reader;
pub use reader::Records;
pub use record::Record;
pub use writer::Writer;
