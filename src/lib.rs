//! Decoding of PFS0 archives: a header, a table of file entries, a table of
//! null-terminated names, then the files' data, all concatenated.
pub mod archive;
pub mod error;
pub mod read_bytes;

pub use archive::FileEntryTable;
pub use archive::NSPFile;
pub use archive::NamedFile;
pub use error::NSPError;
pub use read_bytes::ReadBytesExt;
