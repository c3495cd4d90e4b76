use vstd::prelude::*;

verus! {

/// What can go wrong while decoding bytes or a PFS0 archive.
#[derive(Debug, PartialEq, Eq, Structural)]
#[non_exhaustive]
pub enum NSPError {
    /// A typed read needed more bytes than the source still held.
    UnexpectedEof,
    /// A sized blob declared a length smaller than its own 8-byte length field.
    SizeFieldTooSmall,
    /// A null-terminated string was not valid UTF-8.
    InvalidUtf8,
    /// A length-prefixed wide string was not valid UTF-16.
    InvalidUtf16,
    /// The archive did not start with the signature `PFS0`.
    BadMagic,
    /// The archive ended inside its 16-byte header.
    TruncatedHeader,
    /// The archive ended inside the record of the entry with this index.
    TruncatedEntry(u32),
    /// The archive ended inside its string table.
    TruncatedStringTable,
    /// The string table held no terminated name for the entry with this index.
    MissingName(u32),
    /// The name of the entry with this index was not valid UTF-8.
    InvalidName(u32),
    /// The archive ended inside the data of the entry with this index.
    TruncatedData(u32),
}

} // verus!
