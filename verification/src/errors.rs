use vstd::prelude::*;

verus! {

/// What went wrong while decoding the textual header.
#[derive(Clone, Copy, Debug, PartialEq, Eq, Structural)]
pub enum FormatKind {
    /// The first line of the file is not the magic token.
    BadMagic,
    /// The dimension line is absent, or one of its three tokens is
    /// missing or unparsable.
    MissingMetadata,
}

/// The error taxonomy of the library.
#[derive(Clone, Copy, Debug, PartialEq, Eq, Structural)]
pub enum ImageError {
    /// The path does not exist or cannot be opened for reading.
    NotFound,
    /// The header is malformed; the payload was not touched.
    FormatError(FormatKind),
    /// Two images of different width or height were accumulated or compared.
    GeometryMismatch,
    /// The binary payload holds fewer samples than the header announces.
    TruncatedPayload,
    /// A write failed while saving.
    IoError,
}

/// The byte order in which a payload is laid out on disk.  The encoder
/// takes it as an explicit argument; callers that want the platform's
/// own order detect it outside the library and pass it in.
#[derive(Clone, Copy, Debug, PartialEq, Eq, Structural)]
pub enum HostByteOrder {
    Little,
    Big,
}

} // verus!
