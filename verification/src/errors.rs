use vstd::prelude::*;

verus! {

/// The error kinds the transfer engine distinguishes.
///
/// Per-file operations convert their failures into one of these and the
/// run continues; batch-level operations (fetching the remote manifest,
/// reaching the source directory) propagate them as fatal.
#[derive(Clone, Copy, Debug, PartialEq, Eq, Structural)]
pub enum FilerError {
    /// A required configuration entry is absent.
    ConfigMissing,
    /// A request envelope is not an even-length hex string, or its
    /// payload is not a well-formed request object.
    MalformedEnvelope,
    /// A requested file does not exist.
    NotFound,
    /// A disk read or write failed.
    Io,
    /// A network operation failed.
    Transport,
    /// The server answered with a status this protocol does not use.
    BadStatus,
    /// A transferred file's size or digest disagrees with its manifest
    /// entry.
    IntegrityError,
    /// A manifest line does not have the `digest,size,path` shape.
    ManifestParse,
    /// A range read starts past the end of the file.
    OutOfRange,
}

} // verus!
