use vstd::prelude::*;

verus! {

/// Errors of reading and writing the files that the library describes.
#[derive(Debug)]
pub enum FormatError {
    IoError(String),
    Unknown,
}

impl FormatError {
    /// A short human-readable description.
    pub fn message(&self) -> (r: String)
        ensures
            self is Unknown ==> r@ == "unknown data store error"@,
            self matches FormatError::IoError(m) ==> r@ == m@,
    {
        match self {
            FormatError::IoError(m) => m.clone(),
            FormatError::Unknown => String::from_str("unknown data store error"),
        }
    }
}

/// Every way a map build can fail. Each variant that concerns a particular
/// identifier carries it, so that an operator can tell what went wrong where.
#[derive(Debug)]
pub enum MapError {
    /// No API credential was configured.
    CredentialMissing,
    /// The geocode could not be resolved (or is missing from the cache).
    LookupFailure(String),
    /// The persisted location cache could not be read back.
    CacheCorrupt(String),
    /// A viewport needs at least one point.
    InsufficientPoints,
    /// The points span zero degrees of latitude or of longitude.
    DegenerateViewport,
    /// The location with this id has a title that gives no marker label.
    InvalidMarkerLabel(String),
    /// Fetching the resource with this address failed.
    DownloadFailure(String),
    /// Writing the file at this path failed.
    WriteFailure(String),
}

} // verus!
