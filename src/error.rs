use vstd::prelude::*;

verus! {

/// Error kinds of the patching engine.
#[derive(Debug, Clone, PartialEq, Eq)]
pub enum Error {
    /// Filesystem or transport failure.
    Io(String),
    /// All mirrors failed, or the patch list could not be fetched.
    DownloadFailed(String),
    /// A zlib or gzip stream could not be decoded.
    Decompression(String),
    /// A length or offset points past the end of the data. Carrier readers
    /// report a record cut short as `Io`, as a failed read would be.
    UnexpectedEof,
    /// An RGZ stream holds a record tag other than `f`, `d` or `e`.
    InvalidRgzFormat,
    /// A THOR file does not start with the THOR magic.
    InvalidThorHeader,
    /// A THOR header names a mode other than `0x30` and `0x21`.
    UnsupportedThorMode(i16),
    /// A GRF file has a bad magic, an unsupported version or a bad table.
    InvalidGrfFormat,
    /// A logical failure while applying a patch.
    PatchFailed(String),
    /// A bounded length was exceeded, or another rule of a format was broken.
    Custom(String),
}

/// The error of a read that ran past the end of the data.
pub fn truncated() -> (e: Error)
    ensures
        e is Io,
{
    Error::Io("failed to fill whole buffer".to_owned())
}

/// The error that a carrier reader gives where its format says `e`: a record cut
/// short is an I/O error, anything else is `e` itself.
pub open spec fn reported_as(r: Error, e: Error) -> bool {
    if e is UnexpectedEof {
        r is Io
    } else {
        r == e
    }
}

} // verus!
