use std::io::Error as IoError;
use std::io::ErrorKind;
use vstd::prelude::*;
use vstd::string::StringExecFns;

verus! {

#[verifier::external_type_specification]
#[verifier::external_body]
pub struct ExIoError(IoError);

/// Specifies an asset format. There may be several formats for the same asset.
pub trait AssetFormat {
    /// The typical file extension of this format, without the leading `"."`.
    fn file_extension() -> &'static str;
}

/// An asset store may be a ".zip" file, a server, a custom binary format
/// containing levels, or just a directory.
pub trait AssetStore {
    /// Read an asset from a given name and format and return the bytes.
    fn read_asset<F: AssetFormat>(&self, name: &str, format: F) -> Result<Vec<u8>, AssetStoreError>;
}

/// Error raised if an asset could not be loaded from the asset store.
#[derive(Debug)]
pub enum AssetStoreError {
    /// This asset does not exist in this asset store. The name carries no
    /// file extension: that comes with the format.
    NoSuchAsset,
    /// Not enough permissions to read this resource.
    PermissionDenied,
    /// Reading this resource timed out.
    Timeout,
    /// The asset store is not available, for instance an offline server.
    NotAvailable,
    /// Some error which does not match any of the above.
    Other(String),
}

/// The kinds of I/O failure that an asset store tells apart; the rest are
/// carried by their debug text.
pub enum IoFailure {
    NotFound,
    PermissionDenied,
    ConnectionRefused,
    ConnectionAborted,
    ConnectionReset,
    NotConnected,
    AddrInUse,
    AddrNotAvailable,
    BrokenPipe,
    TimedOut,
    Unlisted(String),
}

/// Whether `e` is the asset store error for the I/O failure `f`; a kind
/// with no variant of its own becomes `Other` with its text after `"Other: "`.
pub open spec fn is_store_error_of(f: IoFailure, e: AssetStoreError) -> bool {
    match f {
        IoFailure::NotFound => e == AssetStoreError::NoSuchAsset,
        IoFailure::PermissionDenied => e == AssetStoreError::PermissionDenied,
        IoFailure::TimedOut => e == AssetStoreError::Timeout,
        IoFailure::Unlisted(text) => match e {
            AssetStoreError::Other(x) => x@ == "Other: "@ + text@,
            _ => false,
        },
        _ => e == AssetStoreError::NotAvailable,
    }
}

/// The text shown for an asset store error.
pub open spec fn message_of(e: AssetStoreError) -> Seq<char> {
    match e {
        AssetStoreError::NoSuchAsset => "No such asset"@,
        AssetStoreError::PermissionDenied => "You do not have enough permissions to access this asset"@,
        AssetStoreError::Timeout => "A timeout occured when trying to read the asset"@,
        AssetStoreError::NotAvailable => "The asset storage could not be reached"@,
        AssetStoreError::Other(x) => "Othere error: "@ + x@,
    }
}

/// Relies on `std::io::Error::kind`: tells the kinds apart one for one,
/// and gives any other kind as its debug text.
#[verifier::external_body]
fn io_failure_of(e: &IoError) -> IoFailure {
    match e.kind() {
        ErrorKind::NotFound => IoFailure::NotFound,
        ErrorKind::PermissionDenied => IoFailure::PermissionDenied,
        ErrorKind::ConnectionRefused => IoFailure::ConnectionRefused,
        ErrorKind::ConnectionAborted => IoFailure::ConnectionAborted,
        ErrorKind::ConnectionReset => IoFailure::ConnectionReset,
        ErrorKind::NotConnected => IoFailure::NotConnected,
        ErrorKind::AddrInUse => IoFailure::AddrInUse,
        ErrorKind::AddrNotAvailable => IoFailure::AddrNotAvailable,
        ErrorKind::BrokenPipe => IoFailure::BrokenPipe,
        ErrorKind::TimedOut => IoFailure::TimedOut,
        x => IoFailure::Unlisted(format!("{:?}", x)),
    }
}

impl AssetStoreError {
    /// The asset store error for an I/O failure: a missing file is a missing
    /// asset, connection failures mean the store is unavailable.
    pub fn from_io_failure(f: IoFailure) -> (r: Self)
        ensures
            is_store_error_of(f, r),
    {
        match f {
            IoFailure::NotFound => AssetStoreError::NoSuchAsset,
            IoFailure::PermissionDenied => AssetStoreError::PermissionDenied,
            IoFailure::TimedOut => AssetStoreError::Timeout,
            IoFailure::Unlisted(text) => AssetStoreError::Other(String::from_str("Other: ").concat(text.as_str())),
            IoFailure::ConnectionRefused | IoFailure::ConnectionAborted | IoFailure::ConnectionReset
            | IoFailure::NotConnected | IoFailure::AddrInUse | IoFailure::AddrNotAvailable
            | IoFailure::BrokenPipe => AssetStoreError::NotAvailable,
        }
    }

    /// The text shown for this error.
    pub fn message(&self) -> (r: String)
        ensures
            r@ == message_of(*self),
    {
        match self {
            AssetStoreError::NoSuchAsset => String::from_str("No such asset"),
            AssetStoreError::PermissionDenied => String::from_str(
                "You do not have enough permissions to access this asset",
            ),
            AssetStoreError::Timeout => String::from_str(
                "A timeout occured when trying to read the asset",
            ),
            AssetStoreError::NotAvailable => String::from_str("The asset storage could not be reached"),
            AssetStoreError::Other(x) => String::from_str("Othere error: ").concat(x.as_str()),
        }
    }
}

impl From<IoError> for AssetStoreError {
    fn from(e: IoError) -> Self {
        AssetStoreError::from_io_failure(io_failure_of(&e))
    }
}

impl vstd::std_specs::convert::FromSpecImpl<IoError> for AssetStoreError {
    open spec fn obeys_from_spec() -> bool {
        false
    }

    open spec fn from_spec(v: IoError) -> Self {
        AssetStoreError::NotAvailable
    }
}

} // verus!
