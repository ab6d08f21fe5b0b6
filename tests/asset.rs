use std::io::{Error, ErrorKind};

use asset_store::asset::{AssetStoreError, IoFailure};

#[test]
fn io_errors_map_to_store_errors() {
    assert!(matches!(AssetStoreError::from(Error::from(ErrorKind::NotFound)), AssetStoreError::NoSuchAsset));
    assert!(matches!(
        AssetStoreError::from(Error::from(ErrorKind::PermissionDenied)),
        AssetStoreError::PermissionDenied
    ));
    assert!(matches!(AssetStoreError::from(Error::from(ErrorKind::TimedOut)), AssetStoreError::Timeout));
    for kind in [
        ErrorKind::ConnectionRefused,
        ErrorKind::ConnectionAborted,
        ErrorKind::ConnectionReset,
        ErrorKind::NotConnected,
        ErrorKind::AddrInUse,
        ErrorKind::AddrNotAvailable,
        ErrorKind::BrokenPipe,
    ] {
        assert!(matches!(AssetStoreError::from(Error::from(kind)), AssetStoreError::NotAvailable));
    }
    match AssetStoreError::from(Error::from(ErrorKind::InvalidData)) {
        AssetStoreError::Other(text) => assert_eq!(text, "Other: InvalidData"),
        _ => panic!("expected Other"),
    }
}

#[test]
fn io_failure_mapping() {
    assert!(matches!(AssetStoreError::from_io_failure(IoFailure::BrokenPipe), AssetStoreError::NotAvailable));
    assert!(matches!(AssetStoreError::from_io_failure(IoFailure::NotFound), AssetStoreError::NoSuchAsset));
    match AssetStoreError::from_io_failure(IoFailure::Unlisted("t".to_string())) {
        AssetStoreError::Other(text) => assert_eq!(text, "Other: t"),
        _ => panic!("expected Other"),
    }
}

#[test]
fn error_messages() {
    assert_eq!(AssetStoreError::NoSuchAsset.message(), "No such asset");
    assert_eq!(
        AssetStoreError::PermissionDenied.message(),
        "You do not have enough permissions to access this asset"
    );
    assert_eq!(AssetStoreError::Timeout.message(), "A timeout occured when trying to read the asset");
    assert_eq!(AssetStoreError::NotAvailable.message(), "The asset storage could not be reached");
    assert_eq!(AssetStoreError::Other("disk".to_string()).message(), "Othere error: disk");
}
