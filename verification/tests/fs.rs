use cocoonfs::fs::{
    CryptoError, FixedVecMemoryAllocationFailure, FixedVecNewFromFnError, NvBlkDevIoError, NvFsError, NvFsIoError,
    RngGenerateError, TryNewError,
};

#[test]
fn try_new_error_converts() {
    assert_eq!(NvFsError::from(TryNewError::MemoryAllocationFailure), NvFsError::MemoryAllocationFailure);
}

#[test]
fn vector_allocation_failures_convert() {
    assert_eq!(NvFsError::from(FixedVecMemoryAllocationFailure), NvFsError::MemoryAllocationFailure);
    assert_eq!(
        NvFsError::from(FixedVecNewFromFnError::<NvFsError>::MemoryAllocationFailure),
        NvFsError::MemoryAllocationFailure
    );
    assert_eq!(
        NvFsError::from(FixedVecNewFromFnError::FnError(NvFsError::NoSpace)),
        NvFsError::NoSpace
    );
    assert_eq!(
        NvFsError::from(FixedVecNewFromFnError::<core::convert::Infallible>::MemoryAllocationFailure),
        NvFsError::MemoryAllocationFailure
    );
}

#[test]
fn failed_reservation_converts() {
    let mut v: Vec<u64> = Vec::new();
    let e = v.try_reserve(usize::MAX).unwrap_err();
    assert_eq!(NvFsError::from(e), NvFsError::MemoryAllocationFailure);
}

#[test]
fn block_device_errors_convert() {
    let cases = [
        (NvBlkDevIoError::Internal, NvFsError::Internal),
        (NvBlkDevIoError::MemoryAllocationFailure, NvFsError::MemoryAllocationFailure),
        (NvBlkDevIoError::OperationNotSupported, NvFsError::OperationNotSupported),
        (NvBlkDevIoError::IoBlockOutOfRange, NvFsError::IoError(NvFsIoError::RegionOutOfRange)),
        (NvBlkDevIoError::IoBlockNotMapped, NvFsError::IoError(NvFsIoError::RegionNotMapped)),
        (NvBlkDevIoError::IoFailure, NvFsError::IoError(NvFsIoError::IoFailure)),
    ];
    for (e, expected) in cases {
        assert_eq!(NvFsError::from(e), expected);
    }
}

#[test]
fn crypto_errors_convert() {
    let cases = [
        (CryptoError::MemoryAllocationFailure, NvFsError::MemoryAllocationFailure),
        (CryptoError::BufferStateIndeterminate, NvFsError::FailedDataUpdateRead),
        (CryptoError::Internal, NvFsError::CryptoError(CryptoError::Internal)),
        (CryptoError::RngFailure, NvFsError::CryptoError(CryptoError::RngFailure)),
        (CryptoError::UnspecifiedFailure, NvFsError::CryptoError(CryptoError::UnspecifiedFailure)),
    ];
    for (e, expected) in cases {
        assert_eq!(NvFsError::from(e), expected);
        assert_eq!(NvFsError::from(RngGenerateError::CryptoError(e)), expected);
    }
    assert_eq!(
        NvFsError::from(RngGenerateError::ReseedRequired),
        NvFsError::CryptoError(CryptoError::RngFailure)
    );
}
