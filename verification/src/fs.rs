//! Filesystem level error definitions.
use vstd::prelude::*;

verus! {

/// [`NvFsError::IoError`] details.
#[derive(Debug, PartialEq, Eq, Clone, Copy, Structural)]
pub enum NvFsIoError {
    /// Read or write region out of the underlying physical storage's bounds.
    RegionOutOfRange,
    /// Read from a region never written to before or which had been trimmed
    /// since.
    RegionNotMapped,
    /// Unspecified IO failure.
    IoFailure,
}

/// Failure of some cryptographic primitive.
///
/// Failures with any sensitive details to them are represented as
/// [`UnspecifiedFailure`](Self::UnspecifiedFailure).
#[derive(Debug, PartialEq, Eq, Clone, Copy, Structural)]
pub enum CryptoError {
    /// Logic error.
    Internal,
    /// A memory allocation has failed.
    MemoryAllocationFailure,
    /// Some input or output buffer is in indeterminate state.
    BufferStateIndeterminate,
    /// Random number generation failure.
    RngFailure,
    /// Unspecified failure.
    UnspecifiedFailure,
}

/// Random number generation failure.
#[derive(Debug, PartialEq, Eq, Clone, Copy, Structural)]
pub enum RngGenerateError {
    /// The random number generator needs to get reseeded.
    ReseedRequired,
    /// Some cryptographic primitive failed.
    CryptoError(CryptoError),
}

/// Failure of an IO request to the underlying block device.
#[derive(Debug, PartialEq, Eq, Clone, Copy, Structural)]
pub enum NvBlkDevIoError {
    /// Logic error.
    Internal,
    /// A memory allocation has failed.
    MemoryAllocationFailure,
    /// The operation is not supported.
    OperationNotSupported,
    /// Request to an IO block out of the device's bounds.
    IoBlockOutOfRange,
    /// Read from an IO block never written to before or trimmed since.
    IoBlockNotMapped,
    /// Unspecified IO failure.
    IoFailure,
}

/// Failure to create a heap allocated value.
#[derive(Debug, PartialEq, Eq, Clone, Copy, Structural)]
pub enum TryNewError {
    /// A memory allocation has failed.
    MemoryAllocationFailure,
}

/// Failure to allocate memory for a vector.
#[derive(Debug, PartialEq, Eq, Clone, Copy, Structural)]
pub struct FixedVecMemoryAllocationFailure;

/// Failure to create a vector from a function producing its elements.
#[derive(Debug)]
pub enum FixedVecNewFromFnError<E> {
    /// The memory allocation has failed.
    MemoryAllocationFailure,
    /// The function producing the elements returned an error.
    FnError(E),
}

/// Error type returned by filesystem primitives.
#[derive(Debug, PartialEq, Eq, Clone, Copy, Structural)]
pub enum NvFsError {
    /// Logic error.
    Internal,
    /// Permanent internal failure.
    ///
    /// Some internal logic error led to a condition rendering the filesystem
    /// instance unusuable for forever.
    PermanentInternalFailure,
    /// A memory allocation has failed.
    MemoryAllocationFailure,
    /// Stale consistent read sequence.
    Retry,
    /// The operation is not supported.
    OperationNotSupported,
    /// IO error.
    IoError(NvFsIoError),
    /// Some cryptographic primitive failed.
    CryptoError(CryptoError),
    /// Filesystem format error, with an implementation specific error code.
    FsFormatError(isize),
    /// The size of some entity exceeds the supported bounds.
    DimensionsNotSupported,
    /// Authentication failure.
    AuthenticationFailure,
    /// Insufficient free space left on the storage.
    NoSpace,
    /// Attempted to read back some inode's data for which a prior update
    /// operation failed.
    FailedDataUpdateRead,
    /// Attempted to read from, write to or unlink a reserved inode.
    InodeReserved,
}

impl From<TryNewError> for NvFsError {
    fn from(value: TryNewError) -> (r: Self) {
        match value {
            TryNewError::MemoryAllocationFailure => NvFsError::MemoryAllocationFailure,
        }
    }
}

impl vstd::std_specs::convert::FromSpecImpl<TryNewError> for NvFsError {
    open spec fn obeys_from_spec() -> bool {
        true
    }

    open spec fn from_spec(value: TryNewError) -> Self {
        NvFsError::MemoryAllocationFailure
    }
}

impl From<FixedVecNewFromFnError<NvFsError>> for NvFsError {
    fn from(value: FixedVecNewFromFnError<NvFsError>) -> (r: Self) {
        match value {
            FixedVecNewFromFnError::MemoryAllocationFailure => NvFsError::MemoryAllocationFailure,
            FixedVecNewFromFnError::FnError(e) => e,
        }
    }
}

impl vstd::std_specs::convert::FromSpecImpl<FixedVecNewFromFnError<NvFsError>> for NvFsError {
    open spec fn obeys_from_spec() -> bool {
        true
    }

    open spec fn from_spec(value: FixedVecNewFromFnError<NvFsError>) -> Self {
        match value {
            FixedVecNewFromFnError::MemoryAllocationFailure => NvFsError::MemoryAllocationFailure,
            FixedVecNewFromFnError::FnError(e) => e,
        }
    }
}

impl From<core::convert::Infallible> for NvFsError {
    fn from(_value: core::convert::Infallible) -> (r: Self) {
        // Cannot happen, there is no value to convert from.
        NvFsError::Internal
    }
}

impl vstd::std_specs::convert::FromSpecImpl<core::convert::Infallible> for NvFsError {
    open spec fn obeys_from_spec() -> bool {
        true
    }

    open spec fn from_spec(value: core::convert::Infallible) -> Self {
        NvFsError::Internal
    }
}

impl From<FixedVecMemoryAllocationFailure> for NvFsError {
    fn from(_value: FixedVecMemoryAllocationFailure) -> (r: Self) {
        NvFsError::MemoryAllocationFailure
    }
}

impl vstd::std_specs::convert::FromSpecImpl<FixedVecMemoryAllocationFailure> for NvFsError {
    open spec fn obeys_from_spec() -> bool {
        true
    }

    open spec fn from_spec(value: FixedVecMemoryAllocationFailure) -> Self {
        NvFsError::MemoryAllocationFailure
    }
}

impl From<FixedVecNewFromFnError<core::convert::Infallible>> for NvFsError {
    fn from(_value: FixedVecNewFromFnError<core::convert::Infallible>) -> (r: Self) {
        NvFsError::from(FixedVecMemoryAllocationFailure)
    }
}

impl vstd::std_specs::convert::FromSpecImpl<FixedVecNewFromFnError<core::convert::Infallible>> for NvFsError {
    open spec fn obeys_from_spec() -> bool {
        true
    }

    open spec fn from_spec(value: FixedVecNewFromFnError<core::convert::Infallible>) -> Self {
        NvFsError::MemoryAllocationFailure
    }
}

impl From<std::collections::TryReserveError> for NvFsError {
    fn from(_value: std::collections::TryReserveError) -> (r: Self) {
        NvFsError::MemoryAllocationFailure
    }
}

impl vstd::std_specs::convert::FromSpecImpl<std::collections::TryReserveError> for NvFsError {
    open spec fn obeys_from_spec() -> bool {
        true
    }

    open spec fn from_spec(value: std::collections::TryReserveError) -> Self {
        NvFsError::MemoryAllocationFailure
    }
}

impl From<NvBlkDevIoError> for NvFsError {
    fn from(value: NvBlkDevIoError) -> (r: Self) {
        match value {
            NvBlkDevIoError::Internal => NvFsError::Internal,
            NvBlkDevIoError::MemoryAllocationFailure => NvFsError::MemoryAllocationFailure,
            NvBlkDevIoError::OperationNotSupported => NvFsError::OperationNotSupported,
            NvBlkDevIoError::IoBlockOutOfRange => NvFsError::IoError(NvFsIoError::RegionOutOfRange),
            NvBlkDevIoError::IoBlockNotMapped => NvFsError::IoError(NvFsIoError::RegionNotMapped),
            NvBlkDevIoError::IoFailure => NvFsError::IoError(NvFsIoError::IoFailure),
        }
    }
}

impl vstd::std_specs::convert::FromSpecImpl<NvBlkDevIoError> for NvFsError {
    open spec fn obeys_from_spec() -> bool {
        true
    }

    open spec fn from_spec(value: NvBlkDevIoError) -> Self {
        match value {
            NvBlkDevIoError::Internal => NvFsError::Internal,
            NvBlkDevIoError::MemoryAllocationFailure => NvFsError::MemoryAllocationFailure,
            NvBlkDevIoError::OperationNotSupported => NvFsError::OperationNotSupported,
            NvBlkDevIoError::IoBlockOutOfRange => NvFsError::IoError(NvFsIoError::RegionOutOfRange),
            NvBlkDevIoError::IoBlockNotMapped => NvFsError::IoError(NvFsIoError::RegionNotMapped),
            NvBlkDevIoError::IoFailure => NvFsError::IoError(NvFsIoError::IoFailure),
        }
    }
}

impl From<CryptoError> for NvFsError {
    fn from(value: CryptoError) -> (r: Self) {
        match value {
            CryptoError::MemoryAllocationFailure => NvFsError::MemoryAllocationFailure,
            CryptoError::BufferStateIndeterminate => {
                // The only possible cause for buffers being in an
                // indeterminate state is a prior inode data update that failed
                // midway.
                NvFsError::FailedDataUpdateRead
            },
            e => NvFsError::CryptoError(e),
        }
    }
}

impl vstd::std_specs::convert::FromSpecImpl<CryptoError> for NvFsError {
    open spec fn obeys_from_spec() -> bool {
        true
    }

    open spec fn from_spec(value: CryptoError) -> Self {
        match value {
            CryptoError::MemoryAllocationFailure => NvFsError::MemoryAllocationFailure,
            CryptoError::BufferStateIndeterminate => NvFsError::FailedDataUpdateRead,
            e => NvFsError::CryptoError(e),
        }
    }
}

impl From<RngGenerateError> for NvFsError {
    fn from(value: RngGenerateError) -> (r: Self) {
        match value {
            RngGenerateError::CryptoError(e) => NvFsError::from(e),
            RngGenerateError::ReseedRequired => NvFsError::from(CryptoError::RngFailure),
        }
    }
}

impl vstd::std_specs::convert::FromSpecImpl<RngGenerateError> for NvFsError {
    open spec fn obeys_from_spec() -> bool {
        true
    }

    open spec fn from_spec(value: RngGenerateError) -> Self {
        match value {
            RngGenerateError::CryptoError(CryptoError::MemoryAllocationFailure) => {
                NvFsError::MemoryAllocationFailure
            },
            RngGenerateError::CryptoError(CryptoError::BufferStateIndeterminate) => {
                NvFsError::FailedDataUpdateRead
            },
            RngGenerateError::CryptoError(e) => NvFsError::CryptoError(e),
            RngGenerateError::ReseedRequired => NvFsError::CryptoError(CryptoError::RngFailure),
        }
    }
}

/// Error information returned for transaction commit failures.
#[derive(Debug, PartialEq, Eq, Clone, Copy, Structural)]
pub enum TransactionCommitError {
    /// The transaction commit failed and the actual state stored on the backend
    /// is equivalent to what it had been before the failed transaction
    /// commit attempt.
    LogStateClean { reason: NvFsError },
    /// The commit operation failed at some point, but it is unknown what the
    /// actual state on the storage backend is.
    ///
    /// It could be either in the original state from before the transaction or
    /// it might also have got the transaction applied insofar as the changes
    /// would become effective after a remount, e.g. due to some journal replay
    /// mechanism.
    LogStateIndeterminate { reason: NvFsError },
}

} // verus!
