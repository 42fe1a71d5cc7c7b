//! Filesystem read contexts and futures.
use vstd::prelude::*;

verus! {

/// A filesystem.
pub trait NvFs: Sized {
    /// Representation of a consistent read sequence.
    ///
    /// It enters a "stale" state once some [`Transaction`](Self::Transaction)
    /// gets committed.
    type ConsistentReadSequence: Clone + for<'a>From<&'a Self::Transaction>;

    /// Representation of a transaction during its preparation phase.
    ///
    /// A `Transaction` is implicitly considered a
    /// [`ConsistentReadSequence`](Self::ConsistentReadSequence) itself.
    type Transaction;
}

/// Filesystem read context.
///
/// Passed to any read primitive for specifying whether to read the state as
/// committed to storage or, alternatively, through some transaction.
pub enum NvFsReadContext<FS: NvFs> {
    /// Read the state as last committed to storage.
    Committed {
        /// The consistent read sequence.
        seq: FS::ConsistentReadSequence,
    },
    /// Read the state through a transaction.
    ///
    /// Read the state as if `transaction` had been committed to storage.
    Transaction {
        /// The transaction.
        transaction: FS::Transaction,
    },
}

impl<FS: NvFs> NvFsReadContext<FS> {
    /// Obtain the consistent read sequence, either the one specified directly or
    /// the one implicit to the transaction.
    pub fn as_seq(&self) -> (r: FS::ConsistentReadSequence)
        ensures
            match *self {
                NvFsReadContext::Committed { seq } => cloned(seq, r),
                NvFsReadContext::Transaction { transaction } => call_ensures(
                    <FS::ConsistentReadSequence as From<&FS::Transaction>>::from,
                    (&transaction,),
                    r,
                ),
            },
    {
        match self {
            NvFsReadContext::Committed { seq } => seq.clone(),
            NvFsReadContext::Transaction { transaction } => FS::ConsistentReadSequence::from(transaction),
        }
    }
}

} // verus!
