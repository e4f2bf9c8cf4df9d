use vstd::prelude::*;

verus! {

/// The failure conditions of the storage engine and of the ledger.
#[derive(Clone, Copy, Debug, PartialEq, Eq, Structural)]
pub enum Error {
    /// A table probe scanned every slot without finding the key or an
    /// empty slot: the table must grow before the operation is retried.
    NoSpace,
    /// A ledger range request reaches past the current end of the log.
    OutOfRange,
    /// The durable store could not be read or written.
    Io,
    /// A read-only query named a key that holds no account.
    KeyNotFound,
}

} // verus!
