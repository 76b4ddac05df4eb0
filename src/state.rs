//! The lifecycle of a transaction handle, apart from the driver session it
//! may own.
use vstd::prelude::*;

verus! {

/// Whether a transaction handle owns a session with an open transaction,
/// and whether that transaction has been committed.
#[derive(Debug, PartialEq, Eq, Clone, Copy, Structural)]
pub struct TransactionState {
    pub has_session: bool,
    pub committed: bool,
}

impl TransactionState {
    /// A fresh handle from a connection: it owns a session exactly where the
    /// deployment supports transactions; otherwise the connection downgrades
    /// to running without one.
    pub fn for_connection(supports_transaction: bool) -> (r: TransactionState)
        ensures
            r.has_session == supports_transaction,
            !r.committed,
    {
        TransactionState { has_session: supports_transaction, committed: false }
    }

    /// A handle that runs without a session.
    pub fn no_transaction() -> (r: TransactionState)
        ensures
            !r.has_session,
            !r.committed,
    {
        TransactionState { has_session: false, committed: false }
    }

    /// Whether the handle owns a session.
    pub fn is_transaction(&self) -> (r: bool)
        ensures
            r == self.has_session,
    {
        self.has_session
    }

    /// Whether the handle's transaction has been committed.
    pub fn is_committed(&self) -> (r: bool)
        ensures
            r == self.committed,
    {
        self.committed
    }

    /// Whether commands go through the session: only while there is one and
    /// it has not been committed; afterwards they run without a session.
    pub fn uses_session(&self) -> (r: bool)
        ensures
            r == (self.has_session && !self.committed),
    {
        self.has_session && !self.committed
    }

    /// Whether a commit or an abort is forwarded to the driver; without a
    /// session both succeed at once.
    pub fn forwards_to_driver(&self) -> (r: bool)
        ensures
            r == self.has_session,
    {
        self.has_session
    }

    /// Records the outcome of a commit: a handle with a session becomes
    /// committed once its commit succeeds, and stays committed.
    pub fn record_commit(&mut self, succeeded: bool)
        ensures
            final(self).has_session == old(self).has_session,
            final(self).committed == (old(self).committed || (old(self).has_session && succeeded)),
    {
        if self.has_session && succeeded {
            self.committed = true;
        }
    }

    /// A handle for a nested query context: it shares the session and its
    /// state.
    pub fn spawn(&self) -> (r: TransactionState)
        ensures
            r == *self,
    {
        *self
    }
}

} // verus!
