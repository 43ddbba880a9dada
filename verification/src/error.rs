use vstd::prelude::*;

verus! {

/// A structural invariant of the topology that does not hold, named
/// precisely so the operator knows what to repair.
#[derive(Debug, Clone, PartialEq, Eq)]
pub enum Violation {
    /// A slot in [0, 16383] that no master claims.
    MissingSlot(u16),
    /// A slot claimed by more than one master with no migration marker.
    DuplicateOwner(u16),
    /// A replica whose `master_id` matches no known master; the payload is
    /// the index of the replica in the node table.
    DanglingReplica(usize),
}

/// Every failure the cluster tool can report.
#[derive(Debug, Clone, PartialEq, Eq)]
pub enum Error {
    /// A structural invariant of the topology is violated.
    BadCluster(Violation),
    /// A referenced node or address is absent from the topology.
    NotFound,
    /// Node views never converged within the polling bound.
    ConvergenceTimeout,
    /// A slot was left in an open state after key-transfer retries ran out.
    MigrationFailed,
    /// Transport-level failure talking to a node.
    ConnectionError,
    /// An argument outside the operation's domain, such as dividing by
    /// zero parts or asking for more masters than nodes.
    InvalidInput,
    /// A reply from a node did not parse as the expected table.
    BadReply,
}

} // verus!
