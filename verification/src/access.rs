use vstd::prelude::*;

verus! {

/// Read (shared) or write (exclusive) intent on a resource.
#[derive(Clone, Copy, PartialEq, Eq, Structural, Debug)]
pub enum AccessKind {
    Read,
    Write,
}

/// One declared access of a transaction: a resource key together with the
/// intent on it. Resource keys are dense small integers; a caller interns
/// its own identifiers (for example account addresses) into `0..K` before
/// handing transactions to the graph builder.
#[derive(Clone, Copy, PartialEq, Eq, Structural, Debug)]
pub struct Access {
    pub key: usize,
    pub kind: AccessKind,
}

} // verus!
