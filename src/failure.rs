use vstd::prelude::*;

verus! {

/// The status codes that cross the component boundary.
#[derive(Clone, Copy, Debug, PartialEq, Eq, Structural)]
pub enum Status {
    /// A malformed input, a missing required reference, or an unknown node or class.
    InvalidArgument,
    /// An index past a child count, or a node that was never laid out.
    OutOfBounds,
}

/// The internal kinds of failure, each carrying the node (as engine bits) it concerns.
#[derive(Clone, Copy, Debug, PartialEq, Eq, Structural)]
pub enum Failure {
    /// A child index at or past the parent's child count.
    ChildIndexOutOfBounds { parent: u64, child_index: usize, child_count: usize },
    /// The node is not a valid parent in this tree.
    InvalidParentNode(u64),
    /// The node is not a valid child in this tree.
    InvalidChildNode(u64),
    /// The node handed in is not in this tree.
    InvalidInputNode(u64),
    /// Making these the node's children would close a cycle through it.
    CyclicChildren(u64),
    /// The node is in the tree but no layout pass has reached it yet.
    NotLaidOut(u64),
    /// The style text is not a list of recognized `name: value` pairs.
    MalformedStyle,
    /// A required reference (a style, a child collection) was absent.
    MissingReference,
    /// No activatable class has the requested name.
    UnknownClass,
}

/// The boundary status of each failure kind.
pub open spec fn status_of(f: Failure) -> Status {
    match f {
        Failure::ChildIndexOutOfBounds { .. } => Status::OutOfBounds,
        Failure::NotLaidOut(_) => Status::OutOfBounds,
        _ => Status::InvalidArgument,
    }
}

impl Failure {
    /// The boundary status that this failure is reported as.
    pub fn status(&self) -> (r: Status)
        ensures
            r == status_of(*self),
    {
        match self {
            Failure::ChildIndexOutOfBounds { .. } => Status::OutOfBounds,
            Failure::NotLaidOut(_) => Status::OutOfBounds,
            _ => Status::InvalidArgument,
        }
    }
}

/// Carries a result across the boundary: success as it is, a failure as its status.
pub fn to_status<T>(r: Result<T, Failure>) -> (s: Result<T, Status>)
    ensures
        r is Ok ==> s == Ok::<T, Status>(r->Ok_0),
        r is Err ==> s == Err::<T, Status>(status_of(r->Err_0)),
{
    match r {
        Ok(v) => Ok(v),
        Err(f) => Err(f.status()),
    }
}

} // verus!
