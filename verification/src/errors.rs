use vstd::prelude::*;

verus! {

/// The caller-visible failure conditions of the permission store. All of them
/// are expected, recoverable conditions returned as ordinary values.
#[derive(Clone, Copy, Debug, PartialEq, Eq, Structural)]
pub enum TreeError {
    /// The resource key is absent from the forest.
    ResourceNotFound,
    /// The resource key is already present in the forest.
    AlreadyExists,
    /// The referenced user id is absent from the tree.
    UserNotFound,
    /// The referenced parent id is absent from the tree.
    ParentNotFound,
    /// The referenced unblocker id is absent from the tree.
    UnblockerNotFound,
    /// The user id collides with a node already in the tree.
    UserAlreadyExists,
    /// The user id and the parent id are identical.
    InvalidSelfParent,
    /// The prospective parent currently lacks permission.
    ParentNotPermitted,
    /// The user is already blocked.
    AlreadyBlocked,
    /// The blocker is neither the user itself nor the user's direct parent.
    NotAuthorizedToBlock,
    /// The unblocker currently lacks permission.
    UnblockerNotPermitted,
    /// The user to unblock already has permission.
    UserAlreadyPermitted,
}

} // verus!
