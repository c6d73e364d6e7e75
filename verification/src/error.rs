use vstd::prelude::*;

verus! {

/// Project specific error types
#[derive(Debug, PartialEq, Eq)]
pub enum CyclicGraphError<I> {
    /// The error was caused when new node inserting before the Input Node
    InsertBeforeInput,
    /// The error was caused when new node appending after the Output Node
    InsertAfterOutput,
    /// The error was caused when trying to remove the Input Node
    RemoveInput,
    /// The error was caused when trying to remove the Output Node
    RemoveOutput,
    /// The error was caused when trying get non-existing node by id
    NodeNotFoundById(I),
    /// The error was caused when trying add node with non-unique id
    NonUniqueId(I),
    /// The error was caused when trying to link a node to itself
    CannotLinkToItself,
    /// The error was caused at LinksProvider handler
    LinksProviderHandlerError(String),
    /// The error was caused at LinksAcceptor handler
    LinksAcceptorHandlerError(String),
    /// The error was caused when a lock could not be taken at once
    TryLockError,
}

} // verus!
