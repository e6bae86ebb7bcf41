use vstd::prelude::*;

verus! {

/// The ordinary ways in which an operation of the registry is turned down.
#[derive(Clone, Copy, Debug, PartialEq, Eq, Structural)]
pub enum RegistryError {
    /// The identifier addressed holds no record.
    NotFound,
    /// The identifier to be created is already taken.
    AlreadyExists,
    /// The counter stands at zero and cannot go down.
    Underflow,
}

} // verus!
