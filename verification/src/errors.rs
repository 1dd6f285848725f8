use vstd::prelude::*;

verus! {

/// Failure outcomes of the store's operations.
///
/// `NotFound` covers a path or handle that does not resolve, including a path
/// with an empty component (names are never empty, so such a component can
/// never resolve). `InvalidEncoding` marks a path whose bytes are not valid
/// UTF-8. `TypeMismatch` marks an attempt to create below a file, or to read
/// or write a directory. `AlreadyExists` marks a create whose final name is
/// already taken in the target directory: the store keeps sibling names
/// unique.
#[derive(Clone, Copy, Debug, PartialEq, Eq, Structural)]
pub enum FsError {
    NotFound,
    InvalidEncoding,
    TypeMismatch,
    AlreadyExists,
}

impl FsError {
    /// The status code the boundary reports for this failure. Every failure
    /// is one code: the host's convention knows success and failure only.
    pub fn status(&self) -> (r: i32)
        ensures
            r == -1,
    {
        match self {
            FsError::NotFound => -1,
            FsError::InvalidEncoding => -1,
            FsError::TypeMismatch => -1,
            FsError::AlreadyExists => -1,
        }
    }
}

} // verus!
