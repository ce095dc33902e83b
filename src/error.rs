use vstd::prelude::*;

verus! {

/// Possible error kinds.
#[derive(Debug, Clone, Copy, PartialEq, Eq, Structural)]
pub enum ErrorKind {
    /// Input is invalid (e.g. EINVAL, EACCES, EBADF, EFAULT, ENAMETOOLONG, ENOENT).
    InvalidInput,
    /// System resource shortage (e.g. EMFILE, ENOMEM, ENOSPC).
    ResourceShortage,
    /// Any other failure, including broken internal invariants and malformed records.
    Other,
}

/// Error of this library: the kind of failure it belongs to.
#[derive(Debug, Clone, Copy, PartialEq, Eq, Structural)]
pub struct Error {
    pub kind: ErrorKind,
}

impl Error {
    pub fn new(kind: ErrorKind) -> (r: Error)
        ensures
            r.kind == kind,
    {
        Error { kind }
    }

    pub fn kind(&self) -> (r: ErrorKind)
        ensures
            r == self.kind,
    {
        self.kind
    }
}

/// Linux error numbers that this library tells apart.
pub const EINVAL: i32 = 22;
pub const EACCES: i32 = 13;
pub const EBADF: i32 = 9;
pub const EFAULT: i32 = 14;
pub const ENAMETOOLONG: i32 = 36;
pub const ENOENT: i32 = 2;
pub const EMFILE: i32 = 24;
pub const ENOMEM: i32 = 12;
pub const ENOSPC: i32 = 28;

/// The kind an OS error number belongs to.
pub open spec fn errno_kind_spec(errno: i32) -> ErrorKind {
    if errno == EINVAL || errno == EACCES || errno == EBADF || errno
        == EFAULT || errno == ENAMETOOLONG || errno == ENOENT {
        ErrorKind::InvalidInput
    } else if errno == EMFILE || errno == ENOMEM || errno == ENOSPC {
        ErrorKind::ResourceShortage
    } else {
        ErrorKind::Other
    }
}

/// Classifies an OS error number.
pub fn errno_kind(errno: i32) -> (r: ErrorKind)
    ensures
        r == errno_kind_spec(errno),
{
    if errno == EINVAL || errno == EACCES || errno == EBADF || errno
        == EFAULT || errno == ENAMETOOLONG || errno == ENOENT {
        ErrorKind::InvalidInput
    } else if errno == EMFILE || errno == ENOMEM || errno == ENOSPC {
        ErrorKind::ResourceShortage
    } else {
        ErrorKind::Other
    }
}

} // verus!
