//! The kinds of file-read failure the collectors tell apart.

use vstd::prelude::*;

verus! {

/// How reading a kernel file failed, as far as the collectors care: the file
/// does not exist, access was refused, or anything else went wrong.
#[derive(Debug, Clone, Copy, PartialEq, Eq, Structural)]
pub enum ReadErrorKind {
    NotFound,
    PermissionDenied,
    Other,
}

} // verus!
