//! The failure kinds the storage operations report.

use vstd::prelude::*;

verus! {

/// Every failure of a storage operation is one of these kinds: the path is
/// absent from the tree; the path exists but the content store cannot supply
/// its bytes; the operation would mutate the read-only tree; or the tree
/// itself is malformed (a non-final path segment of an input entry named an
/// existing file).
#[derive(Clone, Copy, Debug, PartialEq, Eq, Structural)]
pub enum VfsError {
    NotFound,
    NotAvailable,
    Unsupported,
    Internal,
}

} // verus!
