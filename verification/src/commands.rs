//! What the commands decide and compute.

use crate::bytes;
use crate::error::GappedError;
use vstd::prelude::*;

pub mod apply;
pub mod chunks;
pub mod content;
pub mod diff;
pub mod layout;
pub mod phases;
pub mod readback;
pub mod shape;
pub mod simulate;
pub mod sizes;
pub mod snapshot;
pub mod split;
pub mod sync;
pub mod verify;
pub mod whole;

verus! {

/// Whether the root directory of a tree is there, given what the filesystem
/// says of it.
pub fn validate_root_dir(root_dir: &[u8], is_dir: bool) -> (r: Result<(), GappedError>)
    ensures
        r is Ok <==> is_dir,
        r matches Err(e) ==> e matches GappedError::RootNotFound(b) && b@ == root_dir@,
{
    if is_dir {
        Ok(())
    } else {
        let b = bytes::copy_range(root_dir, 0, root_dir.len());
        assert(b@ =~= root_dir@);
        Err(GappedError::RootNotFound(b))
    }
}

} // verus!
