//! The failures that the storage engine reports.

use vstd::prelude::*;

verus! {

/// Why an operation on the store did not complete.
#[derive(Clone, Copy, Debug, PartialEq, Eq, Structural)]
pub enum FsError {
    /// The inode record could not be read back from its block.
    CorruptRecord,
    /// The logical page lies beyond what one indirection block can address.
    FileTooLarge,
    /// The page lies beyond the file's extent, or its pointer is unset.
    PageNotAllocated,
    /// No free block is left to hand out.
    AllocationFailed,
    /// The device has no block with the number asked for.
    DeviceIoFailed,
}

} // verus!
