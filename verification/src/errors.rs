use vstd::prelude::*;

verus! {

/// The error classes of the virtual-memory layer.
///
/// `OwnerMismatch`, `PageNumberOverflow` and `OutOfBounds` signal corruption
/// or caller error: the operation aborts without retrying. `CapacityExhausted`
/// is the one expected, recoverable failure: the physical memory cannot grow
/// any further, and the caller decides what to do about it.
#[derive(Clone, Copy, Debug, PartialEq, Eq, Structural)]
pub enum MemoryError {
    /// A page-table key carried a different owner tag than the address space
    /// that tried to decode it.
    OwnerMismatch,
    /// A physical page number does not fit in the three bytes a page-table
    /// key reserves for it.
    PageNumberOverflow,
    /// A byte range reaches past the logical size, even after refreshing the
    /// cached page-table view.
    OutOfBounds,
    /// The physical memory has no room for the requested number of pages.
    CapacityExhausted,
}

} // verus!
