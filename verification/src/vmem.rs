//! Staged page-table edits.
//!
//! A [`VMemTransaction`] records a batch of page-table installs and
//! removals against one address space. The mapping layer stages its edits
//! here; committing the staged edits into the live page table is the
//! address-space manager's concern and lies outside this crate.

use vstd::prelude::*;

verus! {

/// An architecture page-table entry's flag bits.
pub type Entry = u64;

/// Page-table entry flag: the page is writable.
pub const FLAG_WRITE: Entry = 0x2;

/// Page-table entry flag: the page is accessible from user mode.
pub const FLAG_USER: Entry = 0x4;

/// Page-table entry flag: execution from the page is disabled. Derived by
/// inverting the mapping's execute permission.
pub const FLAG_XD: Entry = 0x8000000000000000;

/// The fixed per-address-space scratch virtual address at which the
/// previous page is staged while its content is copied during
/// copy-on-write resolution.
pub const COPY_BUFFER: usize = 0xc0000000;

/// One staged page-table edit.
#[derive(Clone, Copy, PartialEq, Eq, Structural, Debug)]
pub enum VMemOp {
    /// Install a page-table mapping from `virt` to `phys` with the given
    /// entry flags.
    Install { phys: usize, virt: usize, flags: Entry },
    /// Remove the page-table entries of `count` pages starting at `virt`.
    RemoveRange { virt: usize, count: usize },
}

/// An in-progress set of page-table edits against one address space's page
/// table; not committed until explicitly applied by the address-space
/// manager.
pub struct VMemTransaction {
    /// The staged edits, in the order they were issued.
    ops: Vec<VMemOp>,
}

impl VMemTransaction {
    /// The staged edits, oldest first.
    pub closed spec fn ops_seq(self) -> Seq<VMemOp> {
        self.ops@
    }

    /// Creates an empty transaction.
    pub fn new() -> (r: Self)
        ensures
            r.ops_seq() == Seq::<VMemOp>::empty(),
    {
        VMemTransaction { ops: Vec::new() }
    }

    /// Stages a page-table mapping from `virt` to `phys` with the given flags.
    /// Staging itself cannot fail in this model; the result mirrors the
    /// page-table interface.
    pub fn map(&mut self, phys: usize, virt: usize, flags: Entry) -> (r: Result<(), ()>)
        ensures
            r == Result::<(), ()>::Ok(()),
            final(self).ops_seq() == old(self).ops_seq().push(
                (VMemOp::Install { phys, virt, flags }),
            ),
    {
        self.ops.push(VMemOp::Install { phys, virt, flags });
        Ok(())
    }

    /// Stages the removal of the page-table entries of `count` pages starting at
    /// `virt`.
    pub fn unmap_range(&mut self, virt: usize, count: usize) -> (r: Result<(), ()>)
        ensures
            r == Result::<(), ()>::Ok(()),
            final(self).ops_seq() == old(self).ops_seq().push((VMemOp::RemoveRange { virt, count })),
    {
        self.ops.push(VMemOp::RemoveRange { virt, count });
        Ok(())
    }

    /// The number of staged edits.
    pub fn op_count(&self) -> (r: usize)
        ensures
            r as int == self.ops_seq().len(),
    {
        self.ops.len()
    }

    /// Returns the `i`-th staged edit, oldest first.
    pub fn get_op(&self, i: usize) -> (r: VMemOp)
        requires
            (i as int) < self.ops_seq().len(),
        ensures
            r == self.ops_seq()[i as int],
    {
        self.ops[i]
    }
}

} // verus!
