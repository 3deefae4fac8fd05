//! Memory-management core of a monolithic kernel: a physical-frame buddy
//! allocator over fixed zones, and a virtual-memory mapping layer that
//! implements copy-on-write page sharing on top of it.
//!
//! The [`buddy`] module owns the physical memory: three zones, each with
//! one intrusive free list per power-of-two order, specified against the
//! mathematical free-list model of [`model`]. The [`mapping`] module
//! implements virtual address ranges whose pages come from the
//! reference-counted page store of [`residence`]; faults, splits and
//! unmapping stage their page-table edits into the transaction of
//! [`vmem`], and shared file mappings write back through the interface of
//! [`backing`].

pub mod backing;
pub mod buddy;
pub mod mapping;
pub mod memory;
pub mod model;
pub mod residence;
pub mod vmem;
