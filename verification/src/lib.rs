//! Physical-memory allocation core of a bare-metal kernel.
//!
//! The crate carves a flat span of physical memory into allocatable units:
//! a buddy allocator manages the whole span as power-of-two blocks, an
//! object slab allocator subdivides single frames into small fixed-size
//! slots, and a dispatcher routes every request to one of the two. A
//! device-tree reader supplies the physical regions that are freed into
//! the allocator at boot. Addresses are plain integers throughout; turning
//! them into pointers is the embedder's business.

pub mod buddy;
pub mod dtb;
pub mod kalloc;
pub mod layout;
pub mod mem;
pub mod order;
pub mod page_vec;
pub mod slab;
