//! Fixed architectural parameters: table capacity, page geometry and the bit
//! layouts of protection and mapping flags.
use vstd::prelude::*;

verus! {

/// Number of virtual descriptors a cage can hold.
pub const FD_PER_PROCESS_MAX: i32 = 1024;

/// Value of `realfd` in an entry that no host descriptor backs.
pub const NO_REAL_FD: i32 = -2147483648;

/// Page cannot be accessed.
pub const PROT_NONE: i32 = 0x0;

/// Page can be read.
pub const PROT_READ: i32 = 0x1;

/// Page can be written.
pub const PROT_WRITE: i32 = 0x2;

/// Page can be executed.
pub const PROT_EXEC: i32 = 0x4;

/// Mask of all protection bits.
pub const PROT_MASK: u32 = 0x7;

/// Changes are shared with other mappings of the same object.
pub const MAP_SHARED: i32 = 0x01;

/// Changes are private to the mapping.
pub const MAP_PRIVATE: i32 = 0x02;

/// Mask that isolates the two sharing bits.
pub const MAP_SHARING_MASK: i32 = 0x03;

/// The address is to be taken exactly.
pub const MAP_FIXED: i32 = 0x10;

/// The mapping is not backed by a file.
pub const MAP_ANON: i32 = 0x20;

/// Synonym of [`MAP_ANON`].
pub const MAP_ANONYMOUS: i32 = 0x20;

/// A remapping may move the region.
pub const MREMAP_MAYMOVE: u32 = 0x01;

/// A remapping goes to the address given.
pub const MREMAP_FIXED: u32 = 0x02;

/// Binary logarithm of the page size.
pub const PAGESHIFT: u32 = 12;

/// Size of a page in bytes.
pub const PAGESIZE: u32 = 4096;

/// The number of pages that a cage can address: its addresses have 32 bits.
pub const ADDRESS_PAGES: u32 = 0x10_0000;

/// The highest page that a cage can address.
pub const LAST_PAGE: u32 = 0xf_ffff;

/// Binary logarithm of the allocation granularity of the layer above.
pub const MAP_PAGESHIFT: u32 = 16;

/// Allocation granularity of the layer above, in bytes.
pub const MAP_PAGESIZE: u32 = 65536;

} // verus!
