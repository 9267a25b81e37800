//! The policy of `mmap` and `munmap`, and the plan for replicating an
//! address space at fork.
//!
//! Nothing here touches memory. [`mmap`] and [`munmap`] check a request
//! against a cage's page map and say what is to be asked of the host;
//! once the host has done it, [`mmap_commit`] and [`munmap_commit`] record
//! the outcome in the page map. [`fork_vmmap`] lists, region by region, what
//! has to be done to a child's memory so that it holds what the parent's
//! holds.
use crate::constants::ADDRESS_PAGES;
use crate::constants::LAST_PAGE;
use crate::constants::MAP_ANONYMOUS;
use crate::constants::MAP_FIXED;
use crate::constants::MAP_PRIVATE;
use crate::constants::MAP_SHARED;
use crate::constants::PAGESIZE;
use crate::constants::PROT_EXEC;
use crate::constants::PROT_NONE;
use crate::errno::Errno;
use crate::vmmap::Vmmap;
use crate::vmmap_model::first_map_fit;
use crate::vmmap_model::lemma_first_map_fit_is_unique;
use crate::vmmap_model::lists_touching;
use crate::vmmap_model::overwrite_pages;
use crate::vmmap_model::round_up_to;
use crate::vmmap_model::unmapped_pages;
use crate::vmmap_model::MemoryBackingType;
use crate::vmmap_model::PageRange;
use crate::vmmap_model::Region;
use crate::vmmap_model::VmmapEntry;
use vstd::prelude::*;

verus! {

/// What is to be asked of the host: a mapping of `length` bytes at the
/// cage's address `useraddr`.
#[derive(Clone, Copy, PartialEq, Eq, Debug, Structural)]
pub struct HostMapping {
    /// Address in the cage's address space; a multiple of the page size.
    pub useraddr: u32,
    /// Length in bytes; a multiple of the page size. Nothing is to be asked
    /// of the host where it is zero.
    pub length: u64,
    /// Protection of the mapping.
    pub prot: i32,
    /// Flags of the mapping; `MAP_FIXED` is among them.
    pub flags: i32,
    /// Descriptor that backs the mapping, or -1.
    pub fildes: i32,
    /// Offset into what backs the mapping.
    pub off: i64,
}

/// One step of replicating a parent's memory in a child.
#[derive(Clone, Copy, PartialEq, Eq, Debug, Structural)]
pub enum ForkStep {
    /// The `len` bytes at `addr` are shared: the child's range is to be
    /// remapped onto what backs the parent's.
    Remap { addr: u64, len: u64 },
    /// The `len` bytes at `addr` are private: the child's range is to be
    /// made writable, filled with the parent's bytes and given the
    /// protection `prot`.
    Copy { addr: u64, len: u64, prot: i32 },
}

/// The greatest length that can be rounded up to a whole number of pages.
pub const LENGTH_MAX: u64 = 0xffff_ffff_ffff_f000;

/// The flags of a request that are heeded.
pub open spec fn masked_flags(flags: i32) -> i32 {
    flags & (MAP_FIXED | MAP_SHARED | MAP_PRIVATE | MAP_ANONYMOUS)
}

/// Whether the flags ask for both a private and a shared mapping, or for
/// neither.
pub open spec fn bad_sharing(flags: i32) -> bool {
    ((flags & MAP_PRIVATE) == 0) == ((flags & MAP_SHARED) == 0)
}

/// Whether a request is refused for its protection, its address, its
/// offset or its flags.
pub open spec fn bad_request(addr: u32, prot: i32, flags: i32, off: i64) -> bool {
    ||| (prot & PROT_EXEC) != 0
    ||| addr % PAGESIZE != 0
    ||| off < 0
    ||| off % (PAGESIZE as i64) != 0
    ||| bad_sharing(masked_flags(flags))
}

/// The number of pages that `len` bytes take.
pub open spec fn page_count(len: u64) -> int {
    round_up_to(len as int, PAGESIZE as int) / (PAGESIZE as int)
}

/// The descriptor that is passed on: none for an anonymous mapping.
pub open spec fn passed_fildes(flags: i32, fildes: i32) -> i32 {
    if (flags & MAP_ANONYMOUS) != 0 {
        -1i32
    } else {
        fildes
    }
}

/// What is asked of the host for a request that has passed
/// [`bad_request`], at the address that was named or found.
pub open spec fn host_mapping(
    useraddr: u32,
    len: u64,
    prot: i32,
    flags: i32,
    fildes: i32,
    off: i64,
) -> HostMapping {
    HostMapping {
        useraddr,
        length: round_up_to(len as int, PAGESIZE as int) as u64,
        prot,
        flags: masked_flags(flags) | MAP_FIXED,
        fildes: passed_fildes(masked_flags(flags), fildes),
        off,
    }
}

/// What comes of a request that has passed [`bad_request`] and names its
/// address itself, or asks for no bytes: the mapping at that address, or
/// `ENOMEM` where it reaches beyond the pages that a cage can address.
pub open spec fn fixed_outcome(addr: u32, len: u64, prot: i32, flags: i32, fildes: i32, off: i64) -> Result<
    HostMapping,
    Errno,
> {
    if addr / PAGESIZE + page_count(len) > ADDRESS_PAGES {
        Err(Errno::ENOMEM)
    } else {
        Ok(host_mapping(addr, len, prot, flags, fildes, off))
    }
}

/// What comes of a request that has passed [`bad_request`] and leaves the
/// address open, given the run of pages that was found for it, if any: the
/// mapping at the start of the run, or `ENOMEM` where none was found.
pub open spec fn placed_outcome(
    len: u64,
    prot: i32,
    flags: i32,
    fildes: i32,
    off: i64,
    space: Option<PageRange>,
) -> Result<HostMapping, Errno> {
    match space {
        None => Err(Errno::ENOMEM),
        Some(range) => Ok(
            host_mapping((range.start * PAGESIZE) as u32, len, prot, flags, fildes, off),
        ),
    }
}

/// `space` is what a search of the page map for `num_pages` pages finds
/// among the pages that a cage can address, from page `hint` on: the
/// placement in the lowest run of unmapped pages that has room, or nothing
/// where no run has. Where no page is mapped, all those pages are one run.
pub open spec fn is_map_space(
    pages: Map<int, Region>,
    hint: u32,
    num_pages: int,
    space: Option<PageRange>,
) -> bool {
    if hint > LAST_PAGE {
        space is None
    } else {
        first_map_fit(pages, hint, LAST_PAGE, num_pages, 1, space)
    }
}

/// The first page and the number of pages of what was asked of the host.
pub open spec fn mapping_pages(call: HostMapping) -> (int, int) {
    ((call.useraddr / PAGESIZE) as int, (call.length / (PAGESIZE as u64)) as int)
}

/// The entry that records a mapping made for a cage.
pub open spec fn mapping_entry(call: HostMapping, cageid: u64) -> VmmapEntry {
    VmmapEntry {
        page_num: mapping_pages(call).0 as u32,
        npages: mapping_pages(call).1 as u32,
        prot: call.prot,
        maxprot: 0,
        flags: call.flags,
        removed: false,
        file_offset: call.off,
        file_size: 0,
        cage_id: cageid,
        backing: mapping_backing(call),
    }
}

/// What backs a mapping: nothing but zero-filled memory where the flags say
/// so, else the file behind its descriptor; a descriptor below zero names
/// no file.
pub open spec fn mapping_backing(call: HostMapping) -> MemoryBackingType {
    if (call.flags & MAP_ANONYMOUS) != 0 {
        MemoryBackingType::Anonymous
    } else if call.fildes >= 0 {
        MemoryBackingType::FileDescriptor(call.fildes as u64)
    } else {
        MemoryBackingType::NoBacking
    }
}

/// What has to be done for one region of the parent.
pub open spec fn fork_step(region: Region) -> ForkStep {
    let addr = (region.first * PAGESIZE) as u64;
    let len = ((region.last - region.first + 1) * PAGESIZE) as u64;
    if (region.entry.flags & MAP_SHARED) > 0 {
        ForkStep::Remap { addr, len }
    } else {
        ForkStep::Copy { addr, len, prot: region.entry.prot }
    }
}

/// The steps for a list of regions: one for each region that is in use,
/// in the order of the list.
pub open spec fn fork_steps(regions: Seq<Region>) -> Seq<ForkStep>
    decreases regions.len(),
{
    if regions.len() == 0 {
        Seq::empty()
    } else if regions.last().entry.prot == PROT_NONE {
        fork_steps(regions.drop_last())
    } else {
        fork_steps(regions.drop_last()).push(fork_step(regions.last()))
    }
}

/// What a search of the page map finds is determined by the page map, so
/// that [`mmap`] has one outcome for each request.
pub proof fn lemma_map_space_is_unique(
    pages: Map<int, Region>,
    hint: u32,
    num_pages: int,
    one: Option<PageRange>,
    other: Option<PageRange>,
)
    requires
        is_map_space(pages, hint, num_pages, one),
        is_map_space(pages, hint, num_pages, other),
    ensures
        one == other,
{
    if hint <= LAST_PAGE {
        lemma_first_map_fit_is_unique(pages, hint, LAST_PAGE, num_pages, 1, one, other);
    }
}

/// `length` rounded up to a whole number of pages.
pub fn round_up_page(length: u64) -> (rounded: u64)
    requires
        length <= LENGTH_MAX,
    ensures
        rounded == round_up_to(length as int, PAGESIZE as int),
        rounded % (PAGESIZE as u64) == 0,
        length <= rounded < length + PAGESIZE,
{
    if length % PAGESIZE as u64 == 0 {
        length
    } else {
        ((length / PAGESIZE as u64) + 1) * PAGESIZE as u64
    }
}

/// Decides on a request for a mapping in a cage.
///
/// The request is refused with `EINVAL` where it asks for executable
/// memory, where `addr` or `off` is not a multiple of the page size or `off`
/// is negative, and where the flags ask for both a private and a shared
/// mapping or for neither. Flags other than `MAP_FIXED`, `MAP_SHARED`,
/// `MAP_PRIVATE` and `MAP_ANONYMOUS` are dropped. Without `MAP_FIXED` a run
/// of free pages is looked for among the pages that a cage can address, from
/// the page of `addr` on; `ENOMEM` where none has room. With `MAP_FIXED`,
/// `ENOMEM` where the range reaches beyond those pages. What is to be asked
/// of the host always names its address and has `MAP_FIXED` set.
pub fn mmap(
    vmmap: &Vmmap,
    addr: u32,
    len: u64,
    prot: i32,
    flags: i32,
    fildes: i32,
    off: i64,
) -> (result: Result<HostMapping, Errno>)
    requires
        vmmap.wf(),
    ensures
        bad_request(addr, prot, flags, off) ==> result == Err::<HostMapping, Errno>(Errno::EINVAL),
        !bad_request(addr, prot, flags, off) && ((masked_flags(flags) & MAP_FIXED) != 0
            || page_count(len) == 0) ==> result == fixed_outcome(
            addr,
            len,
            prot,
            flags,
            fildes,
            off,
        ),
        !bad_request(addr, prot, flags, off) && (masked_flags(flags) & MAP_FIXED) == 0
            && page_count(len) > ADDRESS_PAGES ==> result == Err::<HostMapping, Errno>(
            Errno::ENOMEM,
        ),
        !bad_request(addr, prot, flags, off) && (masked_flags(flags) & MAP_FIXED) == 0 && 0
            < page_count(len) <= ADDRESS_PAGES ==> exists|space: Option<PageRange>|
            #![trigger is_map_space(vmmap@, addr / PAGESIZE, page_count(len), space)]
            is_map_space(vmmap@, addr / PAGESIZE, page_count(len), space) && result
                == placed_outcome(len, prot, flags, fildes, off, space),
        result matches Ok(call) ==> {
            &&& (call.flags & MAP_FIXED) != 0
            &&& call.useraddr % PAGESIZE == 0
            &&& call.length % (PAGESIZE as u64) == 0
            &&& len <= call.length < len + PAGESIZE
            &&& mapping_pages(call).0 + mapping_pages(call).1 <= ADDRESS_PAGES
            &&& (masked_flags(flags) & MAP_FIXED) == 0 && page_count(len) > 0 ==> forall|
                page: int,
            |
                mapping_pages(call).0 <= page < mapping_pages(call).0 + mapping_pages(call).1
                    ==> !vmmap@.contains_key(page)
        },
{
    let allowed_flags: i32 = MAP_FIXED | MAP_SHARED | MAP_PRIVATE | MAP_ANONYMOUS;
    let flags: i32 = flags & allowed_flags;
    proof {
        assert(forall|bits: i32| ((bits | 0x10) & 0x10) != 0) by (bit_vector);
    }
    if (prot & PROT_EXEC) != 0 {
        return Err(Errno::EINVAL);
    }
    if addr % PAGESIZE != 0 {
        return Err(Errno::EINVAL);
    }
    if off < 0 {
        return Err(Errno::EINVAL);
    }
    if off % (PAGESIZE as i64) != 0 {
        return Err(Errno::EINVAL);
    }
    if ((flags & MAP_PRIVATE) == 0) == ((flags & MAP_SHARED) == 0) {
        return Err(Errno::EINVAL);
    }
    if len > LENGTH_MAX {
        proof {
            assert(page_count(len) > ADDRESS_PAGES);
        }
        return Err(Errno::ENOMEM);
    }
    let rounded_length: u64 = round_up_page(len);
    let npages: u64 = rounded_length / (PAGESIZE as u64);
    let passed: i32 = if (flags & MAP_ANONYMOUS) != 0 {
        -1
    } else {
        fildes
    };
    let mut useraddr: u32 = addr;
    if (flags & MAP_FIXED) == 0 && npages > 0 {
        if npages > ADDRESS_PAGES as u64 {
            return Err(Errno::ENOMEM);
        }
        let space = if addr == 0 {
            vmmap.find_map_space(npages as u32, 1)
        } else {
            vmmap.find_map_space_with_hint(npages as u32, 1, addr / PAGESIZE)
        };
        proof {
            assert(is_map_space(vmmap@, addr / PAGESIZE, page_count(len), space));
        }
        match space {
            None => {
                return Err(Errno::ENOMEM);
            },
            Some(range) => {
                useraddr = range.start * PAGESIZE;
            },
        }
    } else if (addr / PAGESIZE) as u64 + npages > ADDRESS_PAGES as u64 {
        return Err(Errno::ENOMEM);
    }
    Ok(
        HostMapping {
            useraddr,
            length: rounded_length,
            prot,
            flags: flags | MAP_FIXED,
            fildes: passed,
            off,
        },
    )
}

/// Records in the page map a mapping that the host has made at the address
/// asked for. The range becomes one region with the protection, the flags,
/// the offset and the backing of the mapping; a mapping of no bytes records
/// nothing.
pub fn mmap_commit(vmmap: &mut Vmmap, call: &HostMapping, cageid: u64)
    requires
        old(vmmap).wf(),
        mapping_pages(*call).0 + mapping_pages(*call).1 <= u32::MAX,
    ensures
        final(vmmap).wf(),
        mapping_pages(*call).1 == 0 ==> final(vmmap)@ == old(vmmap)@,
        mapping_pages(*call).1 > 0 ==> final(vmmap)@ == overwrite_pages(
            old(vmmap)@,
            mapping_pages(*call).0 as u32,
            (mapping_pages(*call).0 + mapping_pages(*call).1 - 1) as u32,
            mapping_entry(*call, cageid),
        ),
{
    let page_num: u32 = call.useraddr / PAGESIZE;
    let npages: u32 = (call.length / (PAGESIZE as u64)) as u32;
    let backing = if (call.flags & MAP_ANONYMOUS) != 0 {
        MemoryBackingType::Anonymous
    } else if call.fildes >= 0 {
        MemoryBackingType::FileDescriptor(call.fildes as u64)
    } else {
        MemoryBackingType::NoBacking
    };
    let _ = vmmap.add_entry_with_override(
        page_num,
        npages,
        call.prot,
        0,
        call.flags,
        backing,
        call.off,
        0,
        cageid,
    );
}

/// Decides on a request to unmap `len` bytes at `addr`.
///
/// The request is refused with `EINVAL` where `addr` is not a multiple of
/// the page size, and where the range reaches beyond the pages that a cage
/// can address. The host
/// is not asked to unmap: the range is to be mapped anew, without access,
/// anonymous, private and at that address, so that it stays reserved.
pub fn munmap(addr: u32, len: u64) -> (result: Result<HostMapping, Errno>)
    ensures
        addr % PAGESIZE != 0 || addr / PAGESIZE + page_count(len) > ADDRESS_PAGES ==> result == Err::<
            HostMapping,
            Errno,
        >(Errno::EINVAL),
        addr % PAGESIZE == 0 && addr / PAGESIZE + page_count(len) <= ADDRESS_PAGES ==> result == Ok::<
            HostMapping,
            Errno,
        >(
            HostMapping {
                useraddr: addr,
                length: round_up_to(len as int, PAGESIZE as int) as u64,
                prot: PROT_NONE,
                flags: MAP_PRIVATE | MAP_ANONYMOUS | MAP_FIXED,
                fildes: -1i32,
                off: 0,
            },
        ),
        result matches Ok(call) ==> mapping_pages(call).0 + mapping_pages(call).1 <= ADDRESS_PAGES
            && mapping_pages(call).1 == page_count(len),
{
    if addr % PAGESIZE != 0 {
        return Err(Errno::EINVAL);
    }
    if len > LENGTH_MAX {
        proof {
            assert(page_count(len) > ADDRESS_PAGES);
        }
        return Err(Errno::EINVAL);
    }
    let rounded_length: u64 = round_up_page(len);
    if (addr / PAGESIZE) as u64 + rounded_length / (PAGESIZE as u64) > ADDRESS_PAGES as u64 {
        return Err(Errno::EINVAL);
    }
    Ok(
        HostMapping {
            useraddr: addr,
            length: rounded_length,
            prot: PROT_NONE,
            flags: MAP_PRIVATE | MAP_ANONYMOUS | MAP_FIXED,
            fildes: -1,
            off: 0,
        },
    )
}

/// Records in the page map that a range was unmapped: no page of it is
/// mapped afterwards, and the regions that reached into it are cut back to
/// what lies outside. A range of no bytes records nothing.
pub fn munmap_commit(vmmap: &mut Vmmap, call: &HostMapping)
    requires
        old(vmmap).wf(),
        mapping_pages(*call).0 + mapping_pages(*call).1 <= u32::MAX,
    ensures
        final(vmmap).wf(),
        mapping_pages(*call).1 == 0 ==> final(vmmap)@ == old(vmmap)@,
        mapping_pages(*call).1 > 0 ==> final(vmmap)@ == unmapped_pages(
            old(vmmap)@,
            mapping_pages(*call).0 as u32,
            (mapping_pages(*call).0 + mapping_pages(*call).1 - 1) as u32,
        ),
        forall|page: int|
            mapping_pages(*call).0 <= page < mapping_pages(*call).0 + mapping_pages(*call).1
                ==> !final(vmmap)@.contains_key(page),
{
    let page_num: u32 = call.useraddr / PAGESIZE;
    let npages: u32 = (call.length / (PAGESIZE as u64)) as u32;
    let _ = vmmap.remove_entry(page_num, npages);
}

/// The steps that give a child's memory the contents of the parent's: one
/// for each region of the parent that is in use, in ascending order.
/// Regions without access are reserved and not in use; they get no step.
pub fn fork_vmmap(parent_vmmap: &Vmmap) -> (steps: Vec<ForkStep>)
    requires
        parent_vmmap.wf(),
    ensures
        exists|regions: Seq<Region>|
            #![trigger lists_touching(parent_vmmap@, 0, u32::MAX, regions)]
            lists_touching(parent_vmmap@, 0, u32::MAX, regions) && steps@ == fork_steps(regions),
{
    let regions = parent_vmmap.double_ended_iter();
    let mut steps: Vec<ForkStep> = Vec::new();
    let mut index: usize = 0;
    while index < regions.len()
        invariant
            0 <= index <= regions.len(),
            parent_vmmap.wf(),
            lists_touching(parent_vmmap@, 0, u32::MAX, regions@),
            steps@ == fork_steps(regions@.take(index as int)),
        decreases regions.len() - index,
    {
        let region = regions[index];
        proof {
            assert(regions@.take(index + 1).drop_last() =~= regions@.take(index as int));
            assert(parent_vmmap@.contains_key(region.first as int));
            assert(parent_vmmap@[region.first as int] == region);
        }
        if region.entry.prot != PROT_NONE {
            let addr: u64 = region.first as u64 * PAGESIZE as u64;
            let len: u64 = (region.last as u64 - region.first as u64 + 1) * PAGESIZE as u64;
            if (region.entry.flags & MAP_SHARED) > 0 {
                steps.push(ForkStep::Remap { addr, len });
            } else {
                steps.push(ForkStep::Copy { addr, len, prot: region.entry.prot });
            }
        }
        index = index + 1;
    }
    proof {
        assert(regions@.take(regions.len() as int) =~= regions@);
    }
    steps
}

} // verus!
