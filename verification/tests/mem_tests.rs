use rawposix::constants::ADDRESS_PAGES;
use rawposix::constants::MAP_ANONYMOUS;
use rawposix::constants::MAP_FIXED;
use rawposix::constants::MAP_PRIVATE;
use rawposix::constants::MAP_SHARED;
use rawposix::constants::PAGESIZE;
use rawposix::constants::PROT_EXEC;
use rawposix::constants::PROT_NONE;
use rawposix::constants::PROT_READ;
use rawposix::constants::PROT_WRITE;
use rawposix::errno::Errno;
use rawposix::mem::fork_vmmap;
use rawposix::mem::mmap;
use rawposix::mem::mmap_commit;
use rawposix::mem::munmap;
use rawposix::mem::munmap_commit;
use rawposix::mem::round_up_page;
use rawposix::mem::ForkStep;
use rawposix::mem::HostMapping;
use rawposix::vmmap::Vmmap;
use rawposix::vmmap_model::MemoryBackingType;
use rawposix::vmmap_model::Region;
use rawposix::vmmap_model::VmmapEntry;

const RW: i32 = PROT_READ | PROT_WRITE;

fn reserved(vmmap: &mut Vmmap, page_num: u32, npages: u32) {
    vmmap
        .add_entry_with_override(
            page_num,
            npages,
            PROT_NONE,
            0,
            MAP_PRIVATE | MAP_ANONYMOUS,
            MemoryBackingType::Anonymous,
            0,
            0,
            1,
        )
        .unwrap();
}

fn cage_memory() -> Vmmap {
    let mut vmmap = Vmmap::new();
    reserved(&mut vmmap, 0, 16);
    reserved(&mut vmmap, 1024, 16);
    vmmap
}

#[test]
fn round_up_page_values() {
    assert_eq!(round_up_page(0), 0);
    assert_eq!(round_up_page(1), 4096);
    assert_eq!(round_up_page(4095), 4096);
    assert_eq!(round_up_page(4096), 4096);
    assert_eq!(round_up_page(4097), 8192);
    assert_eq!(round_up_page(8192), 8192);
    assert_eq!(round_up_page(0xffff_ffff_ffff_f000), 0xffff_ffff_ffff_f000);
    assert_eq!(round_up_page(0xffff_ffff_ffff_e001), 0xffff_ffff_ffff_f000);
}

#[test]
fn mmap_refuses_executable_memory() {
    let vmmap = cage_memory();
    assert_eq!(
        mmap(&vmmap, 0, 8192, PROT_READ | PROT_EXEC, MAP_PRIVATE | MAP_ANONYMOUS, -1, 0),
        Err(Errno::EINVAL)
    );
    assert_eq!(mmap(&vmmap, 0, 8192, PROT_EXEC, MAP_PRIVATE | MAP_FIXED, -1, 0), Err(Errno::EINVAL));
}

#[test]
fn mmap_refuses_an_address_off_the_page() {
    let vmmap = cage_memory();
    assert_eq!(mmap(&vmmap, 4097, 8192, RW, MAP_PRIVATE | MAP_ANONYMOUS, -1, 0), Err(Errno::EINVAL));
    assert_eq!(
        mmap(&vmmap, 100, 8192, RW, MAP_PRIVATE | MAP_ANONYMOUS | MAP_FIXED, -1, 0),
        Err(Errno::EINVAL)
    );
}

#[test]
fn mmap_refuses_a_bad_offset() {
    let vmmap = cage_memory();
    assert_eq!(mmap(&vmmap, 0, 8192, RW, MAP_PRIVATE, 3, -4096), Err(Errno::EINVAL));
    assert_eq!(mmap(&vmmap, 0, 8192, RW, MAP_PRIVATE, 3, 17), Err(Errno::EINVAL));
    assert!(mmap(&vmmap, 0, 8192, RW, MAP_PRIVATE, 3, 8192).is_ok());
}

#[test]
fn mmap_wants_private_or_shared_and_not_both() {
    let vmmap = cage_memory();
    assert_eq!(mmap(&vmmap, 0, 8192, RW, MAP_ANONYMOUS, -1, 0), Err(Errno::EINVAL));
    assert_eq!(
        mmap(&vmmap, 0, 8192, RW, MAP_PRIVATE | MAP_SHARED | MAP_ANONYMOUS, -1, 0),
        Err(Errno::EINVAL)
    );
    assert_eq!(mmap(&vmmap, 4096, 8192, RW, MAP_FIXED, -1, 0), Err(Errno::EINVAL));
    assert!(mmap(&vmmap, 0, 8192, RW, MAP_SHARED | MAP_ANONYMOUS, -1, 0).is_ok());
}

#[test]
fn mmap_without_room_is_enomem() {
    let vmmap = cage_memory();
    // what does not go between the two regions goes above them
    assert_eq!(
        mmap(&vmmap, 0, 1009 * 4096, RW, MAP_PRIVATE | MAP_ANONYMOUS, -1, 0).map(|call| call.useraddr),
        Ok((ADDRESS_PAGES - 1009) * 4096)
    );
    assert!(mmap(&vmmap, 0, (ADDRESS_PAGES as u64 - 1040) * 4096, RW, MAP_PRIVATE | MAP_ANONYMOUS, -1, 0).is_ok());
    assert_eq!(
        mmap(&vmmap, 0, (ADDRESS_PAGES as u64 - 1039) * 4096, RW, MAP_PRIVATE | MAP_ANONYMOUS, -1, 0),
        Err(Errno::ENOMEM)
    );
    assert_eq!(
        mmap(&vmmap, 0, (ADDRESS_PAGES as u64 + 1) * 4096, RW, MAP_PRIVATE | MAP_ANONYMOUS, -1, 0),
        Err(Errno::ENOMEM)
    );
    assert_eq!(mmap(&vmmap, 0, u64::MAX, RW, MAP_PRIVATE | MAP_ANONYMOUS, -1, 0), Err(Errno::ENOMEM));
    // a cage whose pages are all mapped has no room
    let mut full = Vmmap::new();
    reserved(&mut full, 0, ADDRESS_PAGES);
    assert_eq!(mmap(&full, 0, 4096, RW, MAP_PRIVATE | MAP_ANONYMOUS, -1, 0), Err(Errno::ENOMEM));
    // pages beyond those that a cage can address are of no use
    reserved(&mut full, ADDRESS_PAGES + 100, 1);
    assert_eq!(mmap(&full, 0, 4096, RW, MAP_PRIVATE | MAP_ANONYMOUS, -1, 0), Err(Errno::ENOMEM));
    // bad flags are refused whether there is room or not
    assert_eq!(mmap(&full, 0, 4096, RW, MAP_ANONYMOUS, -1, 0), Err(Errno::EINVAL));
    assert_eq!(mmap(&Vmmap::new(), 0, 8192, RW, MAP_ANONYMOUS, -1, 0), Err(Errno::EINVAL));
    assert_eq!(
        mmap(&Vmmap::new(), 0, 8192, RW, MAP_PRIVATE | MAP_SHARED, -1, 0),
        Err(Errno::EINVAL)
    );
}

#[test]
fn mmap_on_a_fresh_cage_succeeds_and_munmap_leaves_nothing() {
    let mut vmmap = Vmmap::new();
    let call = mmap(&vmmap, 0, 8192, RW, MAP_PRIVATE | MAP_ANONYMOUS, -1, 0).unwrap();
    assert_eq!(
        call,
        HostMapping {
            useraddr: 0xffff_e000,
            length: 8192,
            prot: RW,
            flags: MAP_PRIVATE | MAP_ANONYMOUS | MAP_FIXED,
            fildes: -1,
            off: 0,
        }
    );
    assert_eq!(call.useraddr % PAGESIZE, 0);
    mmap_commit(&mut vmmap, &call, 2);
    assert_eq!(vmmap.double_ended_iter().len(), 1);
    assert_eq!(vmmap.find_page(ADDRESS_PAGES - 1).unwrap().npages, 2);
    // the next one goes below it
    let next = mmap(&vmmap, 0, 4096, RW, MAP_PRIVATE | MAP_ANONYMOUS, -1, 0).unwrap();
    assert_eq!(next.useraddr, 0xffff_d000);
    let gone = munmap(call.useraddr, 8192).unwrap();
    munmap_commit(&mut vmmap, &gone);
    assert!(vmmap.double_ended_iter().is_empty());
}

#[test]
fn mmap_picks_an_address_and_munmap_takes_the_entry_away() {
    let mut vmmap = cage_memory();
    let call = mmap(&vmmap, 0, 8192, RW, MAP_PRIVATE | MAP_ANONYMOUS, 5, 0).unwrap();
    assert_eq!(
        call,
        HostMapping {
            useraddr: 1022 * 4096,
            length: 8192,
            prot: RW,
            flags: MAP_PRIVATE | MAP_ANONYMOUS | MAP_FIXED,
            fildes: -1,
            off: 0,
        }
    );
    assert_eq!(call.useraddr % PAGESIZE, 0);
    mmap_commit(&mut vmmap, &call, 7);
    assert_eq!(
        vmmap.double_ended_iter()[1],
        Region {
            first: 1022,
            last: 1023,
            entry: VmmapEntry {
                page_num: 1022,
                npages: 2,
                prot: RW,
                maxprot: 0,
                flags: MAP_PRIVATE | MAP_ANONYMOUS | MAP_FIXED,
                removed: false,
                file_offset: 0,
                file_size: 0,
                cage_id: 7,
                backing: MemoryBackingType::Anonymous,
            },
        }
    );
    assert_eq!(vmmap.double_ended_iter().len(), 3);
    let gone = munmap(call.useraddr, 8192).unwrap();
    assert_eq!(
        gone,
        HostMapping {
            useraddr: 1022 * 4096,
            length: 8192,
            prot: PROT_NONE,
            flags: MAP_PRIVATE | MAP_ANONYMOUS | MAP_FIXED,
            fildes: -1,
            off: 0,
        }
    );
    munmap_commit(&mut vmmap, &gone);
    assert_eq!(vmmap.double_ended_iter(), cage_memory().double_ended_iter());
    assert_eq!(vmmap.find_page(1022), None);
    assert_eq!(vmmap.find_page(1023), None);
}

#[test]
fn mmap_rounds_the_length_up() {
    let vmmap = cage_memory();
    let call = mmap(&vmmap, 0, 4097, RW, MAP_PRIVATE | MAP_ANONYMOUS, -1, 0).unwrap();
    assert_eq!(call.length, 8192);
    assert_eq!(call.useraddr, 1022 * 4096);
    let call = mmap(&vmmap, 0, 1, RW, MAP_PRIVATE | MAP_ANONYMOUS, -1, 0).unwrap();
    assert_eq!(call.length, 4096);
    assert_eq!(call.useraddr, 1023 * 4096);
}

#[test]
fn mmap_drops_the_flags_it_does_not_know() {
    let vmmap = cage_memory();
    let call = mmap(&vmmap, 0, 4096, RW, MAP_PRIVATE | 0x4000 | 0x100, 9, 4096).unwrap();
    assert_eq!(call.flags, MAP_PRIVATE | MAP_FIXED);
    assert_eq!(call.fildes, 9);
    assert_eq!(call.off, 4096);
}

#[test]
fn mmap_takes_a_hint() {
    let mut vmmap = cage_memory();
    reserved(&mut vmmap, 100, 16);
    let call = mmap(&vmmap, 0, 8192, RW, MAP_PRIVATE | MAP_ANONYMOUS, -1, 0).unwrap();
    assert_eq!(call.useraddr, 98 * 4096);
    let call = mmap(&vmmap, 50 * 4096, 8192, RW, MAP_PRIVATE | MAP_ANONYMOUS, -1, 0).unwrap();
    assert_eq!(call.useraddr, 98 * 4096);
    let call = mmap(&vmmap, 200 * 4096, 8192, RW, MAP_PRIVATE | MAP_ANONYMOUS, -1, 0).unwrap();
    assert_eq!(call.useraddr, 1022 * 4096);
    assert_eq!(
        mmap(&vmmap, 2000 * 4096, 8192, RW, MAP_PRIVATE | MAP_ANONYMOUS, -1, 0).map(|call| call.useraddr),
        Ok(0xffff_e000)
    );
    reserved(&mut vmmap, 1040, ADDRESS_PAGES - 1040);
    assert_eq!(
        mmap(&vmmap, 2000 * 4096, 8192, RW, MAP_PRIVATE | MAP_ANONYMOUS, -1, 0),
        Err(Errno::ENOMEM)
    );
}

#[test]
fn mmap_at_a_fixed_address_goes_over_what_is_there() {
    let mut vmmap = cage_memory();
    let call = mmap(&vmmap, 8 * 4096, 16 * 4096, RW, MAP_SHARED | MAP_FIXED, 4, 8192).unwrap();
    assert_eq!(
        call,
        HostMapping {
            useraddr: 8 * 4096,
            length: 16 * 4096,
            prot: RW,
            flags: MAP_SHARED | MAP_FIXED,
            fildes: 4,
            off: 8192,
        }
    );
    mmap_commit(&mut vmmap, &call, 3);
    let bounds: Vec<(u32, u32, i32)> = vmmap
        .double_ended_iter()
        .iter()
        .map(|region| (region.first, region.last, region.entry.prot))
        .collect();
    assert_eq!(bounds, vec![(0, 7, PROT_NONE), (8, 23, RW), (1024, 1039, PROT_NONE)]);
    assert_eq!(vmmap.find_page(8).unwrap().file_offset, 8192);
    // the mapping is backed by the file, and the piece below it names its range
    assert_eq!(vmmap.find_page(8).unwrap().backing, MemoryBackingType::FileDescriptor(4));
    assert_eq!(vmmap.find_page(0).unwrap().page_num, 0);
    assert_eq!(vmmap.find_page(0).unwrap().npages, 8);
}

#[test]
fn mapping_records_what_backs_it() {
    let mut vmmap = cage_memory();
    let anonymous = mmap(&vmmap, 0, 4096, RW, MAP_PRIVATE | MAP_ANONYMOUS, 7, 0).unwrap();
    mmap_commit(&mut vmmap, &anonymous, 1);
    assert_eq!(vmmap.find_page(1023).unwrap().backing, MemoryBackingType::Anonymous);
    let file = mmap(&vmmap, 0, 4096, RW, MAP_PRIVATE, 7, 0).unwrap();
    mmap_commit(&mut vmmap, &file, 1);
    assert_eq!(vmmap.find_page(1022).unwrap().backing, MemoryBackingType::FileDescriptor(7));
    let nothing = mmap(&vmmap, 0, 4096, RW, MAP_PRIVATE, -1, 0).unwrap();
    mmap_commit(&mut vmmap, &nothing, 1);
    assert_eq!(vmmap.find_page(1021).unwrap().backing, MemoryBackingType::NoBacking);
}

#[test]
fn mmap_at_a_fixed_address_beyond_the_last_page_is_enomem() {
    let vmmap = cage_memory();
    assert!(mmap(&vmmap, 0xffff_f000, 4096, RW, MAP_PRIVATE | MAP_FIXED, -1, 0).is_ok());
    assert_eq!(
        mmap(&vmmap, 0xffff_f000, 4097, RW, MAP_PRIVATE | MAP_FIXED, -1, 0),
        Err(Errno::ENOMEM)
    );
    assert_eq!(
        mmap(&vmmap, 4096, 0xffff_ffff_f000, RW, MAP_PRIVATE | MAP_FIXED, -1, 0),
        Err(Errno::ENOMEM)
    );
    assert_eq!(mmap(&vmmap, 4096, u64::MAX, RW, MAP_PRIVATE | MAP_FIXED, -1, 0), Err(Errno::ENOMEM));
    assert_eq!(mmap(&vmmap, 4096, u64::MAX, RW, MAP_FIXED, -1, 0), Err(Errno::EINVAL));
}

#[test]
fn mmap_of_no_bytes_asks_nothing_and_records_nothing() {
    let mut vmmap = cage_memory();
    let call = mmap(&vmmap, 4096, 0, RW, MAP_PRIVATE | MAP_FIXED, -1, 0).unwrap();
    assert_eq!(call.length, 0);
    mmap_commit(&mut vmmap, &call, 1);
    assert_eq!(vmmap.double_ended_iter(), cage_memory().double_ended_iter());
    // without an address of its own the request keeps the one it came with
    let call = mmap(&vmmap, 8192, 0, RW, MAP_PRIVATE | MAP_ANONYMOUS, -1, 0).unwrap();
    assert_eq!((call.useraddr, call.length), (8192, 0));
}

#[test]
fn munmap_refuses_an_address_off_the_page() {
    assert_eq!(munmap(5, 4096), Err(Errno::EINVAL));
    assert_eq!(munmap(4096, u64::MAX), Err(Errno::EINVAL));
    assert_eq!(munmap(4096, 0xffff_ffff_f000), Err(Errno::EINVAL));
    assert!(munmap(0xffff_f000, 4096).is_ok());
    assert_eq!(munmap(0xffff_f000, 4097), Err(Errno::EINVAL));
}

#[test]
fn munmap_rounds_the_length_up_and_cuts_regions() {
    let mut vmmap = cage_memory();
    let gone = munmap(4 * 4096, 4097).unwrap();
    assert_eq!(gone.length, 8192);
    munmap_commit(&mut vmmap, &gone);
    let bounds: Vec<(u32, u32)> =
        vmmap.double_ended_iter().iter().map(|region| (region.first, region.last)).collect();
    assert_eq!(bounds, vec![(0, 3), (6, 15), (1024, 1039)]);
    let nothing = munmap(0, 0).unwrap();
    munmap_commit(&mut vmmap, &nothing);
    assert_eq!(vmmap.double_ended_iter().len(), 3);
}

#[test]
fn fork_copies_private_memory_and_remaps_shared_memory() {
    let mut parent = Vmmap::new();
    parent
        .add_entry_with_override(5, 1, RW, RW, MAP_PRIVATE | MAP_ANONYMOUS, MemoryBackingType::Anonymous, 0, 0, 1)
        .unwrap();
    assert_eq!(fork_vmmap(&parent), vec![ForkStep::Copy { addr: 5 * 4096, len: 4096, prot: RW }]);
    parent
        .add_entry_with_override(8, 3, PROT_READ, RW, MAP_SHARED | MAP_ANONYMOUS, MemoryBackingType::Anonymous, 0, 0, 1)
        .unwrap();
    parent
        .add_entry_with_override(20, 4, PROT_NONE, RW, MAP_PRIVATE | MAP_ANONYMOUS, MemoryBackingType::Anonymous, 0, 0, 1)
        .unwrap();
    parent
        .add_entry_with_override(30, 2, PROT_READ, RW, MAP_PRIVATE, MemoryBackingType::FileDescriptor(3), 0, 0, 1)
        .unwrap();
    assert_eq!(
        fork_vmmap(&parent),
        vec![
            ForkStep::Copy { addr: 5 * 4096, len: 4096, prot: RW },
            ForkStep::Remap { addr: 8 * 4096, len: 3 * 4096 },
            ForkStep::Copy { addr: 30 * 4096, len: 2 * 4096, prot: PROT_READ },
        ]
    );
}

#[test]
fn fork_goes_by_what_is_left_of_a_region() {
    let mut parent = Vmmap::new();
    parent
        .add_entry_with_override(0, 10, RW, RW, MAP_PRIVATE | MAP_ANONYMOUS, MemoryBackingType::Anonymous, 0, 0, 1)
        .unwrap();
    parent.remove_entry(3, 4).unwrap();
    assert_eq!(
        fork_vmmap(&parent),
        vec![
            ForkStep::Copy { addr: 0, len: 3 * 4096, prot: RW },
            ForkStep::Copy { addr: 7 * 4096, len: 3 * 4096, prot: RW },
        ]
    );
    assert!(fork_vmmap(&Vmmap::new()).is_empty());
}

#[test]
fn fork_steps_fit_the_highest_pages() {
    let mut parent = Vmmap::new();
    parent
        .add_entry_with_override(u32::MAX - 2, 2, RW, RW, MAP_PRIVATE, MemoryBackingType::Anonymous, 0, 0, 1)
        .unwrap();
    assert_eq!(
        fork_vmmap(&parent),
        vec![ForkStep::Copy { addr: (u32::MAX as u64 - 2) * 4096, len: 8192, prot: RW }]
    );
}

#[test]
fn write_prot_is_kept_in_the_entry() {
    let mut vmmap = cage_memory();
    let call = mmap(&vmmap, 0, 4096, PROT_WRITE, MAP_PRIVATE | MAP_ANONYMOUS, -1, 0).unwrap();
    mmap_commit(&mut vmmap, &call, 1);
    assert_eq!(vmmap.find_page(1023).unwrap().prot, PROT_WRITE);
    assert_eq!(vmmap.check_addr_mapping(1023, 1, PROT_READ), Some(1024));
}
