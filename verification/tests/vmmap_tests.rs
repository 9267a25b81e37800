use rawposix::constants::ADDRESS_PAGES;
use rawposix::constants::PROT_NONE;
use rawposix::constants::PROT_READ;
use rawposix::constants::PROT_WRITE;
use rawposix::vmmap::Vmmap;
use rawposix::vmmap::VmmapError;
use rawposix::vmmap_model::MemoryBackingType;
use rawposix::vmmap_model::PageRange;
use rawposix::vmmap_model::Region;
use rawposix::vmmap_model::VmmapEntry;

const RW: i32 = PROT_READ | PROT_WRITE;
const RO: i32 = PROT_READ;

fn entry(page_num: u32, npages: u32, prot: i32) -> VmmapEntry {
    VmmapEntry::new(page_num, npages, prot, RW, 0, false, 0, 0, 1, MemoryBackingType::Anonymous)
}

fn bounds(vmmap: &Vmmap) -> Vec<(u32, u32, i32)> {
    vmmap
        .double_ended_iter()
        .iter()
        .map(|region| (region.first, region.last, region.entry.prot))
        .collect()
}

fn with_regions(regions: &[(u32, u32, i32)]) -> Vmmap {
    let mut vmmap = Vmmap::new();
    for (page_num, npages, prot) in regions {
        vmmap.add_entry(entry(*page_num, *npages, *prot));
    }
    vmmap
}

#[test]
fn entry_new_keeps_every_field() {
    let made = VmmapEntry::new(3, 4, 1, 7, 2, true, 4096, 8192, 9, MemoryBackingType::SharedMemory(5));
    assert_eq!(
        made,
        VmmapEntry {
            page_num: 3,
            npages: 4,
            prot: 1,
            maxprot: 7,
            flags: 2,
            removed: true,
            file_offset: 4096,
            file_size: 8192,
            cage_id: 9,
            backing: MemoryBackingType::SharedMemory(5),
        }
    );
    assert_eq!(made.max_prot(), PROT_NONE);
}

#[test]
fn new_map_has_nothing() {
    let vmmap = Vmmap::new();
    assert!(vmmap.double_ended_iter().is_empty());
    assert_eq!(vmmap.first_entry(), None);
    assert_eq!(vmmap.last_entry(), None);
    assert_eq!(vmmap.find_page(0), None);
    assert!(!vmmap.check_existing_mapping(0, 1, PROT_NONE));
}

#[test]
fn new_map_is_one_free_run() {
    let vmmap = Vmmap::new();
    assert_eq!(vmmap.find_space(1), Some(PageRange { start: 0, end: ADDRESS_PAGES }));
    assert_eq!(vmmap.find_space(ADDRESS_PAGES - 1), Some(PageRange { start: 0, end: ADDRESS_PAGES }));
    assert_eq!(vmmap.find_space(ADDRESS_PAGES), None);
    assert_eq!(vmmap.find_space_above_hint(1, 7), Some(PageRange { start: 7, end: ADDRESS_PAGES }));
    assert_eq!(
        vmmap.find_map_space(2, 1),
        Some(PageRange { start: ADDRESS_PAGES - 2, end: ADDRESS_PAGES })
    );
    assert_eq!(vmmap.find_map_space(ADDRESS_PAGES, 1), Some(PageRange { start: 0, end: ADDRESS_PAGES }));
    assert_eq!(vmmap.find_map_space(ADDRESS_PAGES + 1, 1), None);
    assert_eq!(
        vmmap.find_map_space_with_hint(1, 1, 5),
        Some(PageRange { start: ADDRESS_PAGES - 1, end: ADDRESS_PAGES })
    );
}

#[test]
fn added_entry_is_found_at_its_first_page() {
    let mut vmmap = Vmmap::new();
    vmmap.add_entry(entry(100, 8, RW));
    let found = vmmap.find_page(100).unwrap();
    assert_eq!(found.page_num, 100);
    assert_eq!(found.npages, 8);
    assert_eq!(found.prot, RW);
    assert_eq!(vmmap.find_page(107), Some(&entry(100, 8, RW)));
    assert_eq!(vmmap.find_page(99), None);
    assert_eq!(vmmap.find_page(108), None);
    assert_eq!(bounds(&vmmap), vec![(100, 107, RW)]);
}

#[test]
fn added_entry_goes_over_what_was_there() {
    let mut vmmap = with_regions(&[(0, 10, RW)]);
    vmmap.add_entry(entry(8, 4, RO));
    assert_eq!(bounds(&vmmap), vec![(0, 7, RW), (8, 11, RO)]);
    assert_eq!(vmmap.find_page(8).unwrap().page_num, 8);
    // what is left of the first region has an entry for what is left
    assert_eq!(vmmap.find_page(7), Some(&entry(0, 8, RW)));
}

#[test]
fn added_entry_is_never_marked_removed() {
    let mut vmmap = Vmmap::new();
    let mut marked = entry(4, 2, RW);
    marked.removed = true;
    vmmap.add_entry(marked);
    assert_eq!(vmmap.find_page(4), Some(&entry(4, 2, RW)));
}

#[test]
fn entry_over_no_pages_changes_nothing() {
    let mut vmmap = with_regions(&[(0, 10, RW)]);
    vmmap.add_entry(entry(3, 0, RO));
    assert_eq!(bounds(&vmmap), vec![(0, 9, RW)]);
}

#[test]
fn update_of_an_empty_range_is_invalid_input() {
    let mut vmmap = with_regions(&[(0, 10, RW)]);
    assert_eq!(
        vmmap.update(3, 0, RO, RW, 0, MemoryBackingType::Anonymous, false, 0, 0, 1),
        Err(VmmapError::InvalidInput)
    );
    assert_eq!(
        vmmap.update(3, 0, RO, RW, 0, MemoryBackingType::Anonymous, true, 0, 0, 1),
        Err(VmmapError::InvalidInput)
    );
    assert_eq!(
        vmmap.add_entry_with_override(3, 0, RO, RW, 0, MemoryBackingType::Anonymous, 0, 0, 1),
        Err(VmmapError::InvalidInput)
    );
    assert_eq!(vmmap.remove_entry(3, 0), Err(VmmapError::InvalidInput));
    assert_eq!(bounds(&vmmap), vec![(0, 9, RW)]);
}

#[test]
fn update_records_the_fields_given() {
    let mut vmmap = Vmmap::new();
    assert_eq!(
        vmmap.update(5, 3, RO, RW, 34, MemoryBackingType::FileDescriptor(6), false, 4096, 12288, 2),
        Ok(())
    );
    assert_eq!(
        vmmap.double_ended_iter(),
        vec![Region {
            first: 5,
            last: 7,
            entry: VmmapEntry {
                page_num: 5,
                npages: 3,
                prot: RO,
                maxprot: RW,
                flags: 34,
                removed: false,
                file_offset: 4096,
                file_size: 12288,
                cage_id: 2,
                backing: MemoryBackingType::FileDescriptor(6),
            },
        }]
    );
}

#[test]
fn override_splits_the_region_it_lands_in() {
    let mut vmmap = with_regions(&[(0, 10, RW)]);
    assert_eq!(
        vmmap.add_entry_with_override(4, 2, RO, RW, 0, MemoryBackingType::Anonymous, 0, 0, 1),
        Ok(())
    );
    assert_eq!(bounds(&vmmap), vec![(0, 3, RW), (4, 5, RO), (6, 9, RW)]);
}

#[test]
fn override_swallows_regions_and_cuts_the_ones_at_its_ends() {
    let mut vmmap = with_regions(&[(0, 4, RW), (6, 2, RO), (10, 5, RW), (20, 5, RO)]);
    assert_eq!(
        vmmap.add_entry_with_override(2, 10, PROT_NONE, RW, 0, MemoryBackingType::Anonymous, 0, 0, 1),
        Ok(())
    );
    assert_eq!(bounds(&vmmap), vec![(0, 1, RW), (2, 11, PROT_NONE), (12, 14, RW), (20, 24, RO)]);
}

#[test]
fn remove_cuts_a_hole() {
    let mut vmmap = with_regions(&[(0, 10, RW)]);
    assert_eq!(vmmap.remove_entry(3, 4), Ok(()));
    assert_eq!(bounds(&vmmap), vec![(0, 2, RW), (7, 9, RW)]);
    assert_eq!(vmmap.find_page(3), None);
    assert_eq!(vmmap.find_page(6), None);
    assert_eq!(vmmap.find_page(2), Some(&entry(0, 3, RW)));
    assert_eq!(vmmap.find_page(7), Some(&entry(7, 3, RW)));
}

#[test]
fn remove_of_a_whole_region_leaves_no_fragment() {
    let mut vmmap = with_regions(&[(0, 4, RW), (10, 2, RO), (20, 4, RW)]);
    assert_eq!(vmmap.remove_entry(10, 2), Ok(()));
    assert_eq!(bounds(&vmmap), vec![(0, 3, RW), (20, 23, RW)]);
}

#[test]
fn remove_of_what_was_never_mapped_is_fine() {
    let mut vmmap = with_regions(&[(0, 4, RW)]);
    assert_eq!(vmmap.remove_entry(100, 50), Ok(()));
    assert_eq!(bounds(&vmmap), vec![(0, 3, RW)]);
    let mut empty = Vmmap::new();
    assert_eq!(empty.remove_entry(0, 1), Ok(()));
    assert!(empty.double_ended_iter().is_empty());
}

#[test]
fn remove_across_regions_and_gaps() {
    let mut vmmap = with_regions(&[(0, 4, RW), (6, 2, RO), (10, 5, RW)]);
    assert_eq!(vmmap.remove_entry(2, 10), Ok(()));
    assert_eq!(bounds(&vmmap), vec![(0, 1, RW), (12, 14, RW)]);
}

#[test]
fn change_prot_splits_in_three() {
    let mut vmmap = with_regions(&[(0, 10, RW)]);
    vmmap.change_prot(3, 4, RO);
    assert_eq!(bounds(&vmmap), vec![(0, 2, RW), (3, 6, RO), (7, 9, RW)]);
    assert_eq!(
        vmmap.double_ended_iter(),
        vec![
            Region { first: 0, last: 2, entry: entry(0, 3, RW) },
            Region { first: 3, last: 6, entry: entry(3, 4, RO) },
            Region { first: 7, last: 9, entry: entry(7, 3, RW) },
        ]
    );
}

fn ranges_are_named(vmmap: &Vmmap) -> bool {
    vmmap.double_ended_iter().iter().all(|region| {
        region.entry.page_num == region.first && region.entry.npages == region.last - region.first + 1
    })
}

#[test]
fn every_piece_names_its_own_range() {
    let mut vmmap = with_regions(&[(0, 4, RW), (6, 2, RW), (10, 5, RW), (20, 2, RW)]);
    assert!(ranges_are_named(&vmmap));
    vmmap.change_prot(2, 10, RO);
    assert!(ranges_are_named(&vmmap));
    vmmap.remove_entry(7, 4).unwrap();
    assert!(ranges_are_named(&vmmap));
    vmmap.add_entry(entry(13, 8, RW));
    assert!(ranges_are_named(&vmmap));
    vmmap.add_entry_with_override(1, 1, RO, RW, 0, MemoryBackingType::Anonymous, 0, 0, 1).unwrap();
    assert!(ranges_are_named(&vmmap));
    vmmap.change_prot(0, 30, PROT_NONE);
    assert!(ranges_are_named(&vmmap));
    assert_eq!(
        bounds(&vmmap),
        vec![
            (0, 0, PROT_NONE),
            (1, 1, PROT_NONE),
            (2, 3, PROT_NONE),
            (6, 6, PROT_NONE),
            (11, 11, PROT_NONE),
            (12, 12, PROT_NONE),
            (13, 20, PROT_NONE),
            (21, 21, PROT_NONE),
        ]
    );
}

#[test]
fn change_prot_of_a_whole_region_keeps_it_whole() {
    let mut vmmap = with_regions(&[(0, 4, RW), (4, 4, RW), (8, 4, RW)]);
    vmmap.change_prot(4, 4, RO);
    assert_eq!(bounds(&vmmap), vec![(0, 3, RW), (4, 7, RO), (8, 11, RW)]);
    assert_eq!(vmmap.find_page(5), Some(&entry(4, 4, RO)));
}

#[test]
fn change_prot_across_regions_and_gaps() {
    let mut vmmap = with_regions(&[(0, 4, RW), (6, 2, RW), (10, 5, RW), (20, 2, RW)]);
    vmmap.change_prot(2, 10, RO);
    assert_eq!(
        bounds(&vmmap),
        vec![(0, 1, RW), (2, 3, RO), (6, 7, RO), (10, 11, RO), (12, 14, RW), (20, 21, RW)]
    );
    // the gaps stay gaps
    assert_eq!(vmmap.find_page(4), None);
    assert_eq!(vmmap.find_page(9), None);
}

#[test]
fn change_prot_at_one_end_only() {
    let mut vmmap = with_regions(&[(10, 10, RW)]);
    vmmap.change_prot(5, 8, RO);
    assert_eq!(bounds(&vmmap), vec![(10, 12, RO), (13, 19, RW)]);
    vmmap.change_prot(18, 10, PROT_NONE);
    assert_eq!(bounds(&vmmap), vec![(10, 12, RO), (13, 17, RW), (18, 19, PROT_NONE)]);
}

#[test]
fn change_prot_of_nothing_changes_nothing() {
    let mut vmmap = with_regions(&[(0, 10, RW)]);
    vmmap.change_prot(3, 0, RO);
    vmmap.change_prot(50, 5, RO);
    assert_eq!(bounds(&vmmap), vec![(0, 9, RW)]);
}

#[test]
fn existing_mapping_needs_every_page_and_the_protection() {
    let mut vmmap = Vmmap::new();
    vmmap.update(0, 4, RO, RW, 0, MemoryBackingType::Anonymous, false, 0, 0, 1).unwrap();
    vmmap.update(4, 4, RO, RO, 0, MemoryBackingType::Anonymous, false, 0, 0, 1).unwrap();
    vmmap.update(10, 4, RO, RW, 0, MemoryBackingType::Anonymous, false, 0, 0, 1).unwrap();
    assert!(vmmap.check_existing_mapping(0, 4, RW));
    assert!(vmmap.check_existing_mapping(1, 2, PROT_WRITE));
    assert!(vmmap.check_existing_mapping(0, 8, RO));
    // the second region allows no writing
    assert!(!vmmap.check_existing_mapping(0, 8, RW));
    assert!(!vmmap.check_existing_mapping(4, 1, PROT_WRITE));
    // pages 8 and 9 are not mapped
    assert!(!vmmap.check_existing_mapping(4, 8, RO));
    assert!(!vmmap.check_existing_mapping(8, 2, PROT_NONE));
    assert!(!vmmap.check_existing_mapping(9, 3, RO));
    assert!(!vmmap.check_existing_mapping(12, 4, RO));
    assert!(vmmap.check_existing_mapping(10, 4, RW));
    // an empty range is not mapped
    assert!(!vmmap.check_existing_mapping(0, 0, PROT_NONE));
}

#[test]
fn addr_mapping_gives_the_end_of_the_covering_region() {
    let mut vmmap = with_regions(&[(0, 4, RW), (4, 4, RO), (10, 4, PROT_WRITE), (20, 2, PROT_NONE)]);
    assert_eq!(vmmap.check_addr_mapping(0, 2, RW), Some(4));
    assert_eq!(vmmap.check_addr_mapping(1, 3, RO), Some(4));
    assert_eq!(vmmap.check_addr_mapping(0, 6, RO), Some(8));
    assert_eq!(vmmap.check_addr_mapping(0, 6, RW), None);
    assert_eq!(vmmap.check_addr_mapping(6, 6, RO), None);
    // what can be written can be read
    assert_eq!(vmmap.check_addr_mapping(10, 4, RO), Some(14));
    assert_eq!(vmmap.check_addr_mapping(10, 4, RW), Some(14));
    // no access stays no access
    assert_eq!(vmmap.check_addr_mapping(20, 2, RO), None);
    assert_eq!(vmmap.check_addr_mapping(20, 2, PROT_NONE), Some(22));
    assert_eq!(vmmap.check_addr_mapping(0, 0, PROT_NONE), None);
    assert_eq!(vmmap.check_addr_mapping(30, 1, PROT_NONE), None);
}

#[test]
fn addr_mapping_does_not_answer_from_a_stale_memory() {
    let mut vmmap = with_regions(&[(0, 10, RW)]);
    assert_eq!(vmmap.check_addr_mapping(2, 2, RW), Some(10));
    assert_eq!(vmmap.check_addr_mapping(3, 1, RW), Some(10));
    assert_eq!(vmmap.check_addr_mapping(3, 1, 4), None);
    vmmap.change_prot(0, 10, RO);
    assert_eq!(vmmap.check_addr_mapping(2, 2, RW), None);
    assert_eq!(vmmap.check_addr_mapping(2, 2, RO), Some(10));
    vmmap.remove_entry(5, 5).unwrap();
    assert_eq!(vmmap.check_addr_mapping(2, 2, RO), Some(5));
    assert_eq!(vmmap.check_addr_mapping(2, 6, RO), None);
    vmmap.find_page_mut(2).unwrap().prot = PROT_NONE;
    assert_eq!(vmmap.check_addr_mapping(2, 2, RO), None);
    vmmap.add_entry(entry(0, 20, RW));
    assert_eq!(vmmap.check_addr_mapping(2, 6, RO), Some(20));
}

#[test]
fn find_page_mut_changes_the_entry_of_the_whole_region() {
    let mut vmmap = with_regions(&[(0, 4, RW), (4, 4, RW)]);
    assert!(vmmap.find_page_mut(9).is_none());
    {
        let found = vmmap.find_page_mut(5).unwrap();
        assert_eq!(*found, entry(4, 4, RW));
        found.prot = RO;
        found.cage_id = 7;
    }
    assert_eq!(bounds(&vmmap), vec![(0, 3, RW), (4, 7, RO)]);
    assert_eq!(vmmap.find_page(4).unwrap().cage_id, 7);
    assert_eq!(vmmap.find_page(7).unwrap().cage_id, 7);
    assert_eq!(vmmap.find_page(3).unwrap().cage_id, 1);
}

#[test]
fn first_and_last_entry() {
    let vmmap = with_regions(&[(30, 2, RO), (5, 3, RW), (12, 1, PROT_NONE)]);
    assert_eq!(vmmap.first_entry(), Some(Region { first: 5, last: 7, entry: entry(5, 3, RW) }));
    assert_eq!(vmmap.last_entry(), Some(Region { first: 30, last: 31, entry: entry(30, 2, RO) }));
}

#[test]
fn iteration_is_in_ascending_order() {
    let vmmap = with_regions(&[(30, 2, RO), (5, 3, RW), (12, 1, PROT_NONE)]);
    assert_eq!(bounds(&vmmap), vec![(5, 7, RW), (12, 12, PROT_NONE), (30, 31, RO)]);
    let from_six: Vec<u32> = vmmap.find_page_iter(6).iter().map(|region| region.first).collect();
    assert_eq!(from_six, vec![5, 12, 30]);
    let from_eight: Vec<u32> = vmmap.find_page_iter(8).iter().map(|region| region.first).collect();
    assert_eq!(from_eight, vec![12, 30]);
    assert!(vmmap.find_page_iter(32).is_empty());
}

#[test]
fn find_space_wants_one_page_more_than_asked_for() {
    let vmmap = with_regions(&[(0, 10, RW), (20, 10, RW)]);
    // the gap has ten pages
    assert_eq!(vmmap.find_space(9), Some(PageRange { start: 10, end: 20 }));
    assert_eq!(vmmap.find_space(1), Some(PageRange { start: 10, end: 20 }));
    assert_eq!(vmmap.find_space(0), Some(PageRange { start: 10, end: 20 }));
    // more goes above the highest region only
    assert_eq!(vmmap.find_space(10), Some(PageRange { start: 30, end: ADDRESS_PAGES }));
    assert_eq!(vmmap.find_space(ADDRESS_PAGES - 31), Some(PageRange { start: 30, end: ADDRESS_PAGES }));
    assert_eq!(vmmap.find_space(ADDRESS_PAGES - 30), None);
    assert_eq!(vmmap.find_space(u32::MAX), None);
}

#[test]
fn find_space_takes_the_first_gap_that_fits() {
    let vmmap = with_regions(&[(0, 10, RW), (12, 8, RW), (30, 10, RW), (100, 1, RW)]);
    assert_eq!(vmmap.find_space(1), Some(PageRange { start: 10, end: 12 }));
    assert_eq!(vmmap.find_space(2), Some(PageRange { start: 20, end: 30 }));
    assert_eq!(vmmap.find_space(9), Some(PageRange { start: 20, end: 30 }));
    assert_eq!(vmmap.find_space(10), Some(PageRange { start: 40, end: 100 }));
    assert_eq!(vmmap.find_space(59), Some(PageRange { start: 40, end: 100 }));
    assert_eq!(vmmap.find_space(60), Some(PageRange { start: 101, end: ADDRESS_PAGES }));
}

#[test]
fn find_space_never_overlaps_an_entry() {
    let vmmap = with_regions(&[(3, 4, RW), (9, 1, RO), (15, 2, RW), (40, 3, RW)]);
    let regions = vmmap.double_ended_iter();
    for npages in 0..40 {
        if let Some(space) = vmmap.find_space(npages) {
            assert!(space.end - space.start >= npages + 1);
            for region in &regions {
                assert!(space.end <= region.first || region.last < space.start);
            }
        }
    }
}

#[test]
fn find_space_sees_the_runs_below_the_lowest_and_above_the_highest_region() {
    let vmmap = with_regions(&[(100, 10, RW)]);
    assert_eq!(vmmap.find_space(1), Some(PageRange { start: 0, end: 100 }));
    assert_eq!(vmmap.find_space(99), Some(PageRange { start: 0, end: 100 }));
    assert_eq!(vmmap.find_space(100), Some(PageRange { start: 110, end: ADDRESS_PAGES }));
    let low = with_regions(&[(0, 1, RW)]);
    assert_eq!(low.find_space(0), Some(PageRange { start: 1, end: ADDRESS_PAGES }));
    let high = with_regions(&[(5, ADDRESS_PAGES - 5, RW)]);
    assert_eq!(high.find_space(3), Some(PageRange { start: 0, end: 5 }));
    assert_eq!(high.find_space(5), None);
    let full = with_regions(&[(0, ADDRESS_PAGES, RW)]);
    assert_eq!(full.find_space(0), None);
    // pages beyond those that a cage can address are never found
    let beyond = with_regions(&[(0, ADDRESS_PAGES, RW), (ADDRESS_PAGES + 10, 1, RW)]);
    assert_eq!(beyond.find_space(0), None);
    assert_eq!(beyond.find_space_above_hint(0, ADDRESS_PAGES), None);
}

#[test]
fn find_space_above_hint_starts_at_the_hint() {
    let vmmap = with_regions(&[(10, 10, RW), (30, 10, RW), (60, 10, RW)]);
    assert_eq!(vmmap.find_space_above_hint(3, 0), Some(PageRange { start: 0, end: 10 }));
    assert_eq!(vmmap.find_space_above_hint(3, 5), Some(PageRange { start: 5, end: 10 }));
    assert_eq!(vmmap.find_space_above_hint(3, 7), Some(PageRange { start: 20, end: 30 }));
    assert_eq!(vmmap.find_space_above_hint(3, 15), Some(PageRange { start: 20, end: 30 }));
    assert_eq!(vmmap.find_space_above_hint(3, 25), Some(PageRange { start: 25, end: 30 }));
    assert_eq!(vmmap.find_space_above_hint(5, 25), Some(PageRange { start: 40, end: 60 }));
    assert_eq!(vmmap.find_space_above_hint(3, 58), Some(PageRange { start: 70, end: ADDRESS_PAGES }));
    assert_eq!(vmmap.find_space_above_hint(3, 69), Some(PageRange { start: 70, end: ADDRESS_PAGES }));
    assert_eq!(vmmap.find_space_above_hint(3, 4000), Some(PageRange { start: 4000, end: ADDRESS_PAGES }));
    assert_eq!(vmmap.find_space_above_hint(3, ADDRESS_PAGES - 3), None);
    assert_eq!(
        vmmap.find_space_above_hint(3, ADDRESS_PAGES - 4),
        Some(PageRange { start: ADDRESS_PAGES - 4, end: ADDRESS_PAGES })
    );
    assert_eq!(vmmap.find_space_above_hint(0, ADDRESS_PAGES), None);
    assert_eq!(vmmap.find_space_above_hint(0, u32::MAX), None);
}

#[test]
fn find_map_space_takes_the_top_of_the_first_gap() {
    let vmmap = with_regions(&[(0, 16, RW), (1024, 16, RW)]);
    assert_eq!(vmmap.find_map_space(2, 1), Some(PageRange { start: 1022, end: 1024 }));
    assert_eq!(vmmap.find_map_space(1008, 1), Some(PageRange { start: 16, end: 1024 }));
    assert_eq!(
        vmmap.find_map_space(1009, 1),
        Some(PageRange { start: ADDRESS_PAGES - 1009, end: ADDRESS_PAGES })
    );
    assert_eq!(
        vmmap.find_map_space(ADDRESS_PAGES - 1040, 1),
        Some(PageRange { start: 1040, end: ADDRESS_PAGES })
    );
    assert_eq!(vmmap.find_map_space(ADDRESS_PAGES - 1039, 1), None);
    assert_eq!(vmmap.find_map_space(0, 1), Some(PageRange { start: 1024, end: 1024 }));
}

#[test]
fn find_map_space_keeps_to_multiples() {
    let vmmap = with_regions(&[(0, 10, RW), (50, 10, RW), (200, 1, RW)]);
    // the gap from 10 to 50 cut back to multiples of 16 is 16 to 48
    assert_eq!(vmmap.find_map_space(5, 16), Some(PageRange { start: 32, end: 48 }));
    assert_eq!(vmmap.find_map_space(16, 16), Some(PageRange { start: 32, end: 48 }));
    assert_eq!(vmmap.find_map_space(17, 16), Some(PageRange { start: 16, end: 48 }));
    assert_eq!(vmmap.find_map_space(32, 16), Some(PageRange { start: 16, end: 48 }));
    // more goes into the gap from 60 to 200, which is 64 to 192
    assert_eq!(vmmap.find_map_space(33, 16), Some(PageRange { start: 144, end: 192 }));
    assert_eq!(vmmap.find_map_space(128, 16), Some(PageRange { start: 64, end: 192 }));
    // still more goes above the highest region, from 208 on
    assert_eq!(
        vmmap.find_map_space(129, 16),
        Some(PageRange { start: ADDRESS_PAGES - 144, end: ADDRESS_PAGES })
    );
    assert_eq!(
        vmmap.find_map_space(ADDRESS_PAGES - 208, 16),
        Some(PageRange { start: 208, end: ADDRESS_PAGES })
    );
    assert_eq!(vmmap.find_map_space(ADDRESS_PAGES - 207, 16), None);
    assert_eq!(vmmap.find_map_space(40, 1), Some(PageRange { start: 10, end: 50 }));
    let below = with_regions(&[(37, 3, RW)]);
    assert_eq!(below.find_map_space(1, 16), Some(PageRange { start: 16, end: 32 }));
    assert_eq!(below.find_map_space(32, 16), Some(PageRange { start: 0, end: 32 }));
}

#[test]
fn find_map_space_with_hint_starts_at_the_hint() {
    let vmmap = with_regions(&[(0, 16, RW), (100, 16, RW), (1024, 16, RW)]);
    assert_eq!(vmmap.find_map_space_with_hint(2, 1, 1), Some(PageRange { start: 98, end: 100 }));
    assert_eq!(vmmap.find_map_space_with_hint(2, 1, 50), Some(PageRange { start: 98, end: 100 }));
    assert_eq!(vmmap.find_map_space_with_hint(2, 1, 99), Some(PageRange { start: 1022, end: 1024 }));
    assert_eq!(vmmap.find_map_space_with_hint(2, 1, 200), Some(PageRange { start: 1022, end: 1024 }));
    assert_eq!(
        vmmap.find_map_space_with_hint(2, 1, 1023),
        Some(PageRange { start: ADDRESS_PAGES - 2, end: ADDRESS_PAGES })
    );
    assert_eq!(
        vmmap.find_map_space_with_hint(2, 1, 1040),
        Some(PageRange { start: ADDRESS_PAGES - 2, end: ADDRESS_PAGES })
    );
    assert_eq!(vmmap.find_map_space_with_hint(2, 1, ADDRESS_PAGES - 1), None);
    assert_eq!(vmmap.find_map_space_with_hint(2, 1, ADDRESS_PAGES), None);
    assert_eq!(vmmap.find_map_space_with_hint(16, 16, 60), Some(PageRange { start: 80, end: 96 }));
}

#[test]
fn mirror_has_the_same_regions_and_a_life_of_its_own() {
    let mut vmmap = with_regions(&[(0, 4, RW), (10, 2, RO)]);
    let mut copy = vmmap.mirror();
    assert_eq!(copy.double_ended_iter(), vmmap.double_ended_iter());
    copy.remove_entry(0, 4).unwrap();
    vmmap.change_prot(10, 2, RW);
    assert_eq!(bounds(&copy), vec![(10, 11, RO)]);
    assert_eq!(bounds(&vmmap), vec![(0, 3, RW), (10, 11, RW)]);
}

#[test]
fn regions_may_reach_the_highest_pages() {
    let mut vmmap = Vmmap::new();
    vmmap.add_entry(entry(u32::MAX - 4, 4, RW));
    assert_eq!(bounds(&vmmap), vec![(u32::MAX - 4, u32::MAX - 1, RW)]);
    assert_eq!(vmmap.check_addr_mapping(u32::MAX - 2, 1, RO), Some(u32::MAX));
    assert_eq!(vmmap.find_space(0), Some(PageRange { start: 0, end: ADDRESS_PAGES }));
    vmmap.add_entry(entry(0, 1, RW));
    assert_eq!(vmmap.find_space(0), Some(PageRange { start: 1, end: ADDRESS_PAGES }));
    vmmap.remove_entry(u32::MAX - 3, 2).unwrap();
    assert_eq!(
        vmmap.double_ended_iter(),
        vec![
            Region { first: 0, last: 0, entry: entry(0, 1, RW) },
            Region { first: u32::MAX - 4, last: u32::MAX - 4, entry: entry(u32::MAX - 4, 1, RW) },
            Region { first: u32::MAX - 1, last: u32::MAX - 1, entry: entry(u32::MAX - 1, 1, RW) },
        ]
    );
}
