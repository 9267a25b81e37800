//! The page map of a cage: which pages are mapped, and what is recorded of
//! each mapped region.
//!
//! A [`Vmmap`] is seen through its view, a map from each mapped page to the
//! [`Region`] that covers it. Page ranges that are passed in are given by
//! their first page and their number of pages; a [`Region`] names its first
//! and its last page.
use crate::constants::LAST_PAGE;
use crate::constants::PROT_EXEC;
use crate::constants::PROT_NONE;
use crate::constants::PROT_READ;
use crate::constants::PROT_WRITE;
use crate::interval_store::page_regions;
use crate::interval_store::pages_clone;
use crate::interval_store::pages_first;
use crate::interval_store::pages_gaps_trimmed;
use crate::interval_store::pages_get_at_point;
use crate::interval_store::pages_get_at_point_mut;
use crate::interval_store::pages_insert_overwrite;
use crate::interval_store::pages_last;
use crate::interval_store::pages_new;
use crate::interval_store::pages_overlapping;
use crate::interval_store::pages_remove_overlapping;
use crate::interval_store::PageMap;
use crate::vmmap_model::allowed_prot;
use crate::vmmap_model::bound_at;
use crate::vmmap_model::covered_with;
use crate::vmmap_model::first_fit;
use crate::vmmap_model::first_map_fit;
use crate::vmmap_model::gap_len;
use crate::vmmap_model::is_gap;
use crate::vmmap_model::lemma_gap_listed;
use crate::vmmap_model::lemma_map_placement;
use crate::vmmap_model::lemma_round_up;
use crate::vmmap_model::lemma_trunc_down;
use crate::vmmap_model::map_fits;
use crate::vmmap_model::map_placement;
use crate::vmmap_model::range_is_free;
use crate::vmmap_model::round_up_to;
use crate::vmmap_model::trunc_down_to;
use crate::vmmap_model::lemma_listed;
use crate::vmmap_model::lemma_reprotect_end;
use crate::vmmap_model::lemma_reprotect_start;
use crate::vmmap_model::lemma_reprotect_step;
use crate::vmmap_model::is_highest;
use crate::vmmap_model::is_lowest;
use crate::vmmap_model::cut_above;
use crate::vmmap_model::cut_below;
use crate::vmmap_model::cut_out_intervals;
use crate::vmmap_model::lemma_cut_out_intervals;
use crate::vmmap_model::overwrite_intervals;
use crate::vmmap_model::lemma_ranges_stay_named;
use crate::vmmap_model::lemma_settle_neighbours;
use crate::vmmap_model::ranges_named;
use crate::vmmap_model::settle_piece;
use crate::vmmap_model::settled;
use crate::vmmap_model::lemma_with_entry_wf;
use crate::vmmap_model::lists_gaps;
use crate::vmmap_model::lists_touching;
use crate::vmmap_model::no_pages;
use crate::vmmap_model::overwrite_pages;
use crate::vmmap_model::pages_wf;
use crate::vmmap_model::prot_within;
use crate::vmmap_model::readable_prot;
use crate::vmmap_model::reprotected_below;
use crate::vmmap_model::reprotected_pages;
use crate::vmmap_model::unmapped_pages;
use crate::vmmap_model::with_entry;
use crate::vmmap_model::MemoryBackingType;
use crate::vmmap_model::PageRange;
use crate::vmmap_model::Region;
use crate::vmmap_model::VmmapEntry;
use vstd::prelude::*;

verus! {

/// Why a change to a page map was refused.
#[derive(Clone, Copy, PartialEq, Eq, Debug, Structural)]
pub enum VmmapError {
    /// The range of pages is empty.
    InvalidInput,
}

/// The page map of one cage.
pub struct Vmmap {
    entries: PageMap,
    cached_entry: Option<Region>,
}

impl View for Vmmap {
    type V = Map<int, Region>;

    closed spec fn view(&self) -> Map<int, Region> {
        page_regions(self.entries)
    }
}

impl Vmmap {
    /// The region that the last successful check of a range ended in, as
    /// it was then; nothing after a change to the map.
    pub closed spec fn remembered(&self) -> Option<Region> {
        self.cached_entry
    }

    /// The regions lie apart, the page after each has a number, and what is
    /// remembered is a region of the map.
    pub open spec fn wf(&self) -> bool {
        &&& pages_wf(self@)
        &&& self.remembered() matches Some(region) ==> self@.contains_key(region.first as int)
            && self@[region.first as int] == region
    }

    /// A page map with no page mapped.
    pub fn new() -> (vmmap: Vmmap)
        ensures
            vmmap.wf(),
            no_pages(vmmap@),
            vmmap.remembered() is None,
    {
        Vmmap { entries: pages_new(), cached_entry: None }
    }

    /// A page map of its own with the same regions.
    pub fn mirror(&self) -> (copy: Vmmap)
        requires
            self.wf(),
        ensures
            copy.wf(),
            copy@ == self@,
            copy.remembered() is None,
    {
        Vmmap { entries: pages_clone(&self.entries), cached_entry: None }
    }

    /// Makes the entry of the region from `first` to `last` name that range.
    fn settle(&mut self, first: u32, last: u32)
        requires
            pages_wf(old(self)@),
            old(self).remembered() is None,
            old(self)@.contains_key(first as int),
            old(self)@[first as int].first == first,
            old(self)@[first as int].last == last,
        ensures
            final(self)@ == settle_piece(old(self)@, first as int),
            final(self).remembered() is None,
    {
        match pages_get_at_point_mut(&mut self.entries, first) {
            Some(entry) => {
                entry.page_num = first;
                entry.npages = last - first + 1;
            },
            None => {},
        }
    }

    /// Gives the pages from `first` to `last` the entry, or unmaps them;
    /// the pieces that are left of the regions at the two ends get entries
    /// that name their ranges.
    fn put(&mut self, first: u32, last: u32, entry: VmmapEntry, remove: bool)
        requires
            old(self).wf(),
            first <= last < u32::MAX,
        ensures
            final(self).wf(),
            final(self).remembered() is None,
            final(self)@ == (if remove {
                unmapped_pages(old(self)@, first, last)
            } else {
                overwrite_pages(old(self)@, first, last, entry)
            }),
    {
        let touching = pages_overlapping(&self.entries, first, last);
        proof {
            lemma_settle_neighbours(self@, first, last, entry, remove, touching@);
            lemma_cut_out_intervals(self@, first, last, entry);
        }
        let ghost raw = if remove {
            cut_out_intervals(self@, first, last)
        } else {
            overwrite_intervals(self@, first, last, entry)
        };
        self.cached_entry = None;
        pages_insert_overwrite(&mut self.entries, first, last, entry);
        if remove {
            pages_remove_overlapping(&mut self.entries, first, last);
        }
        assert(self@ == raw);
        if touching.len() > 0 {
            let low = touching[0];
            if low.first < first {
                assert(cut_below(touching@, first));
                self.settle(low.first, first - 1);
            }
            let high = touching[touching.len() - 1];
            if high.last > last {
                assert(cut_above(touching@, last));
                self.settle(last + 1, high.last);
            }
        }
    }

    /// Maps or unmaps the pages from `page_num` on, `npages` of them.
    ///
    /// With `remove` unset the range becomes one region with an entry of
    /// the fields given; with `remove` set it becomes unmapped. Either way
    /// the regions that reached into the range are cut back to what lies
    /// outside, and the entry of each piece names the range of the piece.
    /// What was remembered of a check is forgotten. An empty range is
    /// refused with `InvalidInput` and changes nothing.
    pub fn update(
        &mut self,
        page_num: u32,
        npages: u32,
        prot: i32,
        maxprot: i32,
        flags: i32,
        backing: MemoryBackingType,
        remove: bool,
        file_offset: i64,
        file_size: i64,
        cage_id: u64,
    ) -> (result: Result<(), VmmapError>)
        requires
            old(self).wf(),
            page_num + npages <= u32::MAX,
        ensures
            final(self).wf(),
            ranges_named(old(self)@) ==> ranges_named(final(self)@),
            npages == 0 ==> result == Err::<(), VmmapError>(VmmapError::InvalidInput) && final(self)@ == old(self)@ && final(self).remembered() == old(self).remembered(),
            npages > 0 ==> result == Ok::<(), VmmapError>(()) && final(self).remembered() is None,
            npages > 0 && remove ==> final(self)@ == unmapped_pages(
                old(self)@,
                page_num,
                (page_num + npages - 1) as u32,
            ),
            npages > 0 && !remove ==> final(self)@ == overwrite_pages(
                old(self)@,
                page_num,
                (page_num + npages - 1) as u32,
                VmmapEntry {
                    page_num,
                    npages,
                    prot,
                    maxprot,
                    flags,
                    removed: false,
                    file_offset,
                    file_size,
                    cage_id,
                    backing,
                },
            ),
    {
        if npages == 0 {
            return Err(VmmapError::InvalidInput);
        }
        proof {
            if ranges_named(self@) {
                lemma_ranges_stay_named(
                    self@,
                    page_num,
                    (page_num + npages - 1) as u32,
                    VmmapEntry {
                        page_num,
                        npages,
                        prot,
                        maxprot,
                        flags,
                        removed: false,
                        file_offset,
                        file_size,
                        cage_id,
                        backing,
                    },
                    prot,
                );
            }
        }
        let new_region_start_page: u32 = page_num;
        let new_region_last_page: u32 = page_num + (npages - 1);
        let new_entry = VmmapEntry {
            page_num,
            npages,
            prot,
            maxprot,
            flags,
            removed: false,
            file_offset,
            file_size,
            cage_id,
            backing,
        };
        self.put(new_region_start_page, new_region_last_page, new_entry, remove);
        Ok(())
    }

    /// Maps the range that the entry names, with the entry's fields; an
    /// entry over no pages changes nothing.
    pub fn add_entry(&mut self, vmmap_entry_ref: VmmapEntry)
        requires
            old(self).wf(),
            vmmap_entry_ref.page_num + vmmap_entry_ref.npages <= u32::MAX,
        ensures
            final(self).wf(),
            vmmap_entry_ref.npages == 0 ==> final(self)@ == old(self)@ && final(self).remembered() == old(self).remembered(),
            vmmap_entry_ref.npages > 0 ==> final(self).remembered() is None,
            vmmap_entry_ref.npages > 0 ==> final(self)@ == overwrite_pages(
                old(self)@,
                vmmap_entry_ref.page_num,
                (vmmap_entry_ref.page_num + vmmap_entry_ref.npages - 1) as u32,
                VmmapEntry {
                    page_num: vmmap_entry_ref.page_num,
                    npages: vmmap_entry_ref.npages,
                    prot: vmmap_entry_ref.prot,
                    maxprot: vmmap_entry_ref.maxprot,
                    flags: vmmap_entry_ref.flags,
                    removed: false,
                    file_offset: vmmap_entry_ref.file_offset,
                    file_size: vmmap_entry_ref.file_size,
                    cage_id: vmmap_entry_ref.cage_id,
                    backing: vmmap_entry_ref.backing,
                },
            ),
            vmmap_entry_ref.npages > 0 ==> {
                let found = final(self)@[vmmap_entry_ref.page_num as int];
                &&& final(self)@.contains_key(vmmap_entry_ref.page_num as int)
                &&& found.first == vmmap_entry_ref.page_num
                &&& found.last == vmmap_entry_ref.page_num + vmmap_entry_ref.npages - 1
                &&& found.entry.page_num == vmmap_entry_ref.page_num
                &&& found.entry.npages == vmmap_entry_ref.npages
                &&& found.entry.prot == vmmap_entry_ref.prot
            },
    {
        let _ = self.update(
            vmmap_entry_ref.page_num,
            vmmap_entry_ref.npages,
            vmmap_entry_ref.prot,
            vmmap_entry_ref.maxprot,
            vmmap_entry_ref.flags,
            vmmap_entry_ref.backing,
            false,
            vmmap_entry_ref.file_offset,
            vmmap_entry_ref.file_size,
            vmmap_entry_ref.cage_id,
        );
    }

    /// Maps the pages from `page_num` on, `npages` of them, as one region
    /// with an entry of the fields given, over whatever was mapped there.
    /// An empty range is refused with `InvalidInput` and changes nothing.
    pub fn add_entry_with_override(
        &mut self,
        page_num: u32,
        npages: u32,
        prot: i32,
        maxprot: i32,
        flags: i32,
        backing: MemoryBackingType,
        file_offset: i64,
        file_size: i64,
        cage_id: u64,
    ) -> (result: Result<(), VmmapError>)
        requires
            old(self).wf(),
            page_num + npages <= u32::MAX,
        ensures
            final(self).wf(),
            npages == 0 ==> result == Err::<(), VmmapError>(VmmapError::InvalidInput) && final(self)@ == old(self)@ && final(self).remembered() == old(self).remembered(),
            npages > 0 ==> final(self).remembered() is None,
            npages > 0 ==> result == Ok::<(), VmmapError>(()) && final(self)@ == overwrite_pages(
                old(self)@,
                page_num,
                (page_num + npages - 1) as u32,
                VmmapEntry {
                    page_num,
                    npages,
                    prot,
                    maxprot,
                    flags,
                    removed: false,
                    file_offset,
                    file_size,
                    cage_id,
                    backing,
                },
            ),
    {
        self.update(
            page_num,
            npages,
            prot,
            maxprot,
            flags,
            backing,
            false,
            file_offset,
            file_size,
            cage_id,
        )
    }

    /// Unmaps the pages from `page_num` on, `npages` of them, mapped or
    /// not; regions that reach into the range are cut back to what lies
    /// outside. An empty range is refused with `InvalidInput` and changes
    /// nothing.
    pub fn remove_entry(&mut self, page_num: u32, npages: u32) -> (result: Result<(), VmmapError>)
        requires
            old(self).wf(),
            page_num + npages <= u32::MAX,
        ensures
            final(self).wf(),
            npages == 0 ==> result == Err::<(), VmmapError>(VmmapError::InvalidInput) && final(self)@ == old(self)@ && final(self).remembered() == old(self).remembered(),
            npages > 0 ==> final(self).remembered() is None,
            npages > 0 ==> result == Ok::<(), VmmapError>(()) && final(self)@ == unmapped_pages(
                old(self)@,
                page_num,
                (page_num + npages - 1) as u32,
            ),
            npages > 0 ==> forall|page: int|
                page_num <= page < page_num + npages ==> !final(self)@.contains_key(page),
    {
        self.update(page_num, npages, 0, 0, 0, MemoryBackingType::NoBacking, true, 0, 0, 0)
    }

    /// The entry of the region that covers the page, if the page is mapped.
    pub fn find_page(&self, page_num: u32) -> (entry: Option<&VmmapEntry>)
        ensures
            entry == (if self@.contains_key(page_num as int) {
                Some(&self@[page_num as int].entry)
            } else {
                None
            }),
    {
        pages_get_at_point(&self.entries, page_num)
    }

    /// The entry of the region that covers the page, to be changed in
    /// place, if the page is mapped. What the caller leaves in it is the
    /// entry of the whole region. What was remembered of a check is
    /// forgotten.
    pub fn find_page_mut(&mut self, page_num: u32) -> (entry: Option<&mut VmmapEntry>)
        requires
            old(self).wf(),
        ensures
            final(self).wf(),
            final(self).remembered() is None,
            match entry {
                Some(found) => {
                    &&& old(self)@.contains_key(page_num as int)
                    &&& *found == old(self)@[page_num as int].entry
                    &&& final(self)@ == with_entry(old(self)@, page_num as int, *final(found))
                },
                None => !old(self)@.contains_key(page_num as int) && final(self)@ == old(self)@,
            },
    {
        proof {
            assert forall|left: VmmapEntry| self@.contains_key(page_num as int) implies pages_wf(
                #[trigger] with_entry(self@, page_num as int, left),
            ) by {
                lemma_with_entry_wf(self@, page_num as int, left);
            }
        }
        self.cached_entry = None;
        pages_get_at_point_mut(&mut self.entries, page_num)
    }

    /// Gives the mapped pages from `page_num` on, `npages` of them, the
    /// protection `new_prot`.
    ///
    /// A region that lies only partly in the range is split at the range's
    /// ends: the part inside becomes a region of its own with the new
    /// protection, the parts outside keep the old one, and the entry of
    /// each part names the range of the part. Unmapped pages stay unmapped.
    /// What was remembered of a check is forgotten. An empty range changes
    /// nothing.
    pub fn change_prot(&mut self, page_num: u32, npages: u32, new_prot: i32)
        requires
            old(self).wf(),
            page_num + npages <= u32::MAX,
        ensures
            final(self).wf(),
            ranges_named(old(self)@) ==> ranges_named(final(self)@),
            npages == 0 ==> final(self)@ == old(self)@ && final(self).remembered() == old(self).remembered(),
            npages > 0 ==> final(self).remembered() is None && final(self)@ == reprotected_pages(
                old(self)@,
                page_num,
                (page_num + npages - 1) as u32,
                new_prot,
            ),
    {
        if npages == 0 {
            return;
        }
        proof {
            if ranges_named(self@) {
                lemma_ranges_stay_named(
                    self@,
                    page_num,
                    (page_num + npages - 1) as u32,
                    settled(
                        Region {
                            first: page_num,
                            last: (page_num + npages - 1) as u32,
                            entry: self@[page_num as int].entry,
                        },
                    ).entry,
                    new_prot,
                );
            }
        }
        let new_region_start_page: u32 = page_num;
        let new_region_last_page: u32 = page_num + (npages - 1);
        self.cached_entry = None;
        let overlapping = pages_overlapping(
            &self.entries,
            new_region_start_page,
            new_region_last_page,
        );
        proof {
            lemma_reprotect_start(
                self@,
                new_region_start_page,
                new_region_last_page,
                new_prot,
                overlapping@,
            );
        }
        let mut index: usize = 0;
        while index < overlapping.len()
            invariant
                0 <= index <= overlapping.len(),
                new_region_start_page <= new_region_last_page < u32::MAX,
                pages_wf(old(self)@),
                lists_touching(
                    old(self)@,
                    new_region_start_page,
                    new_region_last_page,
                    overlapping@,
                ),
                self.wf(),
                self.remembered() is None,
                self@ =~= reprotected_below(
                    old(self)@,
                    new_region_start_page,
                    new_region_last_page,
                    new_prot,
                    bound_at(overlapping@, index as int),
                ),
            decreases overlapping.len() - index,
        {
            let region = overlapping[index];
            let ent_start: u32 = if region.first < new_region_start_page {
                new_region_start_page
            } else {
                region.first
            };
            let ent_last: u32 = if region.last > new_region_last_page {
                new_region_last_page
            } else {
                region.last
            };
            proof {
                lemma_reprotect_step(
                    old(self)@,
                    new_region_start_page,
                    new_region_last_page,
                    new_prot,
                    overlapping@,
                    index as int,
                );
            }
            let mut interval_val = region.entry;
            interval_val.prot = new_prot;
            interval_val.page_num = ent_start;
            interval_val.npages = ent_last - ent_start + 1;
            self.put(ent_start, ent_last, interval_val, false);
            index = index + 1;
        }
        proof {
            lemma_reprotect_end(
                old(self)@,
                new_region_start_page,
                new_region_last_page,
                new_prot,
                overlapping@,
            );
        }
    }

    /// Walks the regions that have a page from `first` to `last` and finds
    /// out whether they cover every page and allow `prot`; if so, the
    /// region that covers `last`.
    fn covering(&self, first: u32, last: u32, prot: i32, against_max: bool) -> (found: Option<
        Region,
    >)
        requires
            self.wf(),
            first <= last,
        ensures
            found is Some <==> covered_with(self@, first, last, prot, against_max),
            found matches Some(region) ==> self@[last as int] == region,
    {
        let overlapping = pages_overlapping(&self.entries, first, last);
        let mut current_page: u32 = first;
        let mut index: usize = 0;
        while index < overlapping.len()
            invariant
                0 <= index <= overlapping.len(),
                first <= current_page <= last,
                self.wf(),
                lists_touching(self@, first, last, overlapping@),
                index == 0 ==> current_page == first,
                index > 0 ==> overlapping[index - 1].last + 1 == current_page,
                forall|page: int|
                    first <= page < current_page ==> #[trigger] self@.contains_key(page)
                        && prot_within(prot, allowed_prot(self@[page].entry, against_max)),
            decreases overlapping.len() - index,
        {
            let region = overlapping[index];
            proof {
                assert(self@.contains_key(region.first as int));
                assert(self@[region.first as int] == region);
                if index > 0 {
                    assert(overlapping[index - 1].last < overlapping[index as int].first);
                }
            }
            if region.first > current_page {
                proof {
                    if self@.contains_key(current_page as int) {
                        let listed = lemma_listed(
                            self@,
                            first,
                            last,
                            overlapping@,
                            current_page as int,
                        );
                        if listed < index {
                            if listed < index - 1 {
                                assert(overlapping[listed].last < overlapping[index - 1].first);
                                assert(self@.contains_key(overlapping[index - 1].first as int));
                            }
                        } else if listed > index {
                            assert(overlapping[index as int].last < overlapping[listed].first);
                        }
                    }
                    assert(!self@.contains_key(current_page as int));
                }
                return None;
            }
            proof {
                assert(region.first <= current_page <= region.last);
                assert(self@.contains_key(current_page as int));
                assert(self@[current_page as int] == region);
            }
            let allowed: i32 = if against_max {
                region.entry.maxprot
            } else {
                host_prot(region.entry.prot)
            };
            if !prot_allowed(prot, allowed) {
                return None;
            }
            if region.last >= last {
                proof {
                    assert forall|page: int| first <= page <= last implies #[trigger] self@.contains_key(
                        page,
                    ) && prot_within(prot, allowed_prot(self@[page].entry, against_max)) by {
                        if page >= current_page {
                            assert(region.first <= page <= region.last);
                            assert(self@.contains_key(page));
                            assert(self@[page] == region);
                            assert(allowed == allowed_prot(region.entry, against_max));
                        }
                    }
                    assert(self@.contains_key(last as int));
                }
                return Some(region);
            }
            proof {
                assert forall|page: int| first <= page < region.last + 1 implies #[trigger] self@.contains_key(
                    page,
                ) && prot_within(prot, allowed_prot(self@[page].entry, against_max)) by {
                    if page >= current_page {
                        assert(region.first <= page <= region.last);
                        assert(self@.contains_key(page));
                        assert(self@[page] == region);
                        assert(allowed == allowed_prot(region.entry, against_max));
                    }
                }
            }
            current_page = region.last + 1;
            index = index + 1;
        }
        proof {
            if self@.contains_key(current_page as int) {
                let listed = lemma_listed(self@, first, last, overlapping@, current_page as int);
                if listed < index - 1 {
                    assert(overlapping[listed].last < overlapping[index - 1].first);
                    assert(self@.contains_key(overlapping[index - 1].first as int));
                }
            }
            assert(!self@.contains_key(current_page as int));
        }
        None
    }

    /// Whether every page from `page_num` on, `npages` of them, is mapped by
    /// a region whose `maxprot` allows every bit of `prot`. An empty range
    /// is not.
    pub fn check_existing_mapping(&self, page_num: u32, npages: u32, prot: i32) -> (mapped: bool)
        requires
            self.wf(),
            page_num + npages <= u32::MAX,
        ensures
            mapped == (npages > 0 && covered_with(
                self@,
                page_num,
                (page_num + npages - 1) as u32,
                prot,
                true,
            )),
    {
        if npages == 0 {
            return false;
        }
        self.covering(page_num, page_num + (npages - 1), prot, true).is_some()
    }

    /// The page after the region that covers the last page of the range,
    /// if every page from `page_num` on, `npages` of them, is mapped by a
    /// region whose protection, as the host grants it, allows every bit of
    /// `prot`; `None` otherwise, and for an empty range.
    ///
    /// Where the check succeeds, the region that covers the last page of
    /// the range is remembered, so that the next check of a range within it
    /// needs no walk; where it fails, what was remembered stays. The answer
    /// never depends on what is remembered.
    pub fn check_addr_mapping(&mut self, page_num: u32, npages: u32, prot: i32) -> (end: Option<
        u32,
    >)
        requires
            old(self).wf(),
            page_num + npages <= u32::MAX,
        ensures
            final(self).wf(),
            final(self)@ == old(self)@,
            end == (if npages > 0 && covered_with(
                old(self)@,
                page_num,
                (page_num + npages - 1) as u32,
                prot,
                false,
            ) {
                Some((old(self)@[page_num + npages - 1].last + 1) as u32)
            } else {
                None
            }),
            end is Some ==> final(self).remembered() == Some(old(self)@[page_num + npages - 1]),
            end is None ==> final(self).remembered() == old(self).remembered(),
    {
        if npages == 0 {
            return None;
        }
        let region_last_page: u32 = page_num + (npages - 1);
        match self.cached_entry {
            Some(cached_entry) => {
                if cached_entry.first <= page_num && region_last_page <= cached_entry.last {
                    proof {
                        assert(self@.contains_key(cached_entry.first as int));
                        assert forall|page: int|
                            page_num <= page <= region_last_page implies #[trigger] self@.contains_key(
                            page,
                        ) && self@[page] == cached_entry by {
                            assert(cached_entry.first <= page <= cached_entry.last);
                            assert(self@.contains_key(page));
                        }
                        assert(self@.contains_key(region_last_page as int));
                        assert(self@.contains_key(page_num as int));
                    }
                    if prot_allowed(prot, host_prot(cached_entry.entry.prot)) {
                        return Some(cached_entry.last + 1);
                    } else {
                        return None;
                    }
                }
            },
            None => {},
        }
        match self.covering(page_num, region_last_page, prot, false) {
            Some(region) => {
                proof {
                    assert(self@.contains_key(region_last_page as int));
                    assert(self@.contains_key(region.first as int));
                }
                self.cached_entry = Some(region);
                Some(region.last + 1)
            },
            None => None,
        }
    }

    /// Every region of the map, in ascending order.
    pub fn double_ended_iter(&self) -> (regions: Vec<Region>)
        ensures
            lists_touching(self@, 0, u32::MAX, regions@),
    {
        pages_overlapping(&self.entries, 0, u32::MAX)
    }

    /// The regions of the map that have a page at `page_num` or above, in
    /// ascending order.
    pub fn find_page_iter(&self, page_num: u32) -> (regions: Vec<Region>)
        ensures
            lists_touching(self@, page_num, u32::MAX, regions@),
    {
        pages_overlapping(&self.entries, page_num, u32::MAX)
    }

    /// The least multiple of `pages_per_map` that is not below `npages`.
    fn round_page_num_up_to_map_multiple(&self, npages: u32, pages_per_map: u32) -> (rounded: u64)
        requires
            pages_per_map > 0,
        ensures
            rounded == round_up_to(npages as int, pages_per_map as int),
            npages <= rounded < npages + pages_per_map,
    {
        proof {
            lemma_round_up(npages as int, pages_per_map as int);
            lemma_trunc_down(npages + pages_per_map - 1, pages_per_map as int);
        }
        let unit: u64 = pages_per_map as u64;
        ((npages as u64 + unit - 1) / unit) * unit
    }

    /// The greatest multiple of `pages_per_map` that is not above `npages`.
    fn trunc_page_num_down_to_map_multiple(&self, npages: u64, pages_per_map: u32) -> (cut: u64)
        requires
            pages_per_map > 0,
        ensures
            cut == trunc_down_to(npages as int, pages_per_map as int),
            cut <= npages,
    {
        proof {
            lemma_trunc_down(npages as int, pages_per_map as int);
        }
        let unit: u64 = pages_per_map as u64;
        (npages / unit) * unit
    }

    /// The lowest gap from `first` to `last` that has more pages than
    /// `npages`.
    fn find_space_within(&self, first: u32, last: u32, npages: u32) -> (space: Option<PageRange>)
        requires
            self.wf(),
            first <= last < u32::MAX,
        ensures
            first_fit(self@, first, last, npages + 1, space),
            space matches Some(range) ==> range.end - range.start >= npages + 1 && range_is_free(
                self@,
                range,
            ),
    {
        let gaps = pages_gaps_trimmed(&self.entries, first, last);
        let mut index: usize = 0;
        while index < gaps.len()
            invariant
                0 <= index <= gaps.len(),
                first <= last < u32::MAX,
                lists_gaps(self@, first, last, gaps@),
                forall|earlier: int| 0 <= earlier < index ==> gap_len(#[trigger] gaps[earlier]) < npages + 1,
            decreases gaps.len() - index,
        {
            let gap = gaps[index];
            proof {
                assert(is_gap(self@, first, last, gap));
            }
            if gap.1 - gap.0 >= npages {
                let space = PageRange { start: gap.0, end: gap.1 + 1 };
                proof {
                    assert forall|lower: (u32, u32)| #[trigger]
                        is_gap(self@, first, last, lower) && lower.0 < space.start implies gap_len(
                        lower,
                    ) < npages + 1 by {
                        let listed = lemma_gap_listed(self@, first, last, gaps@, lower);
                        if listed > index {
                            assert(gaps[index as int].1 < gaps[listed].0);
                        }
                    }
                }
                return Some(space);
            }
            index = index + 1;
        }
        proof {
            assert forall|gap: (u32, u32)| #[trigger]
                is_gap(self@, first, last, gap) implies gap_len(gap) < npages + 1 by {
                let listed = lemma_gap_listed(self@, first, last, gaps@, gap);
            }
        }
        None
    }

    /// The placement in the lowest gap from `first` to `last` that has room
    /// for `num_pages` pages at multiples of `pages_per_map`.
    fn find_map_space_within(
        &self,
        first: u32,
        last: u32,
        num_pages: u32,
        pages_per_map: u32,
    ) -> (space: Option<PageRange>)
        requires
            self.wf(),
            first <= last < u32::MAX,
            pages_per_map > 0,
        ensures
            first_map_fit(self@, first, last, num_pages as int, pages_per_map as int, space),
            space matches Some(range) ==> {
                &&& range.end - range.start == round_up_to(num_pages as int, pages_per_map as int)
                &&& range.end % pages_per_map == 0
                &&& range.end <= last + 1
                &&& range_is_free(self@, range)
            },
    {
        let rounded_num_pages: u64 = self.round_page_num_up_to_map_multiple(
            num_pages,
            pages_per_map,
        );
        let gaps = pages_gaps_trimmed(&self.entries, first, last);
        let mut index: usize = 0;
        while index < gaps.len()
            invariant
                0 <= index <= gaps.len(),
                first <= last < u32::MAX,
                pages_per_map > 0,
                rounded_num_pages == round_up_to(num_pages as int, pages_per_map as int),
                lists_gaps(self@, first, last, gaps@),
                forall|earlier: int|
                    0 <= earlier < index ==> !map_fits(
                        #[trigger] gaps[earlier],
                        num_pages as int,
                        pages_per_map as int,
                    ),
            decreases gaps.len() - index,
        {
            let gap = gaps[index];
            proof {
                assert(is_gap(self@, first, last, gap));
                lemma_round_up(num_pages as int, pages_per_map as int);
            }
            let aligned_start_page: u64 = self.round_page_num_up_to_map_multiple(
                gap.0,
                pages_per_map,
            );
            let aligned_end_page: u64 = self.trunc_page_num_down_to_map_multiple(
                gap.1 as u64 + 1,
                pages_per_map,
            );
            if aligned_start_page + rounded_num_pages <= aligned_end_page {
                proof {
                    lemma_map_placement(gap, num_pages as int, pages_per_map as int);
                }
                let space = PageRange {
                    start: (aligned_end_page - rounded_num_pages) as u32,
                    end: aligned_end_page as u32,
                };
                proof {
                    assert forall|lower: (u32, u32)| #[trigger]
                        is_gap(self@, first, last, lower) && lower.0 < gap.0 implies !map_fits(
                        lower,
                        num_pages as int,
                        pages_per_map as int,
                    ) by {
                        let listed = lemma_gap_listed(self@, first, last, gaps@, lower);
                        if listed > index {
                            assert(gaps[index as int].1 < gaps[listed].0);
                        }
                    }
                    assert((space.start as int, space.end as int) == map_placement(
                        gap,
                        num_pages as int,
                        pages_per_map as int,
                    ));
                }
                return Some(space);
            }
            index = index + 1;
        }
        proof {
            assert forall|gap: (u32, u32)| #[trigger]
                is_gap(self@, first, last, gap) implies !map_fits(
                gap,
                num_pages as int,
                pages_per_map as int,
            ) by {
                let listed = lemma_gap_listed(self@, first, last, gaps@, gap);
            }
        }
        None
    }

    /// The lowest run of unmapped pages that has more pages than `npages`,
    /// whole, among the pages that a cage can address: a run between two
    /// regions, the run below the lowest region or the run above the
    /// highest, which ends with [`LAST_PAGE`]. Where no page is mapped, all
    /// those pages are one run. `None` where no run is that long.
    ///
    /// The run has at least one page more than asked for, so that what is
    /// placed in it need not border on a region at both ends.
    pub fn find_space(&self, npages: u32) -> (space: Option<PageRange>)
        requires
            self.wf(),
        ensures
            first_fit(self@, 0, LAST_PAGE, npages + 1, space),
            space matches Some(range) ==> range.end - range.start >= npages + 1 && range_is_free(
                self@,
                range,
            ),
    {
        self.find_space_within(0, LAST_PAGE, npages)
    }

    /// As [`Vmmap::find_space`], among the runs from page `hint` on; `None`
    /// also where `hint` lies beyond the pages that a cage can address.
    pub fn find_space_above_hint(&self, npages: u32, hint: u32) -> (space: Option<PageRange>)
        requires
            self.wf(),
        ensures
            hint > LAST_PAGE ==> space is None,
            hint <= LAST_PAGE ==> first_fit(self@, hint, LAST_PAGE, npages + 1, space),
            space matches Some(range) ==> range.end - range.start >= npages + 1 && range_is_free(
                self@,
                range,
            ),
    {
        if hint > LAST_PAGE {
            None
        } else {
            self.find_space_within(hint, LAST_PAGE, npages)
        }
    }

    /// A run of `num_pages` pages, rounded up to a multiple of
    /// `pages_per_map`, that ends at a multiple of `pages_per_map`: the
    /// highest such run in the lowest run of unmapped pages that has room
    /// for one when it is cut back to multiples of `pages_per_map` at both
    /// ends. The runs are those of [`Vmmap::find_space`]. `None` where no
    /// run has room.
    pub fn find_map_space(&self, num_pages: u32, pages_per_map: u32) -> (space: Option<PageRange>)
        requires
            self.wf(),
            pages_per_map > 0,
        ensures
            first_map_fit(self@, 0, LAST_PAGE, num_pages as int, pages_per_map as int, space),
            space matches Some(range) ==> {
                &&& range.end - range.start == round_up_to(num_pages as int, pages_per_map as int)
                &&& range.end % pages_per_map == 0
                &&& range.end <= LAST_PAGE + 1
                &&& range_is_free(self@, range)
            },
    {
        self.find_map_space_within(0, LAST_PAGE, num_pages, pages_per_map)
    }

    /// As [`Vmmap::find_map_space`], among the runs from page `hint` on;
    /// `None` also where `hint` lies beyond the pages that a cage can
    /// address.
    pub fn find_map_space_with_hint(&self, num_pages: u32, pages_per_map: u32, hint: u32) -> (space:
        Option<PageRange>)
        requires
            self.wf(),
            pages_per_map > 0,
        ensures
            hint > LAST_PAGE ==> space is None,
            hint <= LAST_PAGE ==> first_map_fit(
                self@,
                hint,
                LAST_PAGE,
                num_pages as int,
                pages_per_map as int,
                space,
            ),
            space matches Some(range) ==> {
                &&& range.end - range.start == round_up_to(num_pages as int, pages_per_map as int)
                &&& range.end % pages_per_map == 0
                &&& range.end <= LAST_PAGE + 1
                &&& range_is_free(self@, range)
            },
    {
        if hint > LAST_PAGE {
            None
        } else {
            self.find_map_space_within(hint, LAST_PAGE, num_pages, pages_per_map)
        }
    }

    /// The lowest region of the map, if any page is mapped.
    pub fn first_entry(&self) -> (region: Option<Region>)
        ensures
            match region {
                Some(lowest) => is_lowest(self@, lowest.first) && self@[lowest.first as int]
                    == lowest,
                None => no_pages(self@),
            },
    {
        pages_first(&self.entries)
    }

    /// The highest region of the map, if any page is mapped.
    pub fn last_entry(&self) -> (region: Option<Region>)
        ensures
            match region {
                Some(highest) => is_highest(self@, highest.last) && self@[highest.last as int]
                    == highest,
                None => no_pages(self@),
            },
    {
        pages_last(&self.entries)
    }
}

/// Whether every protection bit asked for is among those allowed.
fn prot_allowed(prot: i32, allowed: i32) -> (within: bool)
    ensures
        within == prot_within(prot, allowed),
{
    prot & !allowed == 0
}

/// A protection as the host grants it: whatever can be written or executed
/// can be read too.
fn host_prot(prot: i32) -> (flags: i32)
    ensures
        flags == readable_prot(prot),
{
    if prot & (PROT_EXEC | PROT_READ | PROT_WRITE) != PROT_NONE {
        prot | PROT_READ
    } else {
        prot
    }
}

} // verus!
