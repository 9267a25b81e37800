//! The mathematical model of a cage's page map: which region covers each
//! page, how the operations change that, and the lemmas that show the regions
//! stay apart.
use crate::constants::PROT_EXEC;
use crate::constants::PROT_NONE;
use crate::constants::PROT_READ;
use crate::constants::PROT_WRITE;
use vstd::prelude::*;

verus! {

/// What supplies the bytes of a mapped region.
#[allow(dead_code)]
#[derive(Clone, Copy, PartialEq, Eq, Debug, Structural)]
pub enum MemoryBackingType {
    /// Not known, or not applicable.
    NoBacking,
    /// Zero-filled memory.
    Anonymous,
    /// A shared memory segment, by its id.
    SharedMemory(u64),
    /// A file, by its descriptor.
    FileDescriptor(u64),
}

/// What is recorded of a region of uniformly protected pages.
#[derive(Clone, Copy, PartialEq, Eq, Debug, Structural)]
pub struct VmmapEntry {
    /// First page of the range that the entry stands for.
    pub page_num: u32,
    /// Number of pages of the range that the entry stands for.
    pub npages: u32,
    /// Protection in force.
    pub prot: i32,
    /// The most protection that may be asked for.
    pub maxprot: i32,
    /// Mapping flags.
    pub flags: i32,
    /// Whether the entry is marked as removed.
    pub removed: bool,
    /// Offset into the backing object.
    pub file_offset: i64,
    /// Size of the backing object.
    pub file_size: i64,
    /// The cage that owns the region.
    pub cage_id: u64,
    /// What backs the region.
    pub backing: MemoryBackingType,
}

impl VmmapEntry {
    /// An entry of the given fields.
    pub fn new(
        page_num: u32,
        npages: u32,
        prot: i32,
        maxprot: i32,
        flags: i32,
        removed: bool,
        file_offset: i64,
        file_size: i64,
        cage_id: u64,
        backing: MemoryBackingType,
    ) -> (entry: Self)
        ensures
            entry == (VmmapEntry {
                page_num,
                npages,
                prot,
                maxprot,
                flags,
                removed,
                file_offset,
                file_size,
                cage_id,
                backing,
            }),
    {
        VmmapEntry {
            page_num,
            npages,
            prot,
            maxprot,
            flags,
            removed,
            file_offset,
            file_size,
            cage_id,
            backing,
        }
    }

    /// The protection that the entry's backing allows at most: none is
    /// known, so none is granted.
    pub fn max_prot(&self) -> (flags: i32)
        ensures
            flags == PROT_NONE,
    {
        PROT_NONE
    }

    /// The entry with another range to stand for.
    pub open spec fn with_range(self, page_num: u32, npages: u32) -> VmmapEntry {
        VmmapEntry {
            page_num,
            npages,
            prot: self.prot,
            maxprot: self.maxprot,
            flags: self.flags,
            removed: self.removed,
            file_offset: self.file_offset,
            file_size: self.file_size,
            cage_id: self.cage_id,
            backing: self.backing,
        }
    }

    /// The entry with another protection.
    pub open spec fn with_prot(self, prot: i32) -> VmmapEntry {
        VmmapEntry {
            page_num: self.page_num,
            npages: self.npages,
            prot,
            maxprot: self.maxprot,
            flags: self.flags,
            removed: self.removed,
            file_offset: self.file_offset,
            file_size: self.file_size,
            cage_id: self.cage_id,
            backing: self.backing,
        }
    }
}

/// One interval of a page map with its entry; both ends belong to it.
#[derive(Clone, Copy, PartialEq, Eq, Debug, Structural)]
pub struct Region {
    /// The first page of the interval.
    pub first: u32,
    /// The last page of the interval.
    pub last: u32,
    /// What is recorded of the interval.
    pub entry: VmmapEntry,
}

/// A run of pages from `start` up to and not including `end`.
#[derive(Clone, Copy, PartialEq, Eq, Debug, Structural)]
pub struct PageRange {
    /// The first page of the run.
    pub start: u32,
    /// The page after the last of the run.
    pub end: u32,
}

/// Whether every protection bit asked for is among those allowed.
pub open spec fn prot_within(prot: i32, allowed: i32) -> bool {
    prot & !allowed == 0
}

/// A protection as the host grants it: whatever can be written or executed
/// can be read too.
pub open spec fn readable_prot(prot: i32) -> i32 {
    if prot & (PROT_EXEC | PROT_READ | PROT_WRITE) != PROT_NONE {
        prot | PROT_READ
    } else {
        prot
    }
}

/// The regions of a page map lie apart: each page's region contains the
/// page, and the pages of one region all have that region.
pub open spec fn regions_consistent(pages: Map<int, Region>) -> bool {
    &&& forall|page: int| #[trigger]
        pages.contains_key(page) ==> pages[page].first <= page <= pages[page].last
    &&& forall|page: int, other: int|
        #![trigger pages.contains_key(page), pages.contains_key(other)]
        pages.contains_key(page) && pages[page].first <= other <= pages[page].last
            ==> pages.contains_key(other) && pages[other] == pages[page]
}

/// The regions lie apart and the page after each region has a number.
pub open spec fn pages_wf(pages: Map<int, Region>) -> bool {
    &&& regions_consistent(pages)
    &&& forall|page: int| #[trigger] pages.contains_key(page) ==> pages[page].last < u32::MAX
}

/// What the interval map leaves of a region around the interval from
/// `first` to `last`, on the side where `page` lies: the bounds are cut back,
/// the entry is as it was.
pub open spec fn clip_around(region: Region, page: int, first: u32, last: u32) -> Region {
    if page < first {
        Region {
            first: region.first,
            last: if region.last < first {
                region.last
            } else {
                (first - 1) as u32
            },
            entry: region.entry,
        }
    } else {
        Region {
            first: if region.first > last {
                region.first
            } else {
                (last + 1) as u32
            },
            last: region.last,
            entry: region.entry,
        }
    }
}

/// What the interval map holds after an interval was given a new entry: the
/// interval is one region, and every region that reached into it is cut back
/// to what lies outside, with the entry it had.
pub open spec fn overwrite_intervals(
    pages: Map<int, Region>,
    first: u32,
    last: u32,
    entry: VmmapEntry,
) -> Map<int, Region> {
    Map::new(
        |page: int| first <= page <= last || pages.contains_key(page),
        |page: int|
            if first <= page <= last {
                Region { first, last, entry }
            } else {
                clip_around(pages[page], page, first, last)
            },
    )
}

/// Whether a region has a page in the interval from `first` to `last`.
pub open spec fn touches(region: Region, first: u32, last: u32) -> bool {
    region.first <= last && first <= region.last
}

/// The page map without the regions that have a page in the interval.
pub open spec fn without_touching(pages: Map<int, Region>, first: u32, last: u32) -> Map<
    int,
    Region,
> {
    Map::new(
        |page: int| pages.contains_key(page) && !touches(pages[page], first, last),
        |page: int| pages[page],
    )
}

/// What the interval map holds after an interval was given an entry and
/// that region was taken out again: regions that reached into the interval
/// are cut back to what lies outside, with the entry they had.
pub open spec fn cut_out_intervals(pages: Map<int, Region>, first: u32, last: u32) -> Map<
    int,
    Region,
> {
    Map::new(
        |page: int| pages.contains_key(page) && !(first <= page <= last),
        |page: int| clip_around(pages[page], page, first, last),
    )
}

/// The page map with another entry for the region that covers `page`.
pub open spec fn with_entry(pages: Map<int, Region>, page: int, entry: VmmapEntry) -> Map<
    int,
    Region,
> {
    Map::new(
        |other: int| pages.contains_key(other),
        |other: int|
            if pages[other].first == pages[page].first {
                Region { first: pages[other].first, last: pages[other].last, entry }
            } else {
                pages[other]
            },
    )
}

/// The region with an entry that names the region's own range: its first
/// page and its number of pages.
pub open spec fn settled(region: Region) -> Region {
    Region {
        first: region.first,
        last: region.last,
        entry: region.entry.with_range(region.first, (region.last - region.first + 1) as u32),
    }
}

/// Every entry names the range of its region.
pub open spec fn ranges_named(pages: Map<int, Region>) -> bool {
    forall|page: int| #[trigger] pages.contains_key(page) ==> pages[page] == settled(pages[page])
}

/// What is left of a region when the interval from `first` to `last` is cut
/// out of the page map, on the side where `page` lies. A region without a
/// page in the interval is left as it is. Of a region that reaches into the
/// interval the piece outside is left, and its entry names the range of the
/// piece.
pub open spec fn cut_around(region: Region, page: int, first: u32, last: u32) -> Region {
    if touches(region, first, last) {
        settled(clip_around(region, page, first, last))
    } else {
        region
    }
}

/// The page map after the interval from `first` to `last` was given a new
/// entry: the interval is one region with that entry, and every region that
/// reached into it is cut back to what lies outside.
pub open spec fn overwrite_pages(
    pages: Map<int, Region>,
    first: u32,
    last: u32,
    entry: VmmapEntry,
) -> Map<int, Region> {
    Map::new(
        |page: int| first <= page <= last || pages.contains_key(page),
        |page: int|
            if first <= page <= last {
                Region { first, last, entry }
            } else {
                cut_around(pages[page], page, first, last)
            },
    )
}

/// The page map with the interval from `first` to `last` unmapped: every
/// region that reached into it is cut back to what lies outside.
pub open spec fn unmapped_pages(pages: Map<int, Region>, first: u32, last: u32) -> Map<
    int,
    Region,
> {
    Map::new(
        |page: int| pages.contains_key(page) && !(first <= page <= last),
        |page: int| cut_around(pages[page], page, first, last),
    )
}

/// The page map with the entry of the region that covers `page` naming that
/// region's range.
pub open spec fn settle_piece(pages: Map<int, Region>, page: int) -> Map<int, Region> {
    with_entry(pages, page, settled(pages[page]).entry)
}

/// Whether the lowest of the listed regions begins below `first`.
pub open spec fn cut_below(touching: Seq<Region>, first: u32) -> bool {
    touching.len() > 0 && touching[0].first < first
}

/// Whether the highest of the listed regions ends above `last`.
pub open spec fn cut_above(touching: Seq<Region>, last: u32) -> bool {
    touching.len() > 0 && touching.last().last > last
}

/// What a region becomes, seen from one of its pages, when the pages from
/// `first` to `last` get the protection `prot`. A region without a page in
/// the interval is left as it is. Of a region that reaches into the interval
/// the part inside is a region of its own with that protection, and the
/// parts outside keep theirs; the entry of each part names the range of the
/// part.
pub open spec fn reprotect_region(region: Region, page: int, first: u32, last: u32, prot: i32) -> Region {
    if !touches(region, first, last) {
        region
    } else if first <= page <= last {
        settled(
            Region {
                first: covered_part(region, first, last).0,
                last: covered_part(region, first, last).1,
                entry: region.entry.with_prot(prot),
            },
        )
    } else {
        settled(clip_around(region, page, first, last))
    }
}

/// The page map after the mapped pages from `first` to `last` got the
/// protection `prot`, for the regions that begin below `bound`.
pub open spec fn reprotected_below(
    pages: Map<int, Region>,
    first: u32,
    last: u32,
    prot: i32,
    bound: int,
) -> Map<int, Region> {
    Map::new(
        |page: int| pages.contains_key(page),
        |page: int|
            if touches(pages[page], first, last) && pages[page].first < bound {
                reprotect_region(pages[page], page, first, last, prot)
            } else {
                pages[page]
            },
    )
}

/// The page map after the mapped pages from `first` to `last` got the
/// protection `prot`.
pub open spec fn reprotected_pages(pages: Map<int, Region>, first: u32, last: u32, prot: i32) -> Map<
    int,
    Region,
> {
    Map::new(
        |page: int| pages.contains_key(page),
        |page: int| reprotect_region(pages[page], page, first, last, prot),
    )
}

/// `regions` lists, in ascending order, the regions of the page map that
/// have a page in the interval from `first` to `last`, each once.
pub open spec fn lists_touching(
    pages: Map<int, Region>,
    first: u32,
    last: u32,
    regions: Seq<Region>,
) -> bool {
    &&& forall|index: int|
        0 <= index < regions.len() ==> {
            let region = #[trigger] regions[index];
            &&& pages.contains_key(region.first as int)
            &&& pages[region.first as int] == region
            &&& touches(region, first, last)
        }
    &&& forall|index: int, later: int|
        0 <= index < later < regions.len() ==> (#[trigger] regions[index]).last < (
        #[trigger] regions[later]).first
    &&& forall|page: int|
        first <= page <= last && #[trigger] pages.contains_key(page) ==> exists|index: int|
            0 <= index < regions.len() && #[trigger] regions[index] == pages[page]
}

/// The pages from `gap.0` to `gap.1` are a largest run of unmapped pages
/// within the interval from `first` to `last`.
pub open spec fn is_gap(pages: Map<int, Region>, first: u32, last: u32, gap: (u32, u32)) -> bool {
    &&& first <= gap.0 <= gap.1 <= last
    &&& forall|page: int| gap.0 <= page <= gap.1 ==> !pages.contains_key(page)
    &&& (gap.0 == first || pages.contains_key(gap.0 - 1))
    &&& (gap.1 == last || pages.contains_key(gap.1 + 1))
}

/// `gaps` lists, in ascending order, the largest runs of unmapped pages
/// within the interval from `first` to `last`, each once.
pub open spec fn lists_gaps(
    pages: Map<int, Region>,
    first: u32,
    last: u32,
    gaps: Seq<(u32, u32)>,
) -> bool {
    &&& forall|index: int|
        0 <= index < gaps.len() ==> is_gap(pages, first, last, #[trigger] gaps[index])
    &&& forall|index: int, later: int|
        0 <= index < later < gaps.len() ==> (#[trigger] gaps[index]).1 < (#[trigger] gaps[later]).0
    &&& forall|page: int|
        first <= page <= last && !#[trigger] pages.contains_key(page) ==> exists|index: int|
            0 <= index < gaps.len() && (#[trigger] gaps[index]).0 <= page <= gaps[index].1
}

/// `page` is the lowest mapped page.
pub open spec fn is_lowest(pages: Map<int, Region>, page: u32) -> bool {
    &&& pages.contains_key(page as int)
    &&& forall|other: int| #[trigger] pages.contains_key(other) ==> page <= other
}

/// `page` is the highest mapped page.
pub open spec fn is_highest(pages: Map<int, Region>, page: u32) -> bool {
    &&& pages.contains_key(page as int)
    &&& forall|other: int| #[trigger] pages.contains_key(other) ==> other <= page
}

/// No page is mapped.
pub open spec fn no_pages(pages: Map<int, Region>) -> bool {
    forall|page: int| !pages.contains_key(page)
}

/// An interval with a new entry leaves the regions apart.
pub proof fn lemma_overwrite_intervals_wf(pages: Map<int, Region>, first: u32, last: u32, entry: VmmapEntry)
    requires
        pages_wf(pages),
        first <= last < u32::MAX,
    ensures
        pages_wf(overwrite_intervals(pages, first, last, entry)),
{
    let after = overwrite_intervals(pages, first, last, entry);
    assert forall|page: int, other: int|
        #![trigger after.contains_key(page), after.contains_key(other)]
        after.contains_key(page) && after[page].first <= other <= after[page].last
            implies after.contains_key(other) && after[other] == after[page] by {
        if !(first <= page <= last) {
            assert(pages.contains_key(page));
            assert(pages[page].first <= other <= pages[page].last);
            assert(pages.contains_key(other));
        }
    }
}

/// Taking the new region out again leaves the interval unmapped and the
/// regions around it cut back.
pub proof fn lemma_cut_out_intervals(pages: Map<int, Region>, first: u32, last: u32, entry: VmmapEntry)
    requires
        pages_wf(pages),
        first <= last < u32::MAX,
    ensures
        without_touching(overwrite_intervals(pages, first, last, entry), first, last)
            =~= cut_out_intervals(pages, first, last),
        pages_wf(cut_out_intervals(pages, first, last)),
{
    let over = overwrite_intervals(pages, first, last, entry);
    lemma_overwrite_intervals_wf(pages, first, last, entry);
    let after = cut_out_intervals(pages, first, last);
    assert forall|page: int| after.contains_key(page) implies over.contains_key(page) && after[page]
        == over[page] by {}
    assert forall|page: int, other: int|
        #![trigger after.contains_key(page), after.contains_key(other)]
        after.contains_key(page) && after[page].first <= other <= after[page].last
            implies after.contains_key(other) && after[other] == after[page] by {
        assert(over.contains_key(page));
        assert(over[page].first <= other <= over[page].last);
        assert(over.contains_key(other));
    }
}

/// Another entry for a region leaves the regions apart.
pub proof fn lemma_with_entry_wf(pages: Map<int, Region>, page: int, entry: VmmapEntry)
    requires
        pages_wf(pages),
        pages.contains_key(page),
    ensures
        pages_wf(with_entry(pages, page, entry)),
{
    let after = with_entry(pages, page, entry);
    assert forall|one: int, other: int|
        #![trigger after.contains_key(one), after.contains_key(other)]
        after.contains_key(one) && after[one].first <= other <= after[one].last
            implies after.contains_key(other) && after[other] == after[one] by {
        assert(pages.contains_key(one));
        assert(pages[one].first <= other <= pages[one].last);
        assert(pages.contains_key(other));
    }
}

/// The first page that a listed region at `index` or later can begin at;
/// beyond every page where there is none.
pub open spec fn bound_at(regions: Seq<Region>, index: int) -> int {
    if index < regions.len() {
        regions[index].first as int
    } else {
        0x1_0000_0000
    }
}

/// The part of a region that lies in the interval from `first` to `last`.
pub open spec fn covered_part(region: Region, first: u32, last: u32) -> (u32, u32) {
    (
        if region.first < first {
            first
        } else {
            region.first
        },
        if region.last > last {
            last
        } else {
            region.last
        },
    )
}

/// The protection that is held against a request: what the entry allows at
/// most, or what it has in force as the host grants it.
pub open spec fn allowed_prot(entry: VmmapEntry, against_max: bool) -> i32 {
    if against_max {
        entry.maxprot
    } else {
        readable_prot(entry.prot)
    }
}

/// Every page from `first` to `last` is mapped, and its region allows the
/// protection `prot`.
pub open spec fn covered_with(
    pages: Map<int, Region>,
    first: u32,
    last: u32,
    prot: i32,
    against_max: bool,
) -> bool {
    forall|page: int|
        first <= page <= last ==> #[trigger] pages.contains_key(page) && prot_within(
            prot,
            allowed_prot(pages[page].entry, against_max),
        )
}

/// The number of pages of a gap.
pub open spec fn gap_len(gap: (u32, u32)) -> int {
    gap.1 - gap.0 + 1
}

/// `result` is the lowest of the largest unmapped runs within the interval
/// from `first` to `last` that has at least `wanted` pages, or `None` where
/// none is that long.
pub open spec fn first_fit(
    pages: Map<int, Region>,
    first: u32,
    last: u32,
    wanted: int,
    result: Option<PageRange>,
) -> bool {
    match result {
        Some(range) => {
            &&& range.start < range.end
            &&& is_gap(pages, first, last, (range.start, (range.end - 1) as u32))
            &&& range.end - range.start >= wanted
            &&& forall|gap: (u32, u32)| #[trigger]
                is_gap(pages, first, last, gap) && gap.0 < range.start ==> gap_len(gap) < wanted
        },
        None => forall|gap: (u32, u32)| #[trigger]
            is_gap(pages, first, last, gap) ==> gap_len(gap) < wanted,
    }
}

/// The least multiple of `unit` that is not below `number`.
pub open spec fn round_up_to(number: int, unit: int) -> int {
    ((number + unit - 1) / unit) * unit
}

/// The greatest multiple of `unit` that is not above `number`.
pub open spec fn trunc_down_to(number: int, unit: int) -> int {
    (number / unit) * unit
}

/// Whether a gap, cut back to multiples of `unit` at both ends, has room for
/// `wanted` pages rounded up to a multiple of `unit`.
pub open spec fn map_fits(gap: (u32, u32), wanted: int, unit: int) -> bool {
    round_up_to(gap.0 as int, unit) + round_up_to(wanted, unit) <= trunc_down_to(gap.1 + 1, unit)
}

/// The highest run of `wanted` pages, rounded up to a multiple of `unit`,
/// that begins and ends at multiples of `unit` within the gap.
pub open spec fn map_placement(gap: (u32, u32), wanted: int, unit: int) -> (int, int) {
    (trunc_down_to(gap.1 + 1, unit) - round_up_to(wanted, unit), trunc_down_to(gap.1 + 1, unit))
}

/// `result` is the placement in the lowest of the largest unmapped runs
/// within the interval from `first` to `last` that has room, or `None` where
/// none has.
pub open spec fn first_map_fit(
    pages: Map<int, Region>,
    first: u32,
    last: u32,
    wanted: int,
    unit: int,
    result: Option<PageRange>,
) -> bool {
    match result {
        Some(range) => exists|gap: (u32, u32)|
            {
                &&& #[trigger] is_gap(pages, first, last, gap)
                &&& map_fits(gap, wanted, unit)
                &&& (range.start as int, range.end as int) == map_placement(gap, wanted, unit)
                &&& forall|lower: (u32, u32)| #[trigger]
                    is_gap(pages, first, last, lower) && lower.0 < gap.0 ==> !map_fits(
                        lower,
                        wanted,
                        unit,
                    )
            },
        None => forall|gap: (u32, u32)| #[trigger]
            is_gap(pages, first, last, gap) ==> !map_fits(gap, wanted, unit),
    }
}

/// Every page of the run is unmapped.
pub open spec fn range_is_free(pages: Map<int, Region>, range: PageRange) -> bool {
    forall|page: int| range.start <= page < range.end ==> !pages.contains_key(page)
}

/// A region that has a page in the interval is listed.
pub proof fn lemma_listed(
    pages: Map<int, Region>,
    first: u32,
    last: u32,
    regions: Seq<Region>,
    page: int,
) -> (index: int)
    requires
        pages_wf(pages),
        first <= last,
        lists_touching(pages, first, last, regions),
        pages.contains_key(page),
        touches(pages[page], first, last),
    ensures
        0 <= index < regions.len(),
        regions[index] == pages[page],
{
    let region = pages[page];
    let inside: int = if region.first < first {
        first as int
    } else {
        region.first as int
    };
    assert(region.first <= inside <= region.last);
    assert(pages.contains_key(inside));
    assert(pages[inside] == region);
    assert(first <= inside <= last);
    let index = choose|index: int| 0 <= index < regions.len() && #[trigger] regions[index] == pages[inside];
    index
}

/// A region that has a page in the interval and a page below it is the
/// lowest of the listed regions; one with a page above it is the highest.
pub proof fn lemma_listed_ends(
    pages: Map<int, Region>,
    first: u32,
    last: u32,
    touching: Seq<Region>,
    page: int,
)
    requires
        pages_wf(pages),
        first <= last,
        lists_touching(pages, first, last, touching),
        pages.contains_key(page),
        touches(pages[page], first, last),
    ensures
        touching.len() > 0,
        page < first ==> pages[page] == touching[0],
        page > last ==> pages[page] == touching.last(),
{
    let listed = lemma_listed(pages, first, last, touching, page);
    assert(pages[page].first <= page <= pages[page].last);
    if page < first && listed > 0 {
        assert(touching[0].last < touching[listed].first);
        assert(touches(touching[0], first, last));
    }
    if page > last && listed < touching.len() - 1 {
        assert(touching[listed].last < touching[touching.len() - 1].first);
        assert(touches(touching[touching.len() - 1], first, last));
    }
}

/// After the interval map has cut an interval out, or given it a new entry,
/// all that is left to do is to make the entries of the two pieces at its
/// ends name their ranges: the piece of the lowest listed region, where that
/// began below the interval, and the piece of the highest, where that ended
/// above it.
pub proof fn lemma_settle_neighbours(
    pages: Map<int, Region>,
    first: u32,
    last: u32,
    entry: VmmapEntry,
    remove: bool,
    touching: Seq<Region>,
)
    requires
        pages_wf(pages),
        first <= last < u32::MAX,
        lists_touching(pages, first, last, touching),
    ensures
        ({
            let raw = if remove {
                cut_out_intervals(pages, first, last)
            } else {
                overwrite_intervals(pages, first, last, entry)
            };
            let below = if cut_below(touching, first) {
                settle_piece(raw, touching[0].first as int)
            } else {
                raw
            };
            let above = if cut_above(touching, last) {
                settle_piece(below, last + 1)
            } else {
                below
            };
            &&& pages_wf(raw)
            &&& cut_below(touching, first) ==> raw.contains_key(touching[0].first as int)
                && raw[touching[0].first as int].first == touching[0].first
                && raw[touching[0].first as int].last == first - 1
            &&& pages_wf(below)
            &&& cut_above(touching, last) ==> below.contains_key(last + 1) && below[last
                + 1].first == last + 1 && below[last + 1].last == touching.last().last
            &&& pages_wf(above)
            &&& above =~= (if remove {
                unmapped_pages(pages, first, last)
            } else {
                overwrite_pages(pages, first, last, entry)
            })
        }),
{
    let raw = if remove {
        cut_out_intervals(pages, first, last)
    } else {
        overwrite_intervals(pages, first, last, entry)
    };
    let below = if cut_below(touching, first) {
        settle_piece(raw, touching[0].first as int)
    } else {
        raw
    };
    let above = if cut_above(touching, last) {
        settle_piece(below, last + 1)
    } else {
        below
    };
    let target = if remove {
        unmapped_pages(pages, first, last)
    } else {
        overwrite_pages(pages, first, last, entry)
    };
    lemma_overwrite_intervals_wf(pages, first, last, entry);
    lemma_cut_out_intervals(pages, first, last, entry);
    if cut_below(touching, first) {
        let low = touching[0];
        assert(pages.contains_key(low.first as int) && pages[low.first as int] == low);
        assert(touches(low, first, last));
        assert(raw.contains_key(low.first as int));
        lemma_with_entry_wf(raw, low.first as int, settled(raw[low.first as int]).entry);
    }
    if cut_above(touching, last) {
        let high = touching.last();
        assert(pages.contains_key(high.first as int) && pages[high.first as int] == high);
        assert(touches(high, first, last));
        assert(high.first <= last + 1 <= high.last);
        assert(pages.contains_key(last + 1));
        assert(pages[last + 1] == high);
        assert(raw.contains_key(last + 1));
        assert(below.contains_key(last + 1));
        assert(raw[last + 1].first == last + 1);
        assert(below[last + 1].first == last + 1);
        lemma_with_entry_wf(below, last + 1, settled(below[last + 1]).entry);
    }
    assert forall|page: int| target.contains_key(page) implies above.contains_key(page)
        && above[page] == target[page] by {
        if !(first <= page <= last) {
            let region = pages[page];
            assert(pages.contains_key(page));
            assert(region.first <= page <= region.last);
            if touches(region, first, last) {
                lemma_listed_ends(pages, first, last, touching, page);
                if page < first {
                    assert(region == touching[0]);
                    assert(pages.contains_key(region.first as int));
                    assert(raw[page].first == raw[region.first as int].first);
                } else {
                    assert(region == touching.last());
                    assert(region.first <= last + 1 <= region.last);
                    assert(pages.contains_key(last + 1));
                    assert(pages[last + 1] == region);
                    assert(raw[page].first == last + 1);
                }
            } else {
                assert(raw[page] == region);
                if cut_below(touching, first) && region.first == touching[0].first {
                    assert(pages.contains_key(touching[0].first as int));
                    assert(pages[touching[0].first as int] == region);
                }
                if cut_above(touching, last) && region.first == last + 1 {
                    let high = touching.last();
                    assert(pages.contains_key(high.first as int) && pages[high.first as int]
                        == high);
                    assert(high.first <= last + 1 <= high.last);
                    assert(pages.contains_key(last + 1));
                    assert(pages[last + 1] == high);
                }
            }
        }
    }
    assert(above.dom() =~= target.dom());
}

/// A page map whose entries all name their ranges keeps that when a range
/// is mapped with an entry that names it, when a range is unmapped, and when
/// a range gets another protection.
pub proof fn lemma_ranges_stay_named(
    pages: Map<int, Region>,
    first: u32,
    last: u32,
    entry: VmmapEntry,
    prot: i32,
)
    requires
        pages_wf(pages),
        ranges_named(pages),
        first <= last < u32::MAX,
        entry.page_num == first,
        entry.npages == last - first + 1,
    ensures
        ranges_named(overwrite_pages(pages, first, last, entry)),
        ranges_named(unmapped_pages(pages, first, last)),
        ranges_named(reprotected_pages(pages, first, last, prot)),
{
    let over = overwrite_pages(pages, first, last, entry);
    assert forall|page: int| #[trigger] over.contains_key(page) implies over[page] == settled(
        over[page],
    ) by {
        if !(first <= page <= last) {
            assert(pages.contains_key(page));
        }
    }
    let cut = unmapped_pages(pages, first, last);
    assert forall|page: int| #[trigger] cut.contains_key(page) implies cut[page] == settled(
        cut[page],
    ) by {
        assert(pages.contains_key(page));
    }
    let other = reprotected_pages(pages, first, last, prot);
    assert forall|page: int| #[trigger] other.contains_key(page) implies other[page] == settled(
        other[page],
    ) by {
        assert(pages.contains_key(page));
    }
}

/// Before any listed region was given the protection, the page map is as it
/// was.
pub proof fn lemma_reprotect_start(
    pages: Map<int, Region>,
    first: u32,
    last: u32,
    prot: i32,
    regions: Seq<Region>,
)
    requires
        pages_wf(pages),
        first <= last,
        lists_touching(pages, first, last, regions),
    ensures
        reprotected_below(pages, first, last, prot, bound_at(regions, 0)) =~= pages,
{
    let after = reprotected_below(pages, first, last, prot, bound_at(regions, 0));
    assert forall|page: int| pages.contains_key(page) implies after[page] == pages[page] by {
        if touches(pages[page], first, last) {
            let index = lemma_listed(pages, first, last, regions, page);
            if index > 0 {
                assert(regions[0].last < regions[index].first);
                assert(pages.contains_key(regions[0].first as int));
            }
        }
    }
}

/// Mapping the part of the next listed region that lies in the interval
/// anew, with the protection and its own range in the entry, carries the
/// page map one region further.
pub proof fn lemma_reprotect_step(
    pages: Map<int, Region>,
    first: u32,
    last: u32,
    prot: i32,
    regions: Seq<Region>,
    index: int,
)
    requires
        pages_wf(pages),
        first <= last,
        lists_touching(pages, first, last, regions),
        0 <= index < regions.len(),
    ensures
        covered_part(regions[index], first, last).0 <= covered_part(regions[index], first, last).1,
        overwrite_pages(
            reprotected_below(pages, first, last, prot, bound_at(regions, index)),
            covered_part(regions[index], first, last).0,
            covered_part(regions[index], first, last).1,
            settled(
                Region {
                    first: covered_part(regions[index], first, last).0,
                    last: covered_part(regions[index], first, last).1,
                    entry: regions[index].entry.with_prot(prot),
                },
            ).entry,
        ) =~= reprotected_below(pages, first, last, prot, bound_at(regions, index + 1)),
{
    let region = regions[index];
    let part = covered_part(region, first, last);
    let changed = settled(
        Region { first: part.0, last: part.1, entry: region.entry.with_prot(prot) },
    ).entry;
    let before = reprotected_below(pages, first, last, prot, bound_at(regions, index));
    let after = overwrite_pages(before, part.0, part.1, changed);
    let target = reprotected_below(pages, first, last, prot, bound_at(regions, index + 1));
    assert(pages.contains_key(region.first as int) && pages[region.first as int] == region);
    assert(region.first <= region.last);
    assert(region.first <= part.0 <= part.1 <= region.last);
    assert(touches(region, first, last));
    if index + 1 < regions.len() {
        assert(regions[index].last < regions[index + 1].first);
    }
    assert forall|page: int| after.contains_key(page) implies pages.contains_key(page) by {
        if part.0 <= page <= part.1 {
            assert(region.first <= page <= region.last);
        }
    }
    assert forall|page: int| pages.contains_key(page) implies after[page] == target[page] by {
        let old_region = pages[page];
        assert(old_region.first <= page <= old_region.last);
        if old_region.first == region.first {
            assert(pages.contains_key(old_region.first as int));
            assert(pages[old_region.first as int] == old_region);
            assert(old_region == region);
            assert(before[page] == region);
            assert(touches(region, part.0, part.1));
        } else {
            // another region: it lies wholly on one side of the part
            if old_region.first <= part.1 && part.0 <= old_region.last {
                let shared: int = if old_region.first < part.0 {
                    part.0 as int
                } else {
                    old_region.first as int
                };
                assert(old_region.first <= shared <= old_region.last);
                assert(region.first <= shared <= region.last);
                assert(pages.contains_key(shared));
                assert(pages[shared] == old_region);
                assert(pages[shared] == region);
                assert(false);
            }
            assert(!touches(old_region, part.0, part.1));
            assert(!touches(before[page], part.0, part.1));
            if touches(old_region, first, last) {
                let listed = lemma_listed(pages, first, last, regions, page);
                if listed < index {
                    assert(regions[listed].last < regions[index].first);
                } else if listed > index {
                    assert(regions[index].last < regions[listed].first);
                }
            }
        }
    }
    assert(after.dom() =~= target.dom());
}

/// Once every listed region was given the protection, every mapped page of
/// the interval has it.
pub proof fn lemma_reprotect_end(
    pages: Map<int, Region>,
    first: u32,
    last: u32,
    prot: i32,
    regions: Seq<Region>,
)
    requires
        pages_wf(pages),
        first <= last,
        lists_touching(pages, first, last, regions),
    ensures
        reprotected_below(pages, first, last, prot, bound_at(regions, regions.len() as int))
            =~= reprotected_pages(pages, first, last, prot),
{
    let after = reprotected_below(pages, first, last, prot, bound_at(regions, regions.len() as int));
    let target = reprotected_pages(pages, first, last, prot);
    assert forall|page: int| pages.contains_key(page) implies after[page] == target[page] by {
        assert(pages[page].first <= page <= pages[page].last);
    }
}

/// A largest unmapped run is listed.
pub proof fn lemma_gap_listed(
    pages: Map<int, Region>,
    first: u32,
    last: u32,
    gaps: Seq<(u32, u32)>,
    gap: (u32, u32),
) -> (index: int)
    requires
        lists_gaps(pages, first, last, gaps),
        is_gap(pages, first, last, gap),
    ensures
        0 <= index < gaps.len(),
        gaps[index] == gap,
{
    assert(!pages.contains_key(gap.0 as int));
    let index = choose|index: int|
        0 <= index < gaps.len() && (#[trigger] gaps[index]).0 <= gap.0 <= gaps[index].1;
    let listed = gaps[index];
    assert(is_gap(pages, first, last, listed));
    if listed.0 < gap.0 {
        assert(!pages.contains_key(gap.0 - 1));
    }
    if listed.1 < gap.1 {
        assert(!pages.contains_key(listed.1 + 1));
    }
    if gap.1 < listed.1 {
        assert(!pages.contains_key(gap.1 + 1));
    }
    index
}

/// Cutting a number back to a multiple of `unit` loses less than `unit`.
pub proof fn lemma_trunc_down(number: int, unit: int)
    requires
        0 <= number,
        0 < unit,
    ensures
        0 <= trunc_down_to(number, unit) <= number < trunc_down_to(number, unit) + unit,
        trunc_down_to(number, unit) % unit == 0,
{
    vstd::arithmetic::div_mod::lemma_fundamental_div_mod(number, unit);
    vstd::arithmetic::div_mod::lemma_mod_bound(number, unit);
    vstd::arithmetic::div_mod::lemma_mod_multiples_basic(number / unit, unit);
    vstd::arithmetic::mul::lemma_mul_is_commutative(unit, number / unit);
}

/// Rounding a number up to a multiple of `unit` adds less than `unit`.
pub proof fn lemma_round_up(number: int, unit: int)
    requires
        0 <= number,
        0 < unit,
    ensures
        number <= round_up_to(number, unit) < number + unit,
        round_up_to(number, unit) % unit == 0,
{
    lemma_trunc_down(number + unit - 1, unit);
}

/// Where a gap has room, the placement lies within the gap.
pub proof fn lemma_map_placement(gap: (u32, u32), wanted: int, unit: int)
    requires
        gap.0 <= gap.1,
        0 <= wanted,
        0 < unit,
        map_fits(gap, wanted, unit),
    ensures
        gap.0 <= map_placement(gap, wanted, unit).0 <= map_placement(gap, wanted, unit).1 <= gap.1
            + 1,
        map_placement(gap, wanted, unit).1 - map_placement(gap, wanted, unit).0 == round_up_to(
            wanted,
            unit,
        ),
        map_placement(gap, wanted, unit).1 % unit == 0,
{
    lemma_round_up(gap.0 as int, unit);
    lemma_round_up(wanted, unit);
    lemma_trunc_down(gap.1 + 1, unit);
}

/// A range that was just given an entry is found again at each of its
/// pages: the page's region is the range, and its entry is the one given.
pub proof fn lemma_added_is_found(
    pages: Map<int, Region>,
    first: u32,
    last: u32,
    entry: VmmapEntry,
    page: int,
)
    requires
        first <= page <= last,
    ensures
        overwrite_pages(pages, first, last, entry).contains_key(page),
        overwrite_pages(pages, first, last, entry)[page] == (Region { first, last, entry }),
{
}

/// A range that was just unmapped has no page mapped, and every page
/// outside it is mapped exactly if it was before.
pub proof fn lemma_removed_is_gone(pages: Map<int, Region>, first: u32, last: u32, page: int)
    ensures
        first <= page <= last ==> !unmapped_pages(pages, first, last).contains_key(page),
        !(first <= page <= last) ==> unmapped_pages(pages, first, last).contains_key(page)
            == pages.contains_key(page),
{
}

/// Two largest unmapped runs that begin at the same page are one.
pub proof fn lemma_gap_is_unique(
    pages: Map<int, Region>,
    first: u32,
    last: u32,
    one: (u32, u32),
    other: (u32, u32),
)
    requires
        is_gap(pages, first, last, one),
        is_gap(pages, first, last, other),
        one.0 == other.0,
    ensures
        one == other,
{
    if one.1 < other.1 {
        assert(!pages.contains_key(one.1 + 1));
    }
    if other.1 < one.1 {
        assert(!pages.contains_key(other.1 + 1));
    }
}

/// What a search for a run of at least `wanted` pages finds is determined
/// by the page map.
pub proof fn lemma_first_fit_is_unique(
    pages: Map<int, Region>,
    first: u32,
    last: u32,
    wanted: int,
    one: Option<PageRange>,
    other: Option<PageRange>,
)
    requires
        first_fit(pages, first, last, wanted, one),
        first_fit(pages, first, last, wanted, other),
    ensures
        one == other,
{
    match (one, other) {
        (Some(found), Some(also)) => {
            let gap = (found.start, (found.end - 1) as u32);
            let also_gap = (also.start, (also.end - 1) as u32);
            assert(is_gap(pages, first, last, gap));
            assert(is_gap(pages, first, last, also_gap));
            assert(gap_len(gap) >= wanted && gap_len(also_gap) >= wanted);
            lemma_gap_is_unique(pages, first, last, gap, also_gap);
        },
        (Some(found), None) => {
            assert(is_gap(pages, first, last, (found.start, (found.end - 1) as u32)));
            assert(gap_len((found.start, (found.end - 1) as u32)) >= wanted);
        },
        (None, Some(also)) => {
            assert(is_gap(pages, first, last, (also.start, (also.end - 1) as u32)));
            assert(gap_len((also.start, (also.end - 1) as u32)) >= wanted);
        },
        (None, None) => {},
    }
}

/// What a search for a placement of `wanted` pages at multiples of `unit`
/// finds is determined by the page map.
pub proof fn lemma_first_map_fit_is_unique(
    pages: Map<int, Region>,
    first: u32,
    last: u32,
    wanted: int,
    unit: int,
    one: Option<PageRange>,
    other: Option<PageRange>,
)
    requires
        first_map_fit(pages, first, last, wanted, unit, one),
        first_map_fit(pages, first, last, wanted, unit, other),
    ensures
        one == other,
{
    match (one, other) {
        (Some(found), Some(also)) => {
            let gap = choose|gap: (u32, u32)|
                {
                    &&& #[trigger] is_gap(pages, first, last, gap)
                    &&& map_fits(gap, wanted, unit)
                    &&& (found.start as int, found.end as int) == map_placement(gap, wanted, unit)
                    &&& forall|lower: (u32, u32)| #[trigger]
                        is_gap(pages, first, last, lower) && lower.0 < gap.0 ==> !map_fits(
                            lower,
                            wanted,
                            unit,
                        )
                };
            let also_gap = choose|gap: (u32, u32)|
                {
                    &&& #[trigger] is_gap(pages, first, last, gap)
                    &&& map_fits(gap, wanted, unit)
                    &&& (also.start as int, also.end as int) == map_placement(gap, wanted, unit)
                    &&& forall|lower: (u32, u32)| #[trigger]
                        is_gap(pages, first, last, lower) && lower.0 < gap.0 ==> !map_fits(
                            lower,
                            wanted,
                            unit,
                        )
                };
            lemma_gap_is_unique(pages, first, last, gap, also_gap);
        },
        (Some(found), None) => {
            let gap = choose|gap: (u32, u32)|
                {
                    &&& #[trigger] is_gap(pages, first, last, gap)
                    &&& map_fits(gap, wanted, unit)
                    &&& (found.start as int, found.end as int) == map_placement(gap, wanted, unit)
                    &&& forall|lower: (u32, u32)| #[trigger]
                        is_gap(pages, first, last, lower) && lower.0 < gap.0 ==> !map_fits(
                            lower,
                            wanted,
                            unit,
                        )
                };
        },
        (None, Some(also)) => {
            let also_gap = choose|gap: (u32, u32)|
                {
                    &&& #[trigger] is_gap(pages, first, last, gap)
                    &&& map_fits(gap, wanted, unit)
                    &&& (also.start as int, also.end as int) == map_placement(gap, wanted, unit)
                    &&& forall|lower: (u32, u32)| #[trigger]
                        is_gap(pages, first, last, lower) && lower.0 < gap.0 ==> !map_fits(
                            lower,
                            wanted,
                            unit,
                        )
                };
        },
        (None, None) => {},
    }
}

/// Two lists of the regions that have a page in an interval agree up to
/// any position that both have.
proof fn lemma_listings_agree(
    pages: Map<int, Region>,
    first: u32,
    last: u32,
    one: Seq<Region>,
    other: Seq<Region>,
    position: int,
)
    requires
        pages_wf(pages),
        first <= last,
        lists_touching(pages, first, last, one),
        lists_touching(pages, first, last, other),
        0 <= position < one.len(),
    ensures
        position < other.len(),
        one[position] == other[position],
    decreases position,
{
    if position > 0 {
        lemma_listings_agree(pages, first, last, one, other, position - 1);
    }
    let region = one[position];
    assert(pages.contains_key(region.first as int) && pages[region.first as int] == region);
    let there = lemma_listed(pages, first, last, other, region.first as int);
    if there < position {
        lemma_listings_agree(pages, first, last, one, other, there);
        assert(one[there].last < one[position].first);
    }
    if there > position {
        let counterpart = other[position];
        assert(pages.contains_key(counterpart.first as int) && pages[counterpart.first as int]
            == counterpart);
        let back = lemma_listed(pages, first, last, one, counterpart.first as int);
        assert(other[position].last < other[there].first);
        if back < position {
            lemma_listings_agree(pages, first, last, one, other, back);
            assert(position > 0);
            assert(other[back].last < other[position].first);
        } else if back > position {
            assert(one[position].last < one[back].first);
        }
    }
}

/// The list of the regions that have a page in an interval is determined by
/// the page map.
pub proof fn lemma_listing_is_unique(
    pages: Map<int, Region>,
    first: u32,
    last: u32,
    one: Seq<Region>,
    other: Seq<Region>,
)
    requires
        pages_wf(pages),
        first <= last,
        lists_touching(pages, first, last, one),
        lists_touching(pages, first, last, other),
    ensures
        one == other,
{
    if one.len() > 0 {
        lemma_listings_agree(pages, first, last, one, other, one.len() - 1);
    }
    if other.len() > 0 {
        lemma_listings_agree(pages, first, last, other, one, other.len() - 1);
    }
    assert forall|position: int| 0 <= position < one.len() implies one[position]
        == other[position] by {
        lemma_listings_agree(pages, first, last, one, other, position);
    }
    assert(one =~= other);
}

} // verus!
