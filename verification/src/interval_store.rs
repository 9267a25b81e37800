//! The interval map behind a cage's page map, and what is taken on trust
//! about it.
//!
//! The map is a `nodit::NoditMap` from intervals of page numbers to entries;
//! an interval includes both its ends. Verus does not look inside one, so the
//! map gets a name for its contents, [`page_regions`], and every method used
//! gets a wrapper whose contract says, over that name, what the method's
//! source shows. The contracts rest on spec functions of
//! [`crate::vmmap_model`].
use crate::vmmap_model::lists_gaps;
use crate::vmmap_model::lists_touching;
use crate::vmmap_model::no_pages;
use crate::vmmap_model::overwrite_intervals;
use crate::vmmap_model::with_entry;
use crate::vmmap_model::without_touching;
use crate::vmmap_model::is_highest;
use crate::vmmap_model::is_lowest;
use crate::vmmap_model::Region;
use crate::vmmap_model::VmmapEntry;
use nodit::interval::ii;
use nodit::Interval;
use nodit::NoditMap;
use vstd::prelude::*;

verus! {

/// `nodit::NoditMap`, as an opaque type.
#[verifier::external_type_specification]
#[verifier::external_body]
#[verifier::reject_recursive_types(I)]
#[verifier::reject_recursive_types(K)]
#[verifier::reject_recursive_types(V)]
pub struct ExNoditMap<I, K, V>(NoditMap<I, K, V>);

/// `nodit::Interval`, as an opaque type.
#[verifier::external_type_specification]
#[verifier::external_body]
#[verifier::reject_recursive_types(I)]
pub struct ExInterval<I>(Interval<I>);

/// Intervals of page numbers to what is recorded of them.
pub type PageMap = NoditMap<u32, Interval<u32>, VmmapEntry>;

/// What a [`PageMap`] holds, page by page: every page that lies in one of
/// the map's intervals, with that interval and its entry.
pub uninterp spec fn page_regions(map: PageMap) -> Map<int, Region>;

/// `NoditMap::new`: the map it makes holds no interval.
#[verifier::external_body]
pub(crate) fn pages_new() -> (map: PageMap)
    ensures
        no_pages(page_regions(map)),
{
    NoditMap::new()
}

/// `NoditMap::clone`: the copy holds the intervals and entries that the map
/// holds.
#[verifier::external_body]
pub(crate) fn pages_clone(map: &PageMap) -> (copy: PageMap)
    ensures
        page_regions(copy) == page_regions(*map),
{
    map.clone()
}

/// `NoditMap::insert_overwrite` with the interval from `first` to `last`:
/// every interval that overlaps it is cut back to its parts outside, which
/// keep the entry they had, and the interval goes in with `entry`. It panics
/// on an interval whose start lies after its end.
#[verifier::external_body]
pub(crate) fn pages_insert_overwrite(map: &mut PageMap, first: u32, last: u32, entry: VmmapEntry)
    requires
        first <= last,
    ensures
        page_regions(*final(map)) == overwrite_intervals(page_regions(*old(map)), first, last, entry),
{
    let _ = map.insert_overwrite(ii(first, last), entry);
}

/// `NoditMap::remove_overlapping` with the interval from `first` to `last`:
/// every interval that overlaps it leaves the map whole, and the others stay.
/// It panics on an interval whose start lies after its end.
#[verifier::external_body]
pub(crate) fn pages_remove_overlapping(map: &mut PageMap, first: u32, last: u32)
    requires
        first <= last,
    ensures
        page_regions(*final(map)) == without_touching(page_regions(*old(map)), first, last),
{
    let _ = map.remove_overlapping(ii(first, last));
}

/// `NoditMap::overlapping` with the interval from `first` to `last`: the
/// intervals of the map that overlap it, in ascending order, each with a copy
/// of its entry. It panics on an interval whose start lies after its end.
#[verifier::external_body]
pub(crate) fn pages_overlapping(map: &PageMap, first: u32, last: u32) -> (regions: Vec<Region>)
    requires
        first <= last,
    ensures
        lists_touching(page_regions(*map), first, last, regions@),
{
    map.overlapping(ii(first, last)).map(
        |(interval, entry)| Region { first: interval.start(), last: interval.end(), entry: *entry },
    ).collect()
}

/// `NoditMap::get_at_point`: the entry of the interval that contains the
/// page, or `None` where no interval does.
#[verifier::external_body]
pub(crate) fn pages_get_at_point(map: &PageMap, page: u32) -> (entry: Option<&VmmapEntry>)
    ensures
        entry == (if page_regions(*map).contains_key(page as int) {
            Some(&page_regions(*map)[page as int].entry)
        } else {
            None
        }),
{
    map.get_at_point(page)
}

/// `NoditMap::get_at_point_mut`: the entry of the interval that contains the
/// page, to be changed in place, or `None` where no interval does. What the
/// caller leaves in the entry is the entry of that whole interval; the
/// intervals themselves stay as they are.
#[verifier::external_body]
pub(crate) fn pages_get_at_point_mut(map: &mut PageMap, page: u32) -> (entry: Option<
    &mut VmmapEntry,
>)
    ensures
        match entry {
            Some(found) => {
                &&& page_regions(*old(map)).contains_key(page as int)
                &&& *found == page_regions(*old(map))[page as int].entry
                &&& page_regions(*final(map)) == with_entry(
                    page_regions(*old(map)),
                    page as int,
                    *final(found),
                )
            },
            None => {
                &&& !page_regions(*old(map)).contains_key(page as int)
                &&& page_regions(*final(map)) == page_regions(*old(map))
            },
        },
{
    map.get_at_point_mut(page)
}

/// `NoditMap::first_key_value`: the lowest interval of the map with a copy
/// of its entry, or `None` where the map is empty.
#[verifier::external_body]
pub(crate) fn pages_first(map: &PageMap) -> (region: Option<Region>)
    ensures
        match region {
            Some(lowest) => {
                &&& is_lowest(page_regions(*map), lowest.first)
                &&& page_regions(*map)[lowest.first as int] == lowest
            },
            None => no_pages(page_regions(*map)),
        },
{
    map.first_key_value().map(
        |(interval, entry)| Region { first: interval.start(), last: interval.end(), entry: *entry },
    )
}

/// `NoditMap::last_key_value`: the highest interval of the map with a copy
/// of its entry, or `None` where the map is empty.
#[verifier::external_body]
pub(crate) fn pages_last(map: &PageMap) -> (region: Option<Region>)
    ensures
        match region {
            Some(highest) => {
                &&& is_highest(page_regions(*map), highest.last)
                &&& page_regions(*map)[highest.last as int] == highest
            },
            None => no_pages(page_regions(*map)),
        },
{
    map.last_key_value().map(
        |(interval, entry)| Region { first: interval.start(), last: interval.end(), entry: *entry },
    )
}

/// `NoditMap::gaps_trimmed` with the interval from `first` to `last`: the
/// largest runs of pages within that interval that no interval of the map
/// contains, in ascending order, each by its first and its last page. It
/// panics on an interval whose start lies after its end.
#[verifier::external_body]
pub(crate) fn pages_gaps_trimmed(map: &PageMap, first: u32, last: u32) -> (gaps: Vec<(u32, u32)>)
    requires
        first <= last,
    ensures
        lists_gaps(page_regions(*map), first, last, gaps@),
{
    map.gaps_trimmed(ii(first, last)).map(|gap| (gap.start(), gap.end())).collect()
}

} // verus!
