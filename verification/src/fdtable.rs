//! The virtual descriptor tables of all cages, the registry of references to
//! real descriptors, and the hooks that are called when a reference goes away.
//!
//! The tables and the registry live in one [`FdTables`] value that the
//! surrounding system creates once and hands to every call. A call that
//! releases descriptors takes the [`CloseHandlers`] in force, calls the hook
//! that each release asks for, and returns the releases as [`CloseEvent`]s.
use crate::constants::FD_PER_PROCESS_MAX;
use crate::constants::NO_REAL_FD;
use crate::errno::Errno;
use crate::fd_model::lemma_forked_wf;
use crate::fd_model::lemma_installed_wf;
use crate::fd_model::lemma_refs_below_empty;
use crate::fd_model::lemma_refs_take_le;
use crate::fd_model::lemma_refs_take_next;
use crate::fd_model::lemma_released_wf;
use crate::fd_model::lemma_room_for_copy;
use crate::fd_model::lemma_swept;
use crate::fd_model::lemma_with_empty_cage_wf;
use crate::fd_model::lemma_with_slot_same_realfd_wf;
use crate::fd_model::lemma_without_cage_wf;
use crate::fd_model::refs_in_slots;
use crate::fd_model::CloseEvent;
use crate::fd_model::FDTableEntry;
use crate::fd_model::FdState;
use crate::fd_store::counts_get;
use crate::fd_store::counts_insert;
use crate::fd_store::counts_new;
use crate::fd_store::counts_remove;
use crate::fd_store::fd_arrays;
use crate::fd_store::fd_counts;
use crate::fd_store::tables_contains;
use crate::fd_store::tables_insert;
use crate::fd_store::tables_new;
use crate::fd_store::tables_remove;
use crate::fd_store::tables_set_slot;
use crate::fd_store::tables_slot;
use crate::fd_store::CountMap;
use crate::fd_store::FdArray;
use crate::fd_store::FdMap;
use std::collections::HashMap;
use vstd::prelude::*;

verus! {

broadcast use vstd::std_specs::hash::group_hash_axioms;

/// The three hooks that are called when a descriptor is released.
pub struct CloseHandlers<I, F, U> {
    /// Called with the real descriptor when a reference to it goes away and
    /// others remain.
    pub intermediate_handler: I,
    /// Called with the real descriptor when the last reference to it goes
    /// away; this is where the host's descriptor is to be closed.
    pub final_handler: F,
    /// Called with the entry's `optionalinfo` when an entry without a real
    /// descriptor goes away.
    pub unreal_handler: U,
}

/// The hook that does nothing.
#[allow(non_snake_case)]
pub fn NULL_FUNC(_value: i32) {
}

impl<I: Fn(i32), F: Fn(i32), U: Fn(i32)> CloseHandlers<I, F, U> {
    /// Every hook may be called with every value.
    pub open spec fn accepts_all(&self) -> bool {
        &&& forall|value: i32| call_requires(self.intermediate_handler, (value,))
        &&& forall|value: i32| call_requires(self.final_handler, (value,))
        &&& forall|value: i32| call_requires(self.unreal_handler, (value,))
    }

    /// The hook that `event` asks for has returned from a call with the
    /// event's value.
    pub open spec fn handled(&self, event: CloseEvent) -> bool {
        match event {
            CloseEvent::Intermediate(realfd) => call_ensures(
                self.intermediate_handler,
                (realfd,),
                (),
            ),
            CloseEvent::Final(realfd) => call_ensures(self.final_handler, (realfd,), ()),
            CloseEvent::Unreal(optionalinfo) => call_ensures(
                self.unreal_handler,
                (optionalinfo,),
                (),
            ),
        }
    }

    /// A set of three hooks.
    pub fn new(intermediate_handler: I, final_handler: F, unreal_handler: U) -> (handlers: Self)
        ensures
            handlers.intermediate_handler == intermediate_handler,
            handlers.final_handler == final_handler,
            handlers.unreal_handler == unreal_handler,
    {
        CloseHandlers { intermediate_handler, final_handler, unreal_handler }
    }

    /// Calls the hook that `event` asks for, once, with the event's value.
    pub fn handle(&self, event: CloseEvent)
        requires
            self.accepts_all(),
        ensures
            self.handled(event),
    {
        match event {
            CloseEvent::Intermediate(realfd) => (self.intermediate_handler)(realfd),
            CloseEvent::Final(realfd) => (self.final_handler)(realfd),
            CloseEvent::Unreal(optionalinfo) => (self.unreal_handler)(optionalinfo),
        }
    }
}

/// Replaces the three hooks as a set.
pub fn register_close_handlers<I: Fn(i32), F: Fn(i32), U: Fn(i32)>(
    handlers: &mut CloseHandlers<I, F, U>,
    intermediate_handler: I,
    final_handler: F,
    unreal_handler: U,
)
    ensures
        final(handlers).intermediate_handler == intermediate_handler,
        final(handlers).final_handler == final_handler,
        final(handlers).unreal_handler == unreal_handler,
{
    handlers.intermediate_handler = intermediate_handler;
    handlers.final_handler = final_handler;
    handlers.unreal_handler = unreal_handler;
}

/// The descriptor tables of all cages and the registry of reference counts.
pub struct FdTables {
    tables: FdMap,
    counts: CountMap,
}

impl View for FdTables {
    type V = FdState;

    closed spec fn view(&self) -> FdState {
        FdState { tables: fd_arrays(self.tables), counts: fd_counts(self.counts) }
    }
}

impl FdTables {
    /// The tables are whole and every count is exact; see [`FdState::wf`].
    pub open spec fn wf(&self) -> bool {
        self@.wf()
    }

    /// Tables for no cage, and an empty registry.
    pub fn new() -> (tables: FdTables)
        ensures
            tables.wf(),
            tables@.tables == Map::<u64, Seq<Option<FDTableEntry>>>::empty(),
            tables@.counts == Map::<i32, u64>::empty(),
    {
        let tables = FdTables { tables: tables_new(), counts: counts_new() };
        proof {
            assert(tables@.tables =~= Map::<u64, Seq<Option<FDTableEntry>>>::empty());
            assert(tables@.counts =~= Map::<i32, u64>::empty());
            assert forall|realfd: i32| realfd != NO_REAL_FD implies #[trigger] tables@.refcount(
                realfd,
            ) == tables@.holders(realfd) by {
                lemma_refs_below_empty(tables@.tables, realfd, crate::fd_model::cage_id_count());
            }
        }
        tables
    }

    /// Whether the cage has a table.
    pub fn contains_cage(&self, cageid: u64) -> (found: bool)
        ensures
            found == self@.has_cage(cageid),
    {
        tables_contains(&self.tables, cageid)
    }

    /// The count that the registry records for `realfd`: zero where it
    /// records none.
    pub fn realfd_count(&self, realfd: i32) -> (count: u64)
        ensures
            count == self@.refcount(realfd),
    {
        match counts_get(&self.counts, realfd) {
            Some(count) => count,
            None => 0,
        }
    }

    /// What the cage has under `virtualfd`.
    fn lookup(&self, cageid: u64, virtualfd: i32) -> (slot: Option<FDTableEntry>)
        requires
            self.wf(),
            self@.has_cage(cageid),
        ensures
            slot == self@.slot(cageid, virtualfd as int),
    {
        if virtualfd < 0 || virtualfd >= FD_PER_PROCESS_MAX {
            None
        } else {
            tables_slot(&self.tables, cageid, virtualfd as usize)
        }
    }

    /// Empties an occupied slot: the entry's reference is given up and the
    /// hook for it is called.
    fn release_slot<I: Fn(i32), F: Fn(i32), U: Fn(i32)>(
        &mut self,
        handlers: &CloseHandlers<I, F, U>,
        cageid: u64,
        index: usize,
    ) -> (event: CloseEvent)
        requires
            old(self).wf(),
            old(self)@.has_cage(cageid),
            index < FD_PER_PROCESS_MAX,
            old(self)@.tables[cageid][index as int] is Some,
            handlers.accepts_all(),
        ensures
            final(self).wf(),
            final(self)@ == old(self)@.released(cageid, index as int),
            event == old(self)@.release_event(cageid, index as int),
            handlers.handled(event),
    {
        proof {
            lemma_released_wf(self@, cageid, index as int);
        }
        let entry = tables_slot(&self.tables, cageid, index).unwrap();
        tables_set_slot(&mut self.tables, cageid, index, None);
        if entry.realfd == NO_REAL_FD {
            let event = CloseEvent::Unreal(entry.optionalinfo);
            handlers.handle(event);
            event
        } else {
            let remaining: u64 = _decrement_realfd(self, handlers, entry.realfd);
            if remaining > 0 {
                CloseEvent::Intermediate(entry.realfd)
            } else {
                CloseEvent::Final(entry.realfd)
            }
        }
    }
}

/// Gives a cage that has none an empty table.
pub fn init_empty_cage(tables: &mut FdTables, cageid: u64)
    requires
        old(tables).wf(),
        !old(tables)@.has_cage(cageid),
    ensures
        final(tables).wf(),
        final(tables)@ == old(tables)@.with_empty_cage(cageid),
{
    let array: FdArray = [None;1024];
    proof {
        lemma_with_empty_cage_wf(tables@, cageid);
        assert(array@ =~= Seq::new(FD_PER_PROCESS_MAX as nat, |index: int| None::<FDTableEntry>));
    }
    tables_insert(&mut tables.tables, cageid, array);
}

/// The real descriptor behind a virtual one.
///
/// `EBADFD` where the cage has nothing open under `virtualfd`, which
/// includes every number that is not one of the table's.
pub fn translate_virtual_fd(tables: &FdTables, cageid: u64, virtualfd: i32) -> (result: Result<
    i32,
    Errno,
>)
    requires
        tables.wf(),
        tables@.has_cage(cageid),
    ensures
        result == (match tables@.slot(cageid, virtualfd as int) {
            Some(entry) => Ok::<i32, Errno>(entry.realfd),
            None => Err(Errno::EBADFD),
        }),
{
    match tables.lookup(cageid, virtualfd) {
        Some(entry) => Ok(entry.realfd),
        None => Err(Errno::EBADFD),
    }
}

/// Opens the lowest free virtual descriptor of the cage over `realfd`.
///
/// `EMFILE`, with nothing changed, where every slot is in use.
pub fn get_unused_virtual_fd(
    tables: &mut FdTables,
    cageid: u64,
    realfd: i32,
    should_cloexec: bool,
    optionalinfo: i32,
) -> (result: Result<i32, Errno>)
    requires
        old(tables).wf(),
        old(tables)@.has_cage(cageid),
        realfd != NO_REAL_FD && (exists|free: int|
            0 <= free < FD_PER_PROCESS_MAX && #[trigger] old(tables)@.slot(cageid, free) is None)
            ==> old(tables)@.refcount(realfd) < u64::MAX,
    ensures
        final(tables).wf(),
        match result {
            Ok(virtualfd) => {
                &&& 0 <= virtualfd < FD_PER_PROCESS_MAX
                &&& old(tables)@.slot(cageid, virtualfd as int) is None
                &&& forall|lower: int|
                    0 <= lower < virtualfd ==> old(tables)@.slot(cageid, lower) is Some
                &&& final(tables)@ == old(tables)@.installed(
                    cageid,
                    virtualfd as int,
                    FDTableEntry { realfd, should_cloexec, optionalinfo },
                )
                &&& final(tables)@.slot(cageid, virtualfd as int) == Some(
                    FDTableEntry { realfd, should_cloexec, optionalinfo },
                )
            },
            Err(errno) => {
                &&& errno == Errno::EMFILE
                &&& forall|lower: int|
                    0 <= lower < FD_PER_PROCESS_MAX ==> old(tables)@.slot(cageid, lower) is Some
                &&& final(tables)@ == old(tables)@
            },
        },
{
    let myentry = FDTableEntry { realfd, should_cloexec, optionalinfo };
    let mut fdcandidate: i32 = 0;
    while fdcandidate < FD_PER_PROCESS_MAX
        invariant
            0 <= fdcandidate <= FD_PER_PROCESS_MAX,
            tables.wf(),
            tables@ == old(tables)@,
            tables@.has_cage(cageid),
            realfd != NO_REAL_FD && (exists|free: int|
                0 <= free < FD_PER_PROCESS_MAX && #[trigger] tables@.slot(cageid, free) is None)
                ==> tables@.refcount(realfd) < u64::MAX,
            myentry == (FDTableEntry { realfd, should_cloexec, optionalinfo }),
            forall|lower: int| 0 <= lower < fdcandidate ==> tables@.slot(cageid, lower) is Some,
        decreases FD_PER_PROCESS_MAX - fdcandidate,
    {
        if tables_slot(&tables.tables, cageid, fdcandidate as usize).is_none() {
            proof {
                assert(tables@.slot(cageid, fdcandidate as int) is None);
                lemma_installed_wf(tables@, cageid, fdcandidate as int, myentry);
            }
            tables_set_slot(&mut tables.tables, cageid, fdcandidate as usize, Some(myentry));
            _increment_realfd(tables, realfd);
            return Ok(fdcandidate);
        }
        fdcandidate = fdcandidate + 1;
    }
    Err(Errno::EMFILE)
}

/// Opens one given virtual descriptor of the cage over `realfd`.
///
/// `EBADF` where the number is not one of the table's, `ELIND` where the
/// slot is in use; either way nothing changes.
pub fn get_specific_virtual_fd(
    tables: &mut FdTables,
    cageid: u64,
    requested_virtualfd: i32,
    realfd: i32,
    should_cloexec: bool,
    optionalinfo: i32,
) -> (result: Result<(), Errno>)
    requires
        old(tables).wf(),
        old(tables)@.has_cage(cageid),
        realfd != NO_REAL_FD && 0 <= requested_virtualfd < FD_PER_PROCESS_MAX && old(tables)@.slot(cageid, requested_virtualfd as int) is None ==> old(tables)@.refcount(realfd)
            < u64::MAX,
    ensures
        final(tables).wf(),
        !(0 <= requested_virtualfd < FD_PER_PROCESS_MAX) ==> result == Err::<(), Errno>(
            Errno::EBADF,
        ) && final(tables)@ == old(tables)@,
        0 <= requested_virtualfd < FD_PER_PROCESS_MAX && old(tables)@.slot(
            cageid,
            requested_virtualfd as int,
        ) is Some ==> result == Err::<(), Errno>(Errno::ELIND) && final(tables)@ == old(tables)@,
        0 <= requested_virtualfd < FD_PER_PROCESS_MAX && old(tables)@.slot(
            cageid,
            requested_virtualfd as int,
        ) is None ==> result == Ok::<(), Errno>(()) && final(tables)@ == old(tables)@.installed(
            cageid,
            requested_virtualfd as int,
            FDTableEntry { realfd, should_cloexec, optionalinfo },
        ) && final(tables)@.slot(cageid, requested_virtualfd as int) == Some(
            FDTableEntry { realfd, should_cloexec, optionalinfo },
        ),
{
    if requested_virtualfd < 0 || requested_virtualfd >= FD_PER_PROCESS_MAX {
        return Err(Errno::EBADF);
    }
    let myentry = FDTableEntry { realfd, should_cloexec, optionalinfo };
    if tables_slot(&tables.tables, cageid, requested_virtualfd as usize).is_some() {
        Err(Errno::ELIND)
    } else {
        proof {
            lemma_installed_wf(tables@, cageid, requested_virtualfd as int, myentry);
        }
        tables_set_slot(&mut tables.tables, cageid, requested_virtualfd as usize, Some(myentry));
        _increment_realfd(tables, realfd);
        Ok(())
    }
}

/// Sets or clears the close-on-exec flag of an open virtual descriptor.
///
/// `EBADFD`, with nothing changed, where the cage has nothing open under
/// `virtualfd`.
pub fn set_cloexec(tables: &mut FdTables, cageid: u64, virtualfd: i32, is_cloexec: bool) -> (result:
    Result<(), Errno>)
    requires
        old(tables).wf(),
        old(tables)@.has_cage(cageid),
    ensures
        final(tables).wf(),
        match old(tables)@.slot(cageid, virtualfd as int) {
            Some(entry) => result == Ok::<(), Errno>(()) && final(tables)@ == old(tables)@.with_slot(
                cageid,
                virtualfd as int,
                Some(
                    FDTableEntry {
                        realfd: entry.realfd,
                        should_cloexec: is_cloexec,
                        optionalinfo: entry.optionalinfo,
                    },
                ),
            ),
            None => result == Err::<(), Errno>(Errno::EBADFD) && final(tables)@ == old(tables)@,
        },
{
    match tables.lookup(cageid, virtualfd) {
        Some(entry) => {
            let changed = FDTableEntry {
                realfd: entry.realfd,
                should_cloexec: is_cloexec,
                optionalinfo: entry.optionalinfo,
            };
            proof {
                lemma_with_slot_same_realfd_wf(tables@, cageid, virtualfd as int, changed);
            }
            tables_set_slot(&mut tables.tables, cageid, virtualfd as usize, Some(changed));
            Ok(())
        },
        None => Err(Errno::EBADFD),
    }
}

/// The caller's data of an open virtual descriptor.
///
/// `EBADFD` where the cage has nothing open under `virtualfd`.
pub fn get_optionalinfo(tables: &FdTables, cageid: u64, virtualfd: i32) -> (result: Result<
    i32,
    Errno,
>)
    requires
        tables.wf(),
        tables@.has_cage(cageid),
    ensures
        result == (match tables@.slot(cageid, virtualfd as int) {
            Some(entry) => Ok::<i32, Errno>(entry.optionalinfo),
            None => Err(Errno::EBADFD),
        }),
{
    match tables.lookup(cageid, virtualfd) {
        Some(entry) => Ok(entry.optionalinfo),
        None => Err(Errno::EBADFD),
    }
}

/// Replaces the caller's data of an open virtual descriptor.
///
/// `EBADFD`, with nothing changed, where the cage has nothing open under
/// `virtualfd`.
pub fn set_optionalinfo(tables: &mut FdTables, cageid: u64, virtualfd: i32, optionalinfo: i32) -> (result:
    Result<(), Errno>)
    requires
        old(tables).wf(),
        old(tables)@.has_cage(cageid),
    ensures
        final(tables).wf(),
        match old(tables)@.slot(cageid, virtualfd as int) {
            Some(entry) => result == Ok::<(), Errno>(()) && final(tables)@ == old(tables)@.with_slot(
                cageid,
                virtualfd as int,
                Some(
                    FDTableEntry {
                        realfd: entry.realfd,
                        should_cloexec: entry.should_cloexec,
                        optionalinfo,
                    },
                ),
            ),
            None => result == Err::<(), Errno>(Errno::EBADFD) && final(tables)@ == old(tables)@,
        },
{
    match tables.lookup(cageid, virtualfd) {
        Some(entry) => {
            let changed = FDTableEntry {
                realfd: entry.realfd,
                should_cloexec: entry.should_cloexec,
                optionalinfo,
            };
            proof {
                lemma_with_slot_same_realfd_wf(tables@, cageid, virtualfd as int, changed);
            }
            tables_set_slot(&mut tables.tables, cageid, virtualfd as usize, Some(changed));
            Ok(())
        },
        None => Err(Errno::EBADFD),
    }
}

/// Whether the cage's table can be copied without a count running over:
/// every real descriptor it holds can take as many more references as a
/// table has slots.
pub fn has_room_for_copy(tables: &FdTables, cageid: u64) -> (room: bool)
    requires
        tables.wf(),
        tables@.has_cage(cageid),
    ensures
        room == tables@.has_room_for_copy(cageid),
{
    let mut index: usize = 0;
    while index < 1024
        invariant
            0 <= index <= 1024,
            tables.wf(),
            tables@.has_cage(cageid),
            forall|earlier: int|
                0 <= earlier < index ==> tables@.slot_has_room(
                    #[trigger] tables@.tables[cageid][earlier],
                ),
        decreases 1024 - index,
    {
        match tables_slot(&tables.tables, cageid, index) {
            Some(entry) => {
                if entry.realfd != NO_REAL_FD && tables.realfd_count(entry.realfd) > u64::MAX
                    - 1024 {
                    return false;
                }
            },
            None => {},
        }
        index = index + 1;
    }
    true
}

/// Gives a new cage a copy of another cage's table; every copied entry over
/// a real descriptor counts as one more reference to it.
pub fn copy_fdtable_for_cage(tables: &mut FdTables, srccageid: u64, newcageid: u64) -> (result:
    Result<(), Errno>)
    requires
        old(tables).wf(),
        old(tables)@.has_cage(srccageid),
        !old(tables)@.has_cage(newcageid),
        old(tables)@.has_room_for_copy(srccageid),
    ensures
        result is Ok,
        final(tables).wf(),
        final(tables)@ == old(tables)@.forked(srccageid, newcageid),
        forall|virtualfd: int|
            final(tables)@.slot(newcageid, virtualfd) == old(tables)@.slot(srccageid, virtualfd),
        forall|realfd: i32|
            realfd != NO_REAL_FD ==> final(tables)@.refcount(realfd) == old(tables)@.refcount(
                realfd,
            ) + #[trigger] refs_in_slots(old(tables)@.tables[srccageid], realfd),
{
    let mut hmcopy: FdArray = [None;1024];
    let ghost slots = tables@.tables[srccageid];
    proof {
        lemma_room_for_copy(tables@, srccageid);
    }
    let mut index: usize = 0;
    while index < 1024
        invariant
            0 <= index <= 1024,
            old(tables).wf(),
            old(tables)@.has_cage(srccageid),
            slots == old(tables)@.tables[srccageid],
            slots.len() == 1024,
            tables@.tables == old(tables)@.tables,
            tables@.counts =~= old(tables)@.fork_counts(srccageid, index as int),
            forall|copied: int| 0 <= copied < index ==> hmcopy@[copied] == slots[copied],
            forall|realfd: i32|
                realfd != NO_REAL_FD ==> old(tables)@.refcount(realfd) + #[trigger] refs_in_slots(
                    slots,
                    realfd,
                ) <= u64::MAX,
        decreases 1024 - index,
    {
        let slot = tables_slot(&tables.tables, srccageid, index);
        hmcopy[index] = slot;
        proof {
            assert forall|realfd: i32|
                refs_in_slots(slots.take(index + 1), realfd) == refs_in_slots(
                    slots.take(index as int),
                    realfd,
                ) + (if crate::fd_model::slot_holds(slots[index as int], realfd) {
                    1nat
                } else {
                    0nat
                }) && #[trigger] refs_in_slots(slots.take(index + 1), realfd) <= refs_in_slots(
                    slots,
                    realfd,
                ) by {
                lemma_refs_take_next(slots, index as int, realfd);
                lemma_refs_take_le(slots, index + 1, realfd);
            }
        }
        match slot {
            Some(entry) => {
                if entry.realfd != NO_REAL_FD {
                    proof {
                        assert(refs_in_slots(slots.take(index + 1), entry.realfd) <= refs_in_slots(
                            slots,
                            entry.realfd,
                        ));
                    }
                    _increment_realfd(tables, entry.realfd);
                }
            },
            None => {},
        }
        index = index + 1;
    }
    proof {
        lemma_forked_wf(old(tables)@, srccageid, newcageid);
        assert(hmcopy@ =~= slots);
        assert forall|realfd: i32| realfd != NO_REAL_FD implies old(tables)@.forked(
            srccageid,
            newcageid,
        ).refcount(realfd) == old(tables)@.refcount(realfd) + #[trigger] refs_in_slots(
            slots,
            realfd,
        ) by {
            assert(slots.take(slots.len() as int) =~= slots);
        }
    }
    tables_insert(&mut tables.tables, newcageid, hmcopy);
    Ok(())
}

/// Releases every open descriptor of the cage, in ascending order, and takes
/// the cage's table away.
pub fn remove_cage_from_fdtable<I: Fn(i32), F: Fn(i32), U: Fn(i32)>(
    tables: &mut FdTables,
    handlers: &CloseHandlers<I, F, U>,
    cageid: u64,
) -> (events: Vec<CloseEvent>)
    requires
        old(tables).wf(),
        old(tables)@.has_cage(cageid),
        handlers.accepts_all(),
    ensures
        final(tables).wf(),
        final(tables)@ == old(tables)@.swept(
            cageid,
            FD_PER_PROCESS_MAX as nat,
            false,
        ).without_cage(cageid),
        !final(tables)@.has_cage(cageid),
        events@ == old(tables)@.sweep_events(cageid, FD_PER_PROCESS_MAX as nat, false),
        forall|position: int| 0 <= position < events.len() ==> handlers.handled(events[position]),
{
    let events = sweep(tables, handlers, cageid, false);
    proof {
        lemma_swept(old(tables)@, cageid, FD_PER_PROCESS_MAX as nat, false);
        lemma_without_cage_wf(tables@, cageid);
    }
    tables_remove(&mut tables.tables, cageid);
    events
}

/// Releases every descriptor of the cage that is flagged close-on-exec, in
/// ascending order; the others stay as they are.
pub fn empty_fds_for_exec<I: Fn(i32), F: Fn(i32), U: Fn(i32)>(
    tables: &mut FdTables,
    handlers: &CloseHandlers<I, F, U>,
    cageid: u64,
) -> (events: Vec<CloseEvent>)
    requires
        old(tables).wf(),
        old(tables)@.has_cage(cageid),
        handlers.accepts_all(),
    ensures
        final(tables).wf(),
        final(tables)@ == old(tables)@.swept(cageid, FD_PER_PROCESS_MAX as nat, true),
        final(tables)@.tables == old(tables)@.tables.insert(
            cageid,
            old(tables)@.swept_slots(cageid, FD_PER_PROCESS_MAX as nat, true),
        ),
        events@ == old(tables)@.sweep_events(cageid, FD_PER_PROCESS_MAX as nat, true),
        forall|position: int| 0 <= position < events.len() ==> handlers.handled(events[position]),
{
    let events = sweep(tables, handlers, cageid, true);
    proof {
        lemma_swept(old(tables)@, cageid, FD_PER_PROCESS_MAX as nat, true);
    }
    events
}

/// Passes over the cage's table in ascending order and releases every
/// occupied slot, or only those flagged close-on-exec.
fn sweep<I: Fn(i32), F: Fn(i32), U: Fn(i32)>(
    tables: &mut FdTables,
    handlers: &CloseHandlers<I, F, U>,
    cageid: u64,
    only_cloexec: bool,
) -> (events: Vec<CloseEvent>)
    requires
        old(tables).wf(),
        old(tables)@.has_cage(cageid),
        handlers.accepts_all(),
    ensures
        final(tables).wf(),
        final(tables)@ == old(tables)@.swept(cageid, FD_PER_PROCESS_MAX as nat, only_cloexec),
        events@ == old(tables)@.sweep_events(cageid, FD_PER_PROCESS_MAX as nat, only_cloexec),
        forall|position: int| 0 <= position < events.len() ==> handlers.handled(events[position]),
{
    let mut events: Vec<CloseEvent> = Vec::new();
    let mut item: usize = 0;
    while item < 1024
        invariant
            0 <= item <= 1024,
            old(tables).wf(),
            old(tables)@.has_cage(cageid),
            handlers.accepts_all(),
            tables.wf(),
            tables@.has_cage(cageid),
            tables@ == old(tables)@.swept(cageid, item as nat, only_cloexec),
            events@ == old(tables)@.sweep_events(cageid, item as nat, only_cloexec),
            forall|position: int|
                0 <= position < events.len() ==> handlers.handled(events[position]),
        decreases 1024 - item,
    {
        proof {
            lemma_swept(old(tables)@, cageid, item as nat, only_cloexec);
        }
        let doomed = match tables_slot(&tables.tables, cageid, item) {
            Some(entry) => !only_cloexec || entry.should_cloexec,
            None => false,
        };
        if doomed {
            let event = tables.release_slot(handlers, cageid, item);
            events.push(event);
        }
        item = item + 1;
    }
    events
}

/// Closes one virtual descriptor of the cage.
///
/// `EBADFD` where the cage has nothing open under `virtfd`: then nothing
/// changes and no hook is called.
pub fn close_virtualfd<I: Fn(i32), F: Fn(i32), U: Fn(i32)>(
    tables: &mut FdTables,
    handlers: &CloseHandlers<I, F, U>,
    cageid: u64,
    virtfd: i32,
) -> (result: Result<CloseEvent, Errno>)
    requires
        old(tables).wf(),
        old(tables)@.has_cage(cageid),
        handlers.accepts_all(),
    ensures
        final(tables).wf(),
        match old(tables)@.slot(cageid, virtfd as int) {
            Some(entry) => {
                &&& result == Ok::<CloseEvent, Errno>(
                    old(tables)@.release_event(cageid, virtfd as int),
                )
                &&& final(tables)@ == old(tables)@.released(cageid, virtfd as int)
                &&& final(tables)@.slot(cageid, virtfd as int) is None
                &&& handlers.handled(result.unwrap())
            },
            None => result == Err::<CloseEvent, Errno>(Errno::EBADFD) && final(tables)@ == old(tables)@,
        },
{
    match tables.lookup(cageid, virtfd) {
        Some(_entry) => {
            proof {
                lemma_released_wf(tables@, cageid, virtfd as int);
            }
            Ok(tables.release_slot(handlers, cageid, virtfd as usize))
        },
        None => Err(Errno::EBADFD),
    }
}

/// The open descriptors of the cage, each under its number.
pub fn return_fdtable_copy(tables: &FdTables, cageid: u64) -> (copy: HashMap<i32, FDTableEntry>)
    requires
        tables.wf(),
        tables@.has_cage(cageid),
    ensures
        forall|virtualfd: i32|
            copy@.contains_key(virtualfd) <==> tables@.slot(cageid, virtualfd as int) is Some,
        forall|virtualfd: i32|
            copy@.contains_key(virtualfd) ==> Some(copy@[virtualfd]) == tables@.slot(
                cageid,
                virtualfd as int,
            ),
{
    let mut myhashmap: HashMap<i32, FDTableEntry> = HashMap::new();
    let mut item: i32 = 0;
    while item < FD_PER_PROCESS_MAX
        invariant
            0 <= item <= FD_PER_PROCESS_MAX,
            tables.wf(),
            tables@.has_cage(cageid),
            forall|virtualfd: i32|
                myhashmap@.contains_key(virtualfd) <==> virtualfd < item && tables@.slot(
                    cageid,
                    virtualfd as int,
                ) is Some,
            forall|virtualfd: i32|
                myhashmap@.contains_key(virtualfd) ==> Some(myhashmap@[virtualfd]) == tables@.slot(
                    cageid,
                    virtualfd as int,
                ),
        decreases FD_PER_PROCESS_MAX - item,
    {
        match tables_slot(&tables.tables, cageid, item as usize) {
            Some(entry) => {
                myhashmap.insert(item, entry);
            },
            None => {},
        }
        item = item + 1;
    }
    myhashmap
}

/// Records that one reference to `realfd` went away and calls the hook for
/// it: the final one where none remains, the intermediate one otherwise.
/// Returns the number of references that remain.
fn _decrement_realfd<I: Fn(i32), F: Fn(i32), U: Fn(i32)>(
    tables: &mut FdTables,
    handlers: &CloseHandlers<I, F, U>,
    realfd: i32,
) -> (newcount: u64)
    requires
        realfd != NO_REAL_FD,
        old(tables)@.counts.contains_key(realfd),
        old(tables)@.counts[realfd] > 0,
        handlers.accepts_all(),
    ensures
        final(tables)@ == old(tables)@.dropped(realfd),
        newcount == old(tables)@.refcount(realfd) - 1,
        handlers.handled(
            if newcount > 0 {
                CloseEvent::Intermediate(realfd)
            } else {
                CloseEvent::Final(realfd)
            },
        ),
{
    let newcount: u64 = counts_get(&tables.counts, realfd).unwrap() - 1;
    if newcount > 0 {
        handlers.handle(CloseEvent::Intermediate(realfd));
        counts_insert(&mut tables.counts, realfd, newcount);
    } else {
        handlers.handle(CloseEvent::Final(realfd));
        counts_remove(&mut tables.counts, realfd);
    }
    newcount
}

/// Records one more reference to `realfd` and returns the new count; for
/// [`NO_REAL_FD`] nothing is recorded and zero is returned.
fn _increment_realfd(tables: &mut FdTables, realfd: i32) -> (newcount: u64)
    requires
        realfd != NO_REAL_FD ==> old(tables)@.refcount(realfd) < u64::MAX,
    ensures
        final(tables)@ == old(tables)@.retained(realfd),
        newcount == (if realfd == NO_REAL_FD {
            0
        } else {
            old(tables)@.refcount(realfd) + 1
        }),
{
    if realfd == NO_REAL_FD {
        return 0;
    }
    let newcount: u64 = match counts_get(&tables.counts, realfd) {
        Some(count) => count + 1,
        None => 1,
    };
    counts_insert(&mut tables.counts, realfd, newcount);
    newcount
}

} // verus!
