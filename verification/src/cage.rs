//! The life of a cage: how fork, exec and exit keep a cage's descriptor
//! table and its page map in step.
//!
//! A cage is live when it has both a descriptor table and a page map, and
//! absent when it has neither; a [`CageTable`] that is well-formed knows no
//! third state.
use crate::fd_model::lemma_no_cage_no_count;
use crate::fd_model::CloseEvent;
use crate::constants::FD_PER_PROCESS_MAX;
use crate::fdtable::copy_fdtable_for_cage;
use crate::fdtable::empty_fds_for_exec;
use crate::fdtable::init_empty_cage;
use crate::fdtable::remove_cage_from_fdtable;
use crate::fdtable::CloseHandlers;
use crate::fdtable::FdTables;
use crate::mem::fork_steps;
use crate::mem::fork_vmmap;
use crate::mem::ForkStep;
use crate::vmmap::Vmmap;
use crate::vmmap_model::lists_touching;
use crate::vmmap_model::no_pages;
use crate::vmmap_model::Region;
use vstd::prelude::*;

verus! {

/// What this library keeps of a cage besides its descriptors.
pub struct Cage {
    /// The id of the cage.
    pub cageid: u64,
    /// The id of the cage that this one was forked from.
    pub parent: u64,
    /// The page map of the cage.
    pub vmmap: Vmmap,
}

impl Cage {
    /// A cage with no page mapped.
    pub fn new(cageid: u64, parent: u64) -> (cage: Cage)
        ensures
            cage.cageid == cageid,
            cage.parent == parent,
            cage.vmmap.wf(),
            no_pages(cage.vmmap@),
    {
        Cage { cageid, parent, vmmap: Vmmap::new() }
    }

    /// Forks the cage: the child gets a copy of the descriptor table, each
    /// copied descriptor counted once more, and a page map with the same
    /// regions. Returns the child and the steps that give the child's memory
    /// the contents of this cage's.
    pub fn fork_syscall(&self, fdtables: &mut FdTables, child_cageid: u64) -> (forked: (
        Cage,
        Vec<ForkStep>,
    ))
        requires
            self.vmmap.wf(),
            old(fdtables).wf(),
            old(fdtables)@.has_cage(self.cageid),
            !old(fdtables)@.has_cage(child_cageid),
            old(fdtables)@.has_room_for_copy(self.cageid),
        ensures
            final(fdtables).wf(),
            final(fdtables)@ == old(fdtables)@.forked(self.cageid, child_cageid),
            forked.0.cageid == child_cageid,
            forked.0.parent == self.cageid,
            forked.0.vmmap.wf(),
            forked.0.vmmap@ == self.vmmap@,
            exists|regions: Seq<Region>|
                #![trigger lists_touching(self.vmmap@, 0, u32::MAX, regions)]
                lists_touching(self.vmmap@, 0, u32::MAX, regions) && forked.1@ == fork_steps(
                    regions,
                ),
    {
        let _ = copy_fdtable_for_cage(fdtables, self.cageid, child_cageid);
        let cageobj = Cage { cageid: child_cageid, parent: self.cageid, vmmap: self.vmmap.mirror() };
        let steps = fork_vmmap(&self.vmmap);
        (cageobj, steps)
    }

    /// Execs in the cage: the descriptors flagged close-on-exec are
    /// released, the others stay, and the page map starts anew with no page
    /// mapped.
    pub fn exec_syscall<I: Fn(i32), F: Fn(i32), U: Fn(i32)>(
        &mut self,
        fdtables: &mut FdTables,
        handlers: &CloseHandlers<I, F, U>,
    ) -> (events: Vec<CloseEvent>)
        requires
            old(fdtables).wf(),
            old(fdtables)@.has_cage(old(self).cageid),
            handlers.accepts_all(),
        ensures
            final(fdtables).wf(),
            final(fdtables)@ == old(fdtables)@.swept(
                old(self).cageid,
                FD_PER_PROCESS_MAX as nat,
                true,
            ),
            events@ == old(fdtables)@.sweep_events(
                old(self).cageid,
                FD_PER_PROCESS_MAX as nat,
                true,
            ),
            forall|position: int|
                0 <= position < events.len() ==> handlers.handled(events[position]),
            final(self).cageid == old(self).cageid,
            final(self).parent == old(self).parent,
            final(self).vmmap.wf(),
            no_pages(final(self).vmmap@),
    {
        let events = empty_fds_for_exec(fdtables, handlers, self.cageid);
        self.vmmap = Vmmap::new();
        events
    }

    /// Exits the cage: every descriptor is released, the descriptor table
    /// goes, and the page map goes with the cage. Returns `status` and the
    /// releases.
    pub fn exit_syscall<I: Fn(i32), F: Fn(i32), U: Fn(i32)>(
        self,
        fdtables: &mut FdTables,
        handlers: &CloseHandlers<I, F, U>,
        status: i32,
    ) -> (exited: (i32, Vec<CloseEvent>))
        requires
            old(fdtables).wf(),
            old(fdtables)@.has_cage(self.cageid),
            handlers.accepts_all(),
        ensures
            final(fdtables).wf(),
            final(fdtables)@ == old(fdtables)@.torn_down(self.cageid),
            !final(fdtables)@.has_cage(self.cageid),
            exited.0 == status,
            exited.1@ == old(fdtables)@.teardown_events(self.cageid),
            forall|position: int|
                0 <= position < exited.1.len() ==> handlers.handled(exited.1[position]),
    {
        let events = remove_cage_from_fdtable(fdtables, handlers, self.cageid);
        (status, events)
    }
}

/// The descriptor tables and the cages of a process.
pub struct CageTable {
    /// The descriptor tables of the live cages.
    pub fdtables: FdTables,
    /// The cages, each at the index of its id; `None` where the id is free.
    pub cages: Vec<Option<Cage>>,
}

impl CageTable {
    /// Whether the cage is live.
    pub open spec fn live(&self, cageid: u64) -> bool {
        cageid < self.cages@.len() && self.cages@[cageid as int] is Some
    }

    /// The live cage of that id.
    pub open spec fn cage(&self, cageid: u64) -> Cage
        recommends
            self.live(cageid),
    {
        self.cages@[cageid as int].unwrap()
    }

    /// The descriptor tables are well-formed, a cage has a descriptor table
    /// exactly if it is live, and every live cage sits at its id and has a
    /// well-formed page map.
    pub open spec fn wf(&self) -> bool {
        &&& self.fdtables.wf()
        &&& forall|cageid: u64|
            #![trigger self.fdtables@.has_cage(cageid)]
            #![trigger self.live(cageid)]
            self.fdtables@.has_cage(cageid) <==> self.live(cageid)
        &&& forall|cageid: u64| #[trigger]
            self.live(cageid) ==> self.cage(cageid).cageid == cageid && self.cage(
                cageid,
            ).vmmap.wf()
    }

    /// A table with room for the cage ids below `capacity`, none of them
    /// live.
    pub fn new(capacity: usize) -> (table: CageTable)
        ensures
            table.wf(),
            table.cages@.len() == capacity,
            forall|cageid: u64| !table.live(cageid),
            table.fdtables@.counts == Map::<i32, u64>::empty(),
    {
        let mut cages: Vec<Option<Cage>> = Vec::new();
        let mut index: usize = 0;
        while index < capacity
            invariant
                0 <= index <= capacity,
                cages@.len() == index,
                forall|position: int| 0 <= position < index ==> cages@[position] is None,
            decreases capacity - index,
        {
            cages.push(None);
            index = index + 1;
        }
        CageTable { fdtables: FdTables::new(), cages }
    }

    /// Whether the cage is live.
    pub fn is_live(&self, cageid: u64) -> (live: bool)
        ensures
            live == self.live(cageid),
    {
        cageid < self.cages.len() as u64 && self.cages[cageid as usize].is_some()
    }

    /// Makes a free cage id live, with no descriptor open and no page
    /// mapped.
    pub fn init_cage(&mut self, cageid: u64, parent: u64)
        requires
            old(self).wf(),
            cageid < old(self).cages@.len(),
            !old(self).live(cageid),
        ensures
            final(self).wf(),
            final(self).live(cageid),
            final(self).cage(cageid).parent == parent,
            no_pages(final(self).cage(cageid).vmmap@),
            final(self).fdtables@ == old(self).fdtables@.with_empty_cage(cageid),
            final(self).cages@ == old(self).cages@.update(
                cageid as int,
                final(self).cages@[cageid as int],
            ),
    {
        let capacity: usize = self.cages.len();
        init_empty_cage(&mut self.fdtables, cageid);
        let index: usize = cageid as usize;
        let cage = Cage::new(cageid, parent);
        self.cages[index] = Some(cage);
        proof {
            assert(index == cageid);
            assert(self.cages@ == old(self).cages@.update(cageid as int, Some(cage)));
            assert(self.fdtables@ == old(self).fdtables@.with_empty_cage(cageid));
            assert forall|other: u64|
                #![trigger self.fdtables@.has_cage(other)]
                #![trigger self.live(other)]
                self.fdtables@.has_cage(other) <==> self.live(other) by {
                assert(old(self).fdtables@.has_cage(other) <==> old(self).live(other));
            }
            assert forall|other: u64| #[trigger] self.live(other) implies self.cage(other).cageid
                == other && self.cage(other).vmmap.wf() by {
                if other != cageid {
                    assert(old(self).live(other));
                }
            }
        }
    }
}

/// Forks a live cage into a free cage id. Afterwards the child is live with
/// a copy of the parent's descriptor table and page map; the steps returned
/// give its memory the contents of the parent's.
pub fn lind_fork(table: &mut CageTable, parent_cageid: u64, child_cageid: u64) -> (steps: Vec<
    ForkStep,
>)
    requires
        old(table).wf(),
        old(table).live(parent_cageid),
        child_cageid < old(table).cages@.len(),
        !old(table).live(child_cageid),
        old(table).fdtables@.has_room_for_copy(parent_cageid),
    ensures
        final(table).wf(),
        final(table).live(child_cageid),
        final(table).fdtables@ == old(table).fdtables@.forked(parent_cageid, child_cageid),
        final(table).cage(child_cageid).parent == parent_cageid,
        final(table).cage(child_cageid).vmmap@ == old(table).cage(parent_cageid).vmmap@,
        final(table).cages@ == old(table).cages@.update(
            child_cageid as int,
            final(table).cages@[child_cageid as int],
        ),
        exists|regions: Seq<Region>|
            #![trigger lists_touching(old(table).cage(parent_cageid).vmmap@, 0, u32::MAX, regions)]
            lists_touching(old(table).cage(parent_cageid).vmmap@, 0, u32::MAX, regions) && steps@
                == fork_steps(regions),
{
    let capacity: usize = table.cages.len();
    let parent_index: usize = parent_cageid as usize;
    let child_index: usize = child_cageid as usize;
    let parent = table.cages[parent_index].take().unwrap();
    let (child, steps) = parent.fork_syscall(&mut table.fdtables, child_cageid);
    table.cages[parent_index] = Some(parent);
    table.cages[child_index] = Some(child);
    proof {
        assert(table.cages@ == old(table).cages@.update(child_cageid as int, Some(child)));
        assert forall|other: u64|
            #![trigger table.fdtables@.has_cage(other)]
            #![trigger table.live(other)]
            table.fdtables@.has_cage(other) <==> table.live(other) by {
            assert(old(table).fdtables@.has_cage(other) <==> old(table).live(other));
        }
        assert forall|other: u64| #[trigger] table.live(other) implies table.cage(other).cageid
            == other && table.cage(other).vmmap.wf() by {
            if other != child_cageid {
                assert(old(table).live(other));
            }
        }
        assert(table.cages@ =~= old(table).cages@.update(
            child_cageid as int,
            table.cages@[child_cageid as int],
        ));
    }
    steps
}

/// Execs in a live cage: its descriptors flagged close-on-exec are
/// released, and its page map starts anew with no page mapped.
pub fn lind_exec<I: Fn(i32), F: Fn(i32), U: Fn(i32)>(
    table: &mut CageTable,
    handlers: &CloseHandlers<I, F, U>,
    cageid: u64,
) -> (events: Vec<CloseEvent>)
    requires
        old(table).wf(),
        old(table).live(cageid),
        handlers.accepts_all(),
    ensures
        final(table).wf(),
        final(table).live(cageid),
        final(table).fdtables@ == old(table).fdtables@.swept(
            cageid,
            FD_PER_PROCESS_MAX as nat,
            true,
        ),
        events@ == old(table).fdtables@.sweep_events(cageid, FD_PER_PROCESS_MAX as nat, true),
        forall|position: int| 0 <= position < events.len() ==> handlers.handled(events[position]),
        final(table).cage(cageid).parent == old(table).cage(cageid).parent,
        no_pages(final(table).cage(cageid).vmmap@),
        final(table).cages@ == old(table).cages@.update(
            cageid as int,
            final(table).cages@[cageid as int],
        ),
{
    let capacity: usize = table.cages.len();
    let index: usize = cageid as usize;
    let mut cage = table.cages[index].take().unwrap();
    proof {
        crate::fd_model::lemma_swept(
            table.fdtables@,
            cageid,
            FD_PER_PROCESS_MAX as nat,
            true,
        );
    }
    let events = cage.exec_syscall(&mut table.fdtables, handlers);
    table.cages[index] = Some(cage);
    proof {
        assert(table.cages@ == old(table).cages@.update(cageid as int, Some(cage)));
        assert forall|other: u64|
            #![trigger table.fdtables@.has_cage(other)]
            #![trigger table.live(other)]
            table.fdtables@.has_cage(other) <==> table.live(other) by {
            assert(old(table).fdtables@.has_cage(other) <==> old(table).live(other));
        }
        assert forall|other: u64| #[trigger] table.live(other) implies table.cage(other).cageid
            == other && table.cage(other).vmmap.wf() by {
            if other != cageid {
                assert(old(table).live(other));
            }
        }
        assert(table.cages@ =~= old(table).cages@.update(
            cageid as int,
            table.cages@[cageid as int],
        ));
    }
    events
}

/// Exits a cage: its descriptors are released, and its descriptor table and
/// its page map go together. A cage that is not live is left as it is, so
/// that a second exit does no harm. Returns `status` and the releases.
pub fn lind_exit<I: Fn(i32), F: Fn(i32), U: Fn(i32)>(
    table: &mut CageTable,
    handlers: &CloseHandlers<I, F, U>,
    cageid: u64,
    status: i32,
) -> (exited: (i32, Vec<CloseEvent>))
    requires
        old(table).wf(),
        handlers.accepts_all(),
    ensures
        final(table).wf(),
        !final(table).live(cageid),
        final(table).fdtables@ == old(table).fdtables@.torn_down(cageid),
        exited.0 == status,
        exited.1@ == old(table).fdtables@.teardown_events(cageid),
        forall|position: int|
            0 <= position < exited.1.len() ==> handlers.handled(exited.1[position]),
        final(table).cages@.len() == old(table).cages@.len(),
        forall|other: u64|
            other != cageid ==> final(table).live(other) == old(table).live(other) && (old(
                table,
            ).live(other) ==> final(table).cages@[other as int] == old(table).cages@[other as int]),
{
    if cageid >= table.cages.len() as u64 {
        return (status, Vec::new());
    }
    let index: usize = cageid as usize;
    match table.cages[index].take() {
        Some(cage) => {
            proof {
                assert(old(table).live(cageid));
                assert(cage == old(table).cage(cageid));
                assert(old(table).fdtables@.has_cage(cageid));
            }
            let exited = cage.exit_syscall(&mut table.fdtables, handlers, status);
            proof {
                assert(table.cages@ == old(table).cages@.update(cageid as int, None));
                assert forall|other: u64|
                    #![trigger table.fdtables@.has_cage(other)]
                    #![trigger table.live(other)]
                    table.fdtables@.has_cage(other) <==> table.live(other) by {
                    assert(old(table).fdtables@.has_cage(other) <==> old(table).live(other));
                    crate::fd_model::lemma_swept(
                        old(table).fdtables@,
                        cageid,
                        FD_PER_PROCESS_MAX as nat,
                        false,
                    );
                }
                assert forall|other: u64| #[trigger] table.live(other) implies table.cage(
                    other,
                ).cageid == other && table.cage(other).vmmap.wf() by {
                    assert(old(table).live(other));
                }
            }
            exited
        },
        None => {
            proof {
                assert(table.cages@ =~= old(table).cages@);
                assert forall|other: u64|
                    #![trigger table.fdtables@.has_cage(other)]
                    #![trigger table.live(other)]
                    table.fdtables@.has_cage(other) <==> table.live(other) by {
                    assert(old(table).fdtables@.has_cage(other) <==> old(table).live(other));
                }
                assert forall|other: u64| #[trigger] table.live(other) implies table.cage(
                    other,
                ).cageid == other && table.cage(other).vmmap.wf() by {
                    assert(old(table).live(other));
                }
            }
            (status, Vec::new())
        },
    }
}

/// Shuts the process down: every live cage exits, in ascending order of
/// the ids. Afterwards no cage is live and no real descriptor has a
/// reference left.
pub fn lindrustfinalize<I: Fn(i32), F: Fn(i32), U: Fn(i32)>(
    table: &mut CageTable,
    handlers: &CloseHandlers<I, F, U>,
) -> (events: Vec<CloseEvent>)
    requires
        old(table).wf(),
        handlers.accepts_all(),
    ensures
        final(table).wf(),
        forall|cageid: u64| !final(table).live(cageid),
        final(table).fdtables@ == old(table).fdtables@.all_torn_down(old(table).cages@.len()),
        final(table).fdtables@.counts == Map::<i32, u64>::empty(),
        events@ == old(table).fdtables@.all_teardown_events(old(table).cages@.len()),
        forall|position: int| 0 <= position < events.len() ==> handlers.handled(events[position]),
{
    let mut events: Vec<CloseEvent> = Vec::new();
    let mut cageid: usize = 0;
    while cageid < table.cages.len()
        invariant
            0 <= cageid <= table.cages@.len(),
            table.cages@.len() == old(table).cages@.len(),
            table.wf(),
            handlers.accepts_all(),
            forall|gone: u64| gone < cageid ==> !table.live(gone),
            table.fdtables@ == old(table).fdtables@.all_torn_down(cageid as nat),
            events@ == old(table).fdtables@.all_teardown_events(cageid as nat),
            forall|position: int|
                0 <= position < events.len() ==> handlers.handled(events[position]),
        decreases table.cages@.len() - cageid,
    {
        let ghost before = *table;
        let (_, mut exited) = lind_exit(table, handlers, cageid as u64, 0);
        proof {
            assert forall|gone: u64| gone < cageid + 1 implies !table.live(gone) by {
                if gone != cageid {
                    assert(!before.live(gone));
                }
            }
        }
        events.append(&mut exited);
        cageid = cageid + 1;
    }
    proof {
        assert forall|cageid: u64| !table.fdtables@.has_cage(cageid) by {
            assert(!table.live(cageid));
        }
        lemma_no_cage_no_count(table.fdtables@);
    }
    events
}

} // verus!
