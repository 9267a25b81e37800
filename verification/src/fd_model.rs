//! The mathematical model of the descriptor tables: the state as two maps,
//! the transitions that the operations make on it, and the lemmas that show
//! those transitions keep the reference counts exact.
use crate::constants::FD_PER_PROCESS_MAX;
use crate::constants::NO_REAL_FD;
use vstd::prelude::*;

verus! {

/// What one slot of a descriptor table holds for an open virtual descriptor.
#[derive(Clone, Copy, Debug, PartialEq, Eq, Structural)]
pub struct FDTableEntry {
    /// The descriptor underneath, or [`crate::constants::NO_REAL_FD`].
    pub realfd: i32,
    /// Whether the descriptor is released when the cage execs.
    pub should_cloexec: bool,
    /// Data of the caller's, never interpreted here.
    pub optionalinfo: i32,
}

/// What the release of one descriptor asks of the surrounding system.
#[derive(Clone, Copy, Debug, PartialEq, Eq, Structural)]
pub enum CloseEvent {
    /// A reference to the real descriptor went away and others remain.
    Intermediate(i32),
    /// The last reference to the real descriptor went away.
    Final(i32),
    /// An entry without a real descriptor went away; the value is its
    /// `optionalinfo`.
    Unreal(i32),
}

/// Whether a slot is occupied by an entry over `realfd`.
pub open spec fn slot_holds(slot: Option<FDTableEntry>, realfd: i32) -> bool {
    slot matches Some(entry) && entry.realfd == realfd
}

/// The number of slots in `slots` that hold `realfd`.
pub open spec fn refs_in_slots(slots: Seq<Option<FDTableEntry>>, realfd: i32) -> nat
    decreases slots.len(),
{
    if slots.len() == 0 {
        0
    } else {
        refs_in_slots(slots.drop_last(), realfd) + if slot_holds(slots.last(), realfd) {
            1nat
        } else {
            0nat
        }
    }
}

/// The number of cage ids there are.
pub open spec fn cage_id_count() -> nat {
    0x1_0000_0000_0000_0000
}

/// The number of slots that hold `realfd` in the tables of the cages whose
/// id is below `bound`.
pub open spec fn refs_below(
    tables: Map<u64, Seq<Option<FDTableEntry>>>,
    realfd: i32,
    bound: nat,
) -> nat
    decreases bound,
{
    if bound == 0 {
        0
    } else {
        let cageid = (bound - 1) as u64;
        refs_below(tables, realfd, (bound - 1) as nat) + if tables.contains_key(cageid) {
            refs_in_slots(tables[cageid], realfd)
        } else {
            0nat
        }
    }
}

/// The state of the descriptor tables: the slots of every live cage, and the
/// registry of reference counts.
pub struct FdState {
    /// Cage id to the slots of that cage.
    pub tables: Map<u64, Seq<Option<FDTableEntry>>>,
    /// Real descriptor to the number of references the registry records.
    pub counts: Map<i32, u64>,
}

impl FdState {
    /// Whether the cage has a table.
    pub open spec fn has_cage(self, cageid: u64) -> bool {
        self.tables.contains_key(cageid)
    }

    /// What the cage has under `virtualfd`; nothing where the number is not
    /// one of the table's.
    pub open spec fn slot(self, cageid: u64, virtualfd: int) -> Option<FDTableEntry> {
        if 0 <= virtualfd < self.tables[cageid].len() {
            self.tables[cageid][virtualfd]
        } else {
            None
        }
    }

    /// The count that the registry records for `realfd`.
    pub open spec fn refcount(self, realfd: i32) -> nat {
        if self.counts.contains_key(realfd) {
            self.counts[realfd] as nat
        } else {
            0
        }
    }

    /// The number of pairs of a live cage and a slot whose entry is over
    /// `realfd`.
    pub open spec fn holders(self, realfd: i32) -> nat {
        refs_below(self.tables, realfd, cage_id_count())
    }

    /// Every table has all its slots, the registry holds no zero and nothing
    /// for [`NO_REAL_FD`], and the count of every real descriptor is the
    /// number of entries over it.
    pub open spec fn wf(self) -> bool {
        &&& forall|cageid: u64| #[trigger]
            self.tables.contains_key(cageid) ==> self.tables[cageid].len() == FD_PER_PROCESS_MAX
        &&& forall|realfd: i32| #[trigger]
            self.counts.contains_key(realfd) ==> realfd != NO_REAL_FD && self.counts[realfd] > 0
        &&& forall|realfd: i32|
            #![trigger self.refcount(realfd)]
            #![trigger self.holders(realfd)]
            realfd != NO_REAL_FD ==> self.refcount(realfd) == self.holders(realfd)
    }

    /// The state with one slot of one cage replaced.
    pub open spec fn with_slot(
        self,
        cageid: u64,
        index: int,
        slot: Option<FDTableEntry>,
    ) -> FdState {
        FdState {
            tables: self.tables.insert(cageid, self.tables[cageid].update(index, slot)),
            counts: self.counts,
        }
    }

    /// The state with one more reference recorded for `realfd`; for
    /// [`NO_REAL_FD`] nothing is recorded.
    pub open spec fn retained(self, realfd: i32) -> FdState {
        if realfd == NO_REAL_FD {
            self
        } else {
            FdState {
                tables: self.tables,
                counts: self.counts.insert(realfd, (self.refcount(realfd) + 1) as u64),
            }
        }
    }

    /// The state with one reference fewer recorded for `realfd`; a count
    /// that reaches zero leaves the registry.
    pub open spec fn dropped(self, realfd: i32) -> FdState {
        if realfd == NO_REAL_FD {
            self
        } else if self.refcount(realfd) > 1 {
            FdState {
                tables: self.tables,
                counts: self.counts.insert(realfd, (self.refcount(realfd) - 1) as u64),
            }
        } else {
            FdState { tables: self.tables, counts: self.counts.remove(realfd) }
        }
    }

    /// The state after `entry` went into a slot.
    pub open spec fn installed(self, cageid: u64, index: int, entry: FDTableEntry) -> FdState {
        self.with_slot(cageid, index, Some(entry)).retained(entry.realfd)
    }

    /// The state after a slot was emptied; an empty slot leaves the state as
    /// it is.
    pub open spec fn released(self, cageid: u64, index: int) -> FdState {
        match self.tables[cageid][index] {
            Some(entry) => self.with_slot(cageid, index, None).dropped(entry.realfd),
            None => self,
        }
    }

    /// What emptying an occupied slot asks of the surrounding system.
    pub open spec fn release_event(self, cageid: u64, index: int) -> CloseEvent
        recommends
            self.tables[cageid][index] is Some,
    {
        let entry = self.tables[cageid][index].unwrap();
        if entry.realfd == NO_REAL_FD {
            CloseEvent::Unreal(entry.optionalinfo)
        } else if self.refcount(entry.realfd) > 1 {
            CloseEvent::Intermediate(entry.realfd)
        } else {
            CloseEvent::Final(entry.realfd)
        }
    }

    /// Whether a sweep over the cage's table empties the slot: every
    /// occupied slot, or only those flagged close-on-exec.
    pub open spec fn doomed(self, cageid: u64, index: int, only_cloexec: bool) -> bool {
        self.tables[cageid][index] matches Some(entry) && (!only_cloexec || entry.should_cloexec)
    }

    /// The state after a sweep has passed the slots below `upto`, in
    /// ascending order.
    pub open spec fn swept(self, cageid: u64, upto: nat, only_cloexec: bool) -> FdState
        decreases upto,
    {
        if upto == 0 {
            self
        } else {
            let before = self.swept(cageid, (upto - 1) as nat, only_cloexec);
            if before.doomed(cageid, upto - 1, only_cloexec) {
                before.released(cageid, upto - 1)
            } else {
                before
            }
        }
    }

    /// The events of a sweep over the slots below `upto`, in the order in
    /// which the slots are emptied.
    pub open spec fn sweep_events(self, cageid: u64, upto: nat, only_cloexec: bool) -> Seq<
        CloseEvent,
    >
        decreases upto,
    {
        if upto == 0 {
            Seq::empty()
        } else {
            let before = self.swept(cageid, (upto - 1) as nat, only_cloexec);
            let events = self.sweep_events(cageid, (upto - 1) as nat, only_cloexec);
            if before.doomed(cageid, upto - 1, only_cloexec) {
                events.push(before.release_event(cageid, upto - 1))
            } else {
                events
            }
        }
    }

    /// The slots of a cage after a whole sweep: the doomed ones empty, the
    /// others as they were.
    pub open spec fn swept_slots(self, cageid: u64, upto: nat, only_cloexec: bool) -> Seq<
        Option<FDTableEntry>,
    > {
        Seq::new(
            self.tables[cageid].len(),
            |index: int|
                if index < upto && self.doomed(cageid, index, only_cloexec) {
                    None
                } else {
                    self.tables[cageid][index]
                },
        )
    }

    /// The registry after the entries in the first `upto` slots of a cage's
    /// table were each counted once more.
    pub open spec fn fork_counts(self, srccageid: u64, upto: int) -> Map<i32, u64> {
        Map::new(
            |realfd: i32|
                self.counts.contains_key(realfd) || (realfd != NO_REAL_FD && refs_in_slots(
                    self.tables[srccageid].take(upto),
                    realfd,
                ) > 0),
            |realfd: i32|
                (self.refcount(realfd) + refs_in_slots(
                    self.tables[srccageid].take(upto),
                    realfd,
                )) as u64,
        )
    }

    /// The state with a new cage whose table is a copy of another's, each
    /// copied entry counted as one more reference.
    pub open spec fn forked(self, srccageid: u64, newcageid: u64) -> FdState {
        FdState {
            tables: self.tables.insert(newcageid, self.tables[srccageid]),
            counts: self.fork_counts(srccageid, self.tables[srccageid].len() as int),
        }
    }

    /// The state with the cage's table gone.
    pub open spec fn without_cage(self, cageid: u64) -> FdState {
        FdState { tables: self.tables.remove(cageid), counts: self.counts }
    }

    /// What the slot holds, if it is a real descriptor, can take as many
    /// more references as a table has slots.
    pub open spec fn slot_has_room(self, slot: Option<FDTableEntry>) -> bool {
        match slot {
            Some(entry) => entry.realfd != NO_REAL_FD ==> self.refcount(entry.realfd)
                + FD_PER_PROCESS_MAX <= u64::MAX,
            None => true,
        }
    }

    /// Every real descriptor that the cage holds can take as many more
    /// references as a table has slots.
    pub open spec fn has_room_for_copy(self, cageid: u64) -> bool {
        forall|index: int|
            0 <= index < FD_PER_PROCESS_MAX ==> self.slot_has_room(
                #[trigger] self.tables[cageid][index],
            )
    }

    /// The state with an empty table for a new cage.
    pub open spec fn with_empty_cage(self, cageid: u64) -> FdState {
        FdState {
            tables: self.tables.insert(
                cageid,
                Seq::new(FD_PER_PROCESS_MAX as nat, |index: int| None::<FDTableEntry>),
            ),
            counts: self.counts,
        }
    }
}

/// Replacing one slot changes the number of references by what the slot held
/// and what it holds now.
pub proof fn lemma_refs_update(
    slots: Seq<Option<FDTableEntry>>,
    index: int,
    slot: Option<FDTableEntry>,
    realfd: i32,
)
    requires
        0 <= index < slots.len(),
    ensures
        refs_in_slots(slots.update(index, slot), realfd) + (if slot_holds(slots[index], realfd) {
            1nat
        } else {
            0nat
        }) == refs_in_slots(slots, realfd) + (if slot_holds(slot, realfd) {
            1nat
        } else {
            0nat
        }),
    decreases slots.len(),
{
    let updated = slots.update(index, slot);
    if index == slots.len() - 1 {
        assert(updated.drop_last() =~= slots.drop_last());
    } else {
        lemma_refs_update(slots.drop_last(), index, slot, realfd);
        assert(updated.drop_last() =~= slots.drop_last().update(index, slot));
    }
}

/// No more slots hold a descriptor than there are slots.
pub proof fn lemma_refs_bounded(slots: Seq<Option<FDTableEntry>>, realfd: i32)
    ensures
        refs_in_slots(slots, realfd) <= slots.len(),
    decreases slots.len(),
{
    if slots.len() > 0 {
        lemma_refs_bounded(slots.drop_last(), realfd);
    }
}

/// Slots that are all empty hold no reference.
pub proof fn lemma_refs_none(slots: Seq<Option<FDTableEntry>>, realfd: i32)
    requires
        forall|index: int| 0 <= index < slots.len() ==> !slot_holds(#[trigger] slots[index], realfd),
    ensures
        refs_in_slots(slots, realfd) == 0,
    decreases slots.len(),
{
    if slots.len() > 0 {
        assert(forall|index: int|
            0 <= index < slots.drop_last().len() ==> slots.drop_last()[index] == slots[index]);
        lemma_refs_none(slots.drop_last(), realfd);
    }
}

/// One more slot in the prefix counts for one more reference where it holds
/// the descriptor.
pub proof fn lemma_refs_take_next(slots: Seq<Option<FDTableEntry>>, upto: int, realfd: i32)
    requires
        0 <= upto < slots.len(),
    ensures
        refs_in_slots(slots.take(upto + 1), realfd) == refs_in_slots(slots.take(upto), realfd) + (
        if slot_holds(slots[upto], realfd) {
            1nat
        } else {
            0nat
        }),
{
    assert(slots.take(upto + 1).drop_last() =~= slots.take(upto));
}

/// Putting a table under a cage id changes the number of references by what
/// the id's table held before and what it holds now.
pub proof fn lemma_refs_below_insert(
    tables: Map<u64, Seq<Option<FDTableEntry>>>,
    cageid: u64,
    slots: Seq<Option<FDTableEntry>>,
    realfd: i32,
    bound: nat,
)
    requires
        bound <= cage_id_count(),
    ensures
        refs_below(tables.insert(cageid, slots), realfd, bound) + (if cageid < bound
            && tables.contains_key(cageid) {
            refs_in_slots(tables[cageid], realfd)
        } else {
            0nat
        }) == refs_below(tables, realfd, bound) + (if cageid < bound {
            refs_in_slots(slots, realfd)
        } else {
            0nat
        }),
    decreases bound,
{
    if bound > 0 {
        lemma_refs_below_insert(tables, cageid, slots, realfd, (bound - 1) as nat);
    }
}

/// Taking a cage id's table away takes away the references it held.
pub proof fn lemma_refs_below_remove(
    tables: Map<u64, Seq<Option<FDTableEntry>>>,
    cageid: u64,
    realfd: i32,
    bound: nat,
)
    requires
        bound <= cage_id_count(),
    ensures
        refs_below(tables.remove(cageid), realfd, bound) + (if cageid < bound
            && tables.contains_key(cageid) {
            refs_in_slots(tables[cageid], realfd)
        } else {
            0nat
        }) == refs_below(tables, realfd, bound),
    decreases bound,
{
    if bound > 0 {
        lemma_refs_below_remove(tables, cageid, realfd, (bound - 1) as nat);
    }
}

/// A prefix of the slots holds no more references than all of them.
pub proof fn lemma_refs_take_le(slots: Seq<Option<FDTableEntry>>, upto: int, realfd: i32)
    requires
        0 <= upto <= slots.len(),
    ensures
        refs_in_slots(slots.take(upto), realfd) <= refs_in_slots(slots, realfd),
    decreases slots.len() - upto,
{
    if upto < slots.len() {
        lemma_refs_take_next(slots, upto, realfd);
        lemma_refs_take_le(slots, upto + 1, realfd);
    } else {
        assert(slots.take(upto) =~= slots);
    }
}

/// Where no cage has a table, nothing holds a descriptor.
pub proof fn lemma_refs_below_empty(
    tables: Map<u64, Seq<Option<FDTableEntry>>>,
    realfd: i32,
    bound: nat,
)
    requires
        forall|cageid: u64| !tables.contains_key(cageid),
    ensures
        refs_below(tables, realfd, bound) == 0,
    decreases bound,
{
    if bound > 0 {
        lemma_refs_below_empty(tables, realfd, (bound - 1) as nat);
    }
}

/// Replacing an entry by one over the same descriptor keeps the counts exact.
pub proof fn lemma_with_slot_same_realfd_wf(
    state: FdState,
    cageid: u64,
    index: int,
    entry: FDTableEntry,
)
    requires
        state.wf(),
        state.has_cage(cageid),
        0 <= index < FD_PER_PROCESS_MAX,
        state.tables[cageid][index] matches Some(before) && before.realfd == entry.realfd,
    ensures
        state.with_slot(cageid, index, Some(entry)).wf(),
{
    let after = state.with_slot(cageid, index, Some(entry));
    assert forall|realfd: i32| realfd != NO_REAL_FD implies #[trigger] after.refcount(realfd)
        == after.holders(realfd) by {
        lemma_refs_update(state.tables[cageid], index, Some(entry), realfd);
        lemma_refs_below_insert(
            state.tables,
            cageid,
            state.tables[cageid].update(index, Some(entry)),
            realfd,
            cage_id_count(),
        );
        assert(state.refcount(realfd) == state.holders(realfd));
    }
}

/// An entry that goes into an empty slot keeps the counts exact.
pub proof fn lemma_installed_wf(state: FdState, cageid: u64, index: int, entry: FDTableEntry)
    requires
        state.wf(),
        state.has_cage(cageid),
        0 <= index < FD_PER_PROCESS_MAX,
        state.tables[cageid][index] is None,
        entry.realfd != NO_REAL_FD ==> state.refcount(entry.realfd) < u64::MAX,
    ensures
        state.installed(cageid, index, entry).wf(),
        forall|realfd: i32|
            #![trigger state.installed(cageid, index, entry).holders(realfd)]
            state.installed(cageid, index, entry).holders(realfd) == state.holders(realfd) + (
            if realfd == entry.realfd {
                1nat
            } else {
                0nat
            }),
        forall|realfd: i32|
            #![trigger state.installed(cageid, index, entry).refcount(realfd)]
            state.installed(cageid, index, entry).refcount(realfd) == state.refcount(realfd) + (
            if realfd == entry.realfd && realfd != NO_REAL_FD {
                1nat
            } else {
                0nat
            }),
{
    let after = state.installed(cageid, index, entry);
    assert forall|realfd: i32|
        #![trigger after.holders(realfd)]
        after.holders(realfd) == state.holders(realfd) + (if realfd == entry.realfd {
            1nat
        } else {
            0nat
        }) by {
        lemma_refs_update(state.tables[cageid], index, Some(entry), realfd);
        lemma_refs_below_insert(
            state.tables,
            cageid,
            state.tables[cageid].update(index, Some(entry)),
            realfd,
            cage_id_count(),
        );
    }
    assert forall|realfd: i32| realfd != NO_REAL_FD implies #[trigger] after.refcount(realfd)
        == after.holders(realfd) by {
        assert(state.refcount(realfd) == state.holders(realfd));
    }
}

/// Emptying an occupied slot keeps the counts exact, and the entry's
/// descriptor had a count to give up.
pub proof fn lemma_released_wf(state: FdState, cageid: u64, index: int)
    requires
        state.wf(),
        state.has_cage(cageid),
        0 <= index < FD_PER_PROCESS_MAX,
        state.tables[cageid][index] is Some,
    ensures
        state.released(cageid, index).wf(),
        state.released(cageid, index).tables == state.tables.insert(
            cageid,
            state.tables[cageid].update(index, None),
        ),
        state.tables[cageid][index].unwrap().realfd != NO_REAL_FD ==> state.counts.contains_key(
            state.tables[cageid][index].unwrap().realfd,
        ),
        forall|realfd: i32|
            #![trigger state.released(cageid, index).holders(realfd)]
            state.released(cageid, index).holders(realfd) + (if realfd
                == state.tables[cageid][index].unwrap().realfd {
                1nat
            } else {
                0nat
            }) == state.holders(realfd),
{
    let entry = state.tables[cageid][index].unwrap();
    let after = state.released(cageid, index);
    assert forall|realfd: i32|
        #![trigger after.holders(realfd)]
        after.holders(realfd) + (if realfd == entry.realfd {
            1nat
        } else {
            0nat
        }) == state.holders(realfd) by {
        lemma_refs_update(state.tables[cageid], index, None, realfd);
        lemma_refs_below_insert(
            state.tables,
            cageid,
            state.tables[cageid].update(index, None),
            realfd,
            cage_id_count(),
        );
    }
    if entry.realfd != NO_REAL_FD {
        assert(after.holders(entry.realfd) + 1 == state.holders(entry.realfd));
        assert(state.refcount(entry.realfd) == state.holders(entry.realfd));
    }
    assert forall|realfd: i32| realfd != NO_REAL_FD implies #[trigger] after.refcount(realfd)
        == after.holders(realfd) by {
        assert(state.refcount(realfd) == state.holders(realfd));
        assert(after.holders(realfd) + (if realfd == entry.realfd {
            1nat
        } else {
            0nat
        }) == state.holders(realfd));
    }
}

/// A sweep keeps the counts exact, leaves every other cage alone and
/// empties exactly the doomed slots it has passed.
pub proof fn lemma_swept(state: FdState, cageid: u64, upto: nat, only_cloexec: bool)
    requires
        state.wf(),
        state.has_cage(cageid),
        upto <= FD_PER_PROCESS_MAX,
    ensures
        state.swept(cageid, upto, only_cloexec).wf(),
        state.swept(cageid, upto, only_cloexec).tables == state.tables.insert(
            cageid,
            state.swept_slots(cageid, upto, only_cloexec),
        ),
    decreases upto,
{
    let after = state.swept(cageid, upto, only_cloexec);
    if upto == 0 {
        assert(state.swept_slots(cageid, upto, only_cloexec) =~= state.tables[cageid]);
        assert(state.tables.insert(cageid, state.tables[cageid]) =~= state.tables);
    } else {
        let before = state.swept(cageid, (upto - 1) as nat, only_cloexec);
        lemma_swept(state, cageid, (upto - 1) as nat, only_cloexec);
        let slots_before = state.swept_slots(cageid, (upto - 1) as nat, only_cloexec);
        assert(before.tables[cageid] == slots_before);
        assert(slots_before[upto - 1] == state.tables[cageid][upto - 1]);
        if before.doomed(cageid, upto - 1, only_cloexec) {
            lemma_released_wf(before, cageid, upto - 1);
            assert(slots_before.update(upto - 1, None) =~= state.swept_slots(
                cageid,
                upto,
                only_cloexec,
            ));
            assert(after.tables =~= state.tables.insert(
                cageid,
                state.swept_slots(cageid, upto, only_cloexec),
            ));
        } else {
            assert(slots_before =~= state.swept_slots(cageid, upto, only_cloexec));
        }
    }
}

/// A table that is taken away with every slot empty leaves the counts exact.
pub proof fn lemma_without_cage_wf(state: FdState, cageid: u64)
    requires
        state.wf(),
        state.has_cage(cageid),
        forall|index: int|
            0 <= index < FD_PER_PROCESS_MAX ==> #[trigger] state.tables[cageid][index] is None,
    ensures
        state.without_cage(cageid).wf(),
{
    let after = state.without_cage(cageid);
    assert forall|realfd: i32| realfd != NO_REAL_FD implies #[trigger] after.refcount(realfd)
        == after.holders(realfd) by {
        lemma_refs_none(state.tables[cageid], realfd);
        lemma_refs_below_remove(state.tables, cageid, realfd, cage_id_count());
        assert(state.refcount(realfd) == state.holders(realfd));
    }
}

/// A new cage with an empty table leaves the counts exact.
pub proof fn lemma_with_empty_cage_wf(state: FdState, cageid: u64)
    requires
        state.wf(),
        !state.has_cage(cageid),
    ensures
        state.with_empty_cage(cageid).wf(),
{
    let after = state.with_empty_cage(cageid);
    assert forall|realfd: i32| realfd != NO_REAL_FD implies #[trigger] after.refcount(realfd)
        == after.holders(realfd) by {
        lemma_refs_none(after.tables[cageid], realfd);
        lemma_refs_below_insert(
            state.tables,
            cageid,
            after.tables[cageid],
            realfd,
            cage_id_count(),
        );
        assert(state.refcount(realfd) == state.holders(realfd));
    }
}

/// Where every real descriptor of a table can take as many more references
/// as the table has slots, a copy of the table overflows no count.
pub proof fn lemma_room_for_copy(state: FdState, cageid: u64)
    requires
        state.wf(),
        state.has_cage(cageid),
        state.has_room_for_copy(cageid),
    ensures
        forall|realfd: i32|
            realfd != NO_REAL_FD ==> state.refcount(realfd) + #[trigger] refs_in_slots(
                state.tables[cageid],
                realfd,
            ) <= u64::MAX,
{
    let slots = state.tables[cageid];
    assert forall|realfd: i32| realfd != NO_REAL_FD implies state.refcount(realfd)
        + #[trigger] refs_in_slots(slots, realfd) <= u64::MAX by {
        lemma_refs_bounded(slots, realfd);
        if refs_in_slots(slots, realfd) > 0 {
            if forall|index: int| 0 <= index < slots.len() ==> !slot_holds(#[trigger] slots[index], realfd) {
                lemma_refs_none(slots, realfd);
            }
            let index = choose|index: int|
                0 <= index < slots.len() && slot_holds(#[trigger] slots[index], realfd);
            assert(state.slot_has_room(slots[index]));
        }
    }
}

/// A copied table, with every copied entry counted once more, leaves the
/// counts exact.
pub proof fn lemma_forked_wf(state: FdState, srccageid: u64, newcageid: u64)
    requires
        state.wf(),
        state.has_cage(srccageid),
        !state.has_cage(newcageid),
        forall|realfd: i32|
            realfd != NO_REAL_FD ==> state.refcount(realfd) + #[trigger] refs_in_slots(
                state.tables[srccageid],
                realfd,
            ) <= u64::MAX,
    ensures
        state.forked(srccageid, newcageid).wf(),
        forall|realfd: i32|
            #![trigger state.forked(srccageid, newcageid).refcount(realfd)]
            realfd != NO_REAL_FD ==> state.forked(srccageid, newcageid).refcount(realfd)
                == state.refcount(realfd) + refs_in_slots(state.tables[srccageid], realfd),
        !state.forked(srccageid, newcageid).counts.contains_key(NO_REAL_FD),
{
    let after = state.forked(srccageid, newcageid);
    assert(state.tables[srccageid].take(state.tables[srccageid].len() as int)
        =~= state.tables[srccageid]);
    assert forall|realfd: i32| realfd != NO_REAL_FD implies #[trigger] after.refcount(realfd)
        == after.holders(realfd) by {
        lemma_refs_below_insert(
            state.tables,
            newcageid,
            state.tables[srccageid],
            realfd,
            cage_id_count(),
        );
        assert(state.refcount(realfd) == state.holders(realfd));
        assert(state.refcount(realfd) + refs_in_slots(state.tables[srccageid], realfd)
            <= u64::MAX);
    }
    assert forall|realfd: i32| #[trigger] after.counts.contains_key(realfd) implies realfd
        != NO_REAL_FD && after.counts[realfd] > 0 by {
        assert(state.refcount(realfd) + refs_in_slots(state.tables[srccageid], realfd)
            <= u64::MAX);
    }
}

impl FdState {
    /// The state after the cage released every descriptor and lost its
    /// table; a cage without a table leaves the state as it is.
    pub open spec fn torn_down(self, cageid: u64) -> FdState {
        if self.has_cage(cageid) {
            self.swept(cageid, FD_PER_PROCESS_MAX as nat, false).without_cage(cageid)
        } else {
            self
        }
    }

    /// The events of tearing the cage down.
    pub open spec fn teardown_events(self, cageid: u64) -> Seq<CloseEvent> {
        if self.has_cage(cageid) {
            self.sweep_events(cageid, FD_PER_PROCESS_MAX as nat, false)
        } else {
            Seq::empty()
        }
    }

    /// The state after the cages with an id below `bound` were torn down,
    /// in ascending order.
    pub open spec fn all_torn_down(self, bound: nat) -> FdState
        decreases bound,
    {
        if bound == 0 {
            self
        } else {
            self.all_torn_down((bound - 1) as nat).torn_down((bound - 1) as u64)
        }
    }

    /// The events of tearing down the cages with an id below `bound`, in
    /// ascending order.
    pub open spec fn all_teardown_events(self, bound: nat) -> Seq<CloseEvent>
        decreases bound,
    {
        if bound == 0 {
            Seq::empty()
        } else {
            self.all_teardown_events((bound - 1) as nat) + self.all_torn_down(
                (bound - 1) as nat,
            ).teardown_events((bound - 1) as u64)
        }
    }
}

/// Where no cage has a table, the registry is empty.
pub proof fn lemma_no_cage_no_count(state: FdState)
    requires
        state.wf(),
        forall|cageid: u64| !state.has_cage(cageid),
    ensures
        state.counts == Map::<i32, u64>::empty(),
{
    assert forall|cageid: u64| !state.tables.contains_key(cageid) by {
        assert(!state.has_cage(cageid));
    }
    assert forall|realfd: i32| !state.counts.contains_key(realfd) by {
        if state.counts.contains_key(realfd) {
            lemma_refs_below_empty(state.tables, realfd, cage_id_count());
            assert(state.refcount(realfd) == state.holders(realfd));
        }
    }
    assert(state.counts =~= Map::<i32, u64>::empty());
}

impl FdState {
    /// The state after the slots of a list were emptied one after another.
    pub open spec fn released_each(self, slots: Seq<(u64, int)>) -> FdState
        decreases slots.len(),
    {
        if slots.len() == 0 {
            self
        } else {
            self.released_each(slots.drop_last()).released(slots.last().0, slots.last().1)
        }
    }

    /// The events of emptying the slots of a list one after another.
    pub open spec fn release_events(self, slots: Seq<(u64, int)>) -> Seq<CloseEvent>
        decreases slots.len(),
    {
        if slots.len() == 0 {
            Seq::empty()
        } else {
            self.release_events(slots.drop_last()).push(
                self.released_each(slots.drop_last()).release_event(
                    slots.last().0,
                    slots.last().1,
                ),
            )
        }
    }
}

/// The count that the registry holds for a real descriptor is the number of
/// pairs of a live cage and a slot whose entry is over that descriptor. Every
/// operation of [`crate::fdtable`] keeps the state well-formed, so this holds
/// after any sequence of them.
pub proof fn lemma_count_is_number_of_entries(state: FdState, realfd: i32)
    requires
        state.wf(),
        realfd != NO_REAL_FD,
    ensures
        state.refcount(realfd) == state.holders(realfd),
        state.counts.contains_key(realfd) <==> state.holders(realfd) > 0,
{
}

/// An entry that went into a slot is what the cage has under that number,
/// and its real descriptor is what the number stands for.
pub proof fn lemma_installed_is_found(
    state: FdState,
    cageid: u64,
    virtualfd: int,
    entry: FDTableEntry,
)
    requires
        state.wf(),
        state.has_cage(cageid),
        0 <= virtualfd < FD_PER_PROCESS_MAX,
    ensures
        state.installed(cageid, virtualfd, entry).slot(cageid, virtualfd) == Some(entry),
        state.installed(cageid, virtualfd, entry).has_cage(cageid),
{
}

/// What a cage has under a virtual descriptor is not touched by what
/// happens to another slot, of the same cage or of another: an entry going
/// in, an entry going out, an entry being replaced.
pub proof fn lemma_slot_is_stable(
    state: FdState,
    cageid: u64,
    virtualfd: int,
    other_cage: u64,
    other_index: int,
    entry: FDTableEntry,
)
    requires
        state.wf(),
        state.has_cage(cageid),
        state.has_cage(other_cage),
        0 <= other_index < FD_PER_PROCESS_MAX,
        other_cage != cageid || other_index != virtualfd,
    ensures
        state.installed(other_cage, other_index, entry).slot(cageid, virtualfd) == state.slot(
            cageid,
            virtualfd,
        ),
        state.released(other_cage, other_index).slot(cageid, virtualfd) == state.slot(
            cageid,
            virtualfd,
        ),
        state.with_slot(other_cage, other_index, Some(entry)).slot(cageid, virtualfd)
            == state.slot(cageid, virtualfd),
{
}

/// What a cage has under a virtual descriptor is not touched by what
/// happens to another cage: a sweep over it, its teardown, a fork into it or
/// its creation. A sweep for exec over the cage itself leaves the descriptor
/// alone unless it is flagged close-on-exec.
pub proof fn lemma_slot_outlives_other_cages(
    state: FdState,
    cageid: u64,
    virtualfd: int,
    other_cage: u64,
    only_cloexec: bool,
)
    requires
        state.wf(),
        state.has_cage(cageid),
        other_cage != cageid,
    ensures
        state.has_cage(other_cage) ==> state.swept(
            other_cage,
            FD_PER_PROCESS_MAX as nat,
            only_cloexec,
        ).slot(cageid, virtualfd) == state.slot(cageid, virtualfd),
        state.torn_down(other_cage).slot(cageid, virtualfd) == state.slot(cageid, virtualfd),
        state.forked(cageid, other_cage).slot(cageid, virtualfd) == state.slot(cageid, virtualfd),
        state.with_empty_cage(other_cage).slot(cageid, virtualfd) == state.slot(cageid, virtualfd),
        state.swept(cageid, FD_PER_PROCESS_MAX as nat, true).slot(cageid, virtualfd) == (
        if state.slot(cageid, virtualfd) matches Some(entry) && entry.should_cloexec {
            None
        } else {
            state.slot(cageid, virtualfd)
        }),
{
    if state.has_cage(other_cage) {
        lemma_swept(state, other_cage, FD_PER_PROCESS_MAX as nat, only_cloexec);
        lemma_swept(state, other_cage, FD_PER_PROCESS_MAX as nat, false);
    }
    lemma_swept(state, cageid, FD_PER_PROCESS_MAX as nat, true);
}

/// However the holders of a real descriptor release it, one after another
/// in any order, each release but the one that leaves no holder behind is an
/// intermediate one, and that one is final: where all holders release, the
/// final event comes once, and last.
pub proof fn lemma_one_final_close(state: FdState, realfd: i32, slots: Seq<(u64, int)>)
    requires
        state.wf(),
        realfd != NO_REAL_FD,
        forall|position: int|
            0 <= position < slots.len() ==> {
                &&& state.has_cage((#[trigger] slots[position]).0)
                &&& 0 <= slots[position].1 < FD_PER_PROCESS_MAX
                &&& slot_holds(state.tables[slots[position].0][slots[position].1], realfd)
            },
        forall|position: int, later: int|
            0 <= position < later < slots.len() ==> slots[position] != slots[later],
    ensures
        state.released_each(slots).wf(),
        state.released_each(slots).holders(realfd) + slots.len() == state.holders(realfd),
        state.released_each(slots).refcount(realfd) + slots.len() == state.refcount(realfd),
        state.release_events(slots).len() == slots.len(),
        forall|position: int|
            0 <= position < slots.len() ==> #[trigger] state.release_events(slots)[position] == (
            if state.holders(realfd) - position == 1 {
                CloseEvent::Final(realfd)
            } else {
                CloseEvent::Intermediate(realfd)
            }),
        forall|cageid: u64|
            state.released_each(slots).has_cage(cageid) == state.has_cage(cageid),
        forall|cageid: u64, index: int|
            #![trigger state.released_each(slots).tables[cageid][index]]
            state.has_cage(cageid) && 0 <= index < FD_PER_PROCESS_MAX ==> state.released_each(
                slots,
            ).tables[cageid][index] == (if slots.contains((cageid, index)) {
                None
            } else {
                state.tables[cageid][index]
            }),
    decreases slots.len(),
{
    if slots.len() > 0 {
        let earlier = slots.drop_last();
        let before = state.released_each(earlier);
        let last = slots.last();
        lemma_one_final_close(state, realfd, earlier);
        assert(!earlier.contains(last)) by {
            if earlier.contains(last) {
                let position = choose|position: int|
                    0 <= position < earlier.len() && earlier[position] == last;
                assert(slots[position] != slots[slots.len() - 1]);
            }
        }
        assert(state.has_cage(last.0));
        assert(before.tables[last.0][last.1] == state.tables[last.0][last.1]);
        lemma_released_wf(before, last.0, last.1);
        let after = state.released_each(slots);
        assert(after == before.released(last.0, last.1));
        assert(after.holders(realfd) + 1 == before.holders(realfd));
        assert(before.refcount(realfd) == before.holders(realfd));
        assert(after.refcount(realfd) == after.holders(realfd));
        assert(state.refcount(realfd) == state.holders(realfd));
        assert forall|cageid: u64, index: int|
            #![trigger after.tables[cageid][index]]
            state.has_cage(cageid) && 0 <= index < FD_PER_PROCESS_MAX implies after.tables[cageid][index]
            == (if slots.contains((cageid, index)) {
            None
        } else {
            state.tables[cageid][index]
        }) by {
            assert(before.has_cage(cageid));
            if (cageid, index) == last {
                assert(slots[slots.len() - 1] == (cageid, index));
            } else {
                assert(after.tables[cageid][index] == before.tables[cageid][index]);
                if slots.contains((cageid, index)) {
                    let position = choose|position: int|
                        0 <= position < slots.len() && slots[position] == (cageid, index);
                    assert(earlier[position] == (cageid, index));
                }
                if earlier.contains((cageid, index)) {
                    let position = choose|position: int|
                        0 <= position < earlier.len() && earlier[position] == (cageid, index);
                    assert(slots[position] == (cageid, index));
                }
            }
        }
        assert forall|position: int| 0 <= position < slots.len() implies #[trigger] state.release_events(
            slots,
        )[position] == (if state.holders(realfd) - position == 1 {
            CloseEvent::Final(realfd)
        } else {
            CloseEvent::Intermediate(realfd)
        }) by {
            if position < slots.len() - 1 {
                assert(state.release_events(slots)[position] == state.release_events(
                    earlier,
                )[position]);
            }
        }
    }
}

} // verus!
