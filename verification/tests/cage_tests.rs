use rawposix::cage::lind_exec;
use rawposix::cage::lind_exit;
use rawposix::cage::lind_fork;
use rawposix::cage::lindrustfinalize;
use rawposix::cage::Cage;
use rawposix::cage::CageTable;
use rawposix::constants::MAP_PRIVATE;
use rawposix::constants::MAP_SHARED;
use rawposix::constants::NO_REAL_FD;
use rawposix::constants::PROT_READ;
use rawposix::constants::PROT_WRITE;
use rawposix::fd_model::CloseEvent;
use rawposix::fdtable::get_specific_virtual_fd;
use rawposix::fdtable::get_unused_virtual_fd;
use rawposix::fdtable::init_empty_cage;
use rawposix::fdtable::return_fdtable_copy;
use rawposix::fdtable::translate_virtual_fd;
use rawposix::fdtable::CloseHandlers;
use rawposix::fdtable::FdTables;
use rawposix::fdtable::NULL_FUNC;
use rawposix::mem::ForkStep;
use rawposix::vmmap_model::MemoryBackingType;
use std::cell::RefCell;

const RW: i32 = PROT_READ | PROT_WRITE;

fn table_with_init_cage() -> CageTable {
    let mut table = CageTable::new(8);
    table.init_cage(1, 1);
    for fd in 0..3 {
        get_specific_virtual_fd(&mut table.fdtables, 1, fd, fd, false, 0).unwrap();
    }
    table
}

fn map(table: &mut CageTable, cageid: usize, page_num: u32, npages: u32, flags: i32) {
    table.cages[cageid]
        .as_mut()
        .unwrap()
        .vmmap
        .add_entry_with_override(page_num, npages, RW, RW, flags, MemoryBackingType::Anonymous, 0, 0, cageid as u64)
        .unwrap();
}

#[test]
fn new_table_has_no_live_cage() {
    let table = CageTable::new(4);
    assert_eq!(table.cages.len(), 4);
    for cageid in 0..6 {
        assert!(!table.is_live(cageid));
        assert!(!table.fdtables.contains_cage(cageid));
    }
}

#[test]
fn init_cage_makes_both_halves() {
    let mut table = CageTable::new(4);
    table.init_cage(2, 0);
    assert!(table.is_live(2));
    assert!(table.fdtables.contains_cage(2));
    assert!(!table.is_live(1));
    let cage = table.cages[2].as_ref().unwrap();
    assert_eq!(cage.cageid, 2);
    assert_eq!(cage.parent, 0);
    assert!(cage.vmmap.double_ended_iter().is_empty());
    assert!(return_fdtable_copy(&table.fdtables, 2).is_empty());
}

#[test]
fn fork_gives_the_child_both_halves() {
    let mut table = table_with_init_cage();
    map(&mut table, 1, 5, 1, MAP_PRIVATE);
    map(&mut table, 1, 9, 2, MAP_SHARED);
    let steps = lind_fork(&mut table, 1, 4);
    assert_eq!(
        steps,
        vec![
            ForkStep::Copy { addr: 5 * 4096, len: 4096, prot: RW },
            ForkStep::Remap { addr: 9 * 4096, len: 8192 },
        ]
    );
    assert!(table.is_live(1));
    assert!(table.is_live(4));
    assert!(table.fdtables.contains_cage(4));
    let child = table.cages[4].as_ref().unwrap();
    let parent = table.cages[1].as_ref().unwrap();
    assert_eq!(child.cageid, 4);
    assert_eq!(child.parent, 1);
    assert_eq!(child.vmmap.double_ended_iter(), parent.vmmap.double_ended_iter());
    assert_eq!(return_fdtable_copy(&table.fdtables, 4), return_fdtable_copy(&table.fdtables, 1));
    for fd in 0..3 {
        assert_eq!(table.fdtables.realfd_count(fd), 2);
        assert_eq!(translate_virtual_fd(&table.fdtables, 4, fd), Ok(fd));
    }
}

#[test]
fn exec_drops_cloexec_descriptors_and_the_memory() {
    let mut table = table_with_init_cage();
    map(&mut table, 1, 5, 1, MAP_PRIVATE);
    assert_eq!(get_unused_virtual_fd(&mut table.fdtables, 1, 40, true, 0), Ok(3));
    assert_eq!(get_unused_virtual_fd(&mut table.fdtables, 1, NO_REAL_FD, true, 6), Ok(4));
    let handlers = CloseHandlers::new(NULL_FUNC, NULL_FUNC, NULL_FUNC);
    let events = lind_exec(&mut table, &handlers, 1);
    assert_eq!(events, vec![CloseEvent::Final(40), CloseEvent::Unreal(6)]);
    assert!(table.is_live(1));
    let cage = table.cages[1].as_ref().unwrap();
    assert_eq!(cage.cageid, 1);
    assert_eq!(cage.parent, 1);
    assert!(cage.vmmap.double_ended_iter().is_empty());
    let left = return_fdtable_copy(&table.fdtables, 1);
    assert_eq!(left.len(), 3);
    assert_eq!(table.fdtables.realfd_count(40), 0);
    assert_eq!(translate_virtual_fd(&table.fdtables, 1, 2), Ok(2));
}

#[test]
fn exit_takes_both_halves_and_a_second_exit_does_nothing() {
    let mut table = table_with_init_cage();
    lind_fork(&mut table, 1, 2);
    let calls = RefCell::new(Vec::new());
    let handlers = CloseHandlers::new(
        |realfd: i32| calls.borrow_mut().push(("intermediate", realfd)),
        |realfd: i32| calls.borrow_mut().push(("final", realfd)),
        |optionalinfo: i32| calls.borrow_mut().push(("unreal", optionalinfo)),
    );
    let (status, events) = lind_exit(&mut table, &handlers, 2, 3);
    assert_eq!(status, 3);
    assert_eq!(
        events,
        vec![CloseEvent::Intermediate(0), CloseEvent::Intermediate(1), CloseEvent::Intermediate(2)]
    );
    assert!(!table.is_live(2));
    assert!(!table.fdtables.contains_cage(2));
    assert!(table.is_live(1));
    let (status, events) = lind_exit(&mut table, &handlers, 2, 4);
    assert_eq!(status, 4);
    assert!(events.is_empty());
    let (status, events) = lind_exit(&mut table, &handlers, 700, 5);
    assert_eq!(status, 5);
    assert!(events.is_empty());
    assert_eq!(calls.borrow().len(), 3);
    let (_, events) = lind_exit(&mut table, &handlers, 1, 0);
    assert_eq!(events, vec![CloseEvent::Final(0), CloseEvent::Final(1), CloseEvent::Final(2)]);
    assert_eq!(calls.borrow().len(), 6);
}

#[test]
fn finalize_exits_every_cage_and_closes_every_descriptor_once() {
    let mut table = table_with_init_cage();
    lind_fork(&mut table, 1, 2);
    lind_fork(&mut table, 2, 5);
    assert_eq!(get_unused_virtual_fd(&mut table.fdtables, 5, 9, false, 0), Ok(3));
    let finals = RefCell::new(Vec::new());
    let handlers = CloseHandlers::new(NULL_FUNC, |realfd: i32| finals.borrow_mut().push(realfd), NULL_FUNC);
    let events = lindrustfinalize(&mut table, &handlers);
    assert_eq!(events.len(), 10);
    assert_eq!(*finals.borrow(), vec![0, 1, 2, 9]);
    for cageid in 0..8 {
        assert!(!table.is_live(cageid));
        assert!(!table.fdtables.contains_cage(cageid));
    }
    for realfd in [0, 1, 2, 9] {
        assert_eq!(table.fdtables.realfd_count(realfd), 0);
    }
    assert!(lindrustfinalize(&mut table, &handlers).is_empty());
}

#[test]
fn cage_methods_work_on_tables_of_their_own() {
    let mut fdtables = FdTables::new();
    init_empty_cage(&mut fdtables, 10);
    assert_eq!(get_unused_virtual_fd(&mut fdtables, 10, 3, true, 0), Ok(0));
    assert_eq!(get_unused_virtual_fd(&mut fdtables, 10, 4, false, 0), Ok(1));
    let parent = Cage::new(10, 10);
    let (mut child, steps) = parent.fork_syscall(&mut fdtables, 11);
    assert!(steps.is_empty());
    assert_eq!(child.cageid, 11);
    assert_eq!(child.parent, 10);
    assert_eq!(fdtables.realfd_count(3), 2);
    let handlers = CloseHandlers::new(NULL_FUNC, NULL_FUNC, NULL_FUNC);
    assert_eq!(child.exec_syscall(&mut fdtables, &handlers), vec![CloseEvent::Intermediate(3)]);
    assert_eq!(child.exit_syscall(&mut fdtables, &handlers, 9), (9, vec![CloseEvent::Intermediate(4)]));
    assert!(!fdtables.contains_cage(11));
    assert_eq!(
        parent.exit_syscall(&mut fdtables, &handlers, 0),
        (0, vec![CloseEvent::Final(3), CloseEvent::Final(4)])
    );
}
