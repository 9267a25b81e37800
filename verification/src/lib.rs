//! Resource virtualisation for cages: isolated, process-like execution
//! contexts that share one host process.
//!
//! Every cage has its own numbering of file descriptors and its own page map.
//! [`fdtable`] maps virtual descriptors to real ones and counts the
//! references held on every real descriptor; [`vmmap`] tracks which pages of a
//! cage are mapped and how; [`mem`] holds the policy of `mmap`, `munmap` and
//! of replicating an address space at fork; [`cage`] ties the two together
//! over the life of a cage.
//!
//! The library is verified with Verus. [`fd_model`] and [`vmmap_model`] hold
//! the mathematical models that the contracts speak of, with the lemmas about
//! them; [`fd_store`] and [`interval_store`] hold what is taken on trust about
//! the two outside collections that the tables are kept in. Nothing here
//! touches the host: a caller is told what to ask of it.
pub mod cage;
pub mod constants;
pub mod errno;
pub mod fd_model;
pub mod fd_store;
pub mod fdtable;
pub mod interval_store;
pub mod mem;
pub mod vmmap;
pub mod vmmap_model;
