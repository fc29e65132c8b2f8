//! Distributed-memory coordination primitives for one-dimensional global
//! arrays partitioned across a fixed set of cooperating processes.
//!
//! The crate describes how a global index space is owned across processes
//! (index layouts), which global indices each process imports from its peers
//! (ghost communicators), and the derived bulk data movements (global-to-local
//! mapping, data permutation and layout remap).  Collective operations are
//! modelled as functions over the per-rank states of every participant, so
//! that the whole exchange is a value the verifier can reason about.

pub mod array_tools;
pub mod data_mapper;
pub mod exchange;
pub mod ghost_communicator;
pub mod index_layout;
pub mod permutation;

pub use data_mapper::Global2LocalDataMapper;
pub use ghost_communicator::GhostCommunicator;
pub use index_layout::IndexLayout;
pub use permutation::DataPermutation;
