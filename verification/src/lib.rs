//! A PEs-and-threads calculator for HPC batch jobs.
//!
//! Given a job shape (`tasks` parallel execution units, each running
//! `threads` threads) and a machine shape (physical CPU cores per node,
//! optionally doubled by hyperthreading), the library computes the node
//! reservation the job implies — node count, total, used and idle logical
//! cores, and how many reserved nodes are only partially occupied — and can
//! enumerate nearby job shapes whose reservation is perfectly packed.
//!
//! Every function is specified by a contract and verified; the reservation
//! arithmetic is exact integer arithmetic throughout.

pub mod geometry;
pub mod numparse;
pub mod reservation;
pub mod search;

pub use geometry::Geometry;
pub use geometry::GeometryError;
pub use numparse::positive_int;
pub use reservation::Reservation;
pub use search::AcceptAll;
pub use search::ConserveNodes;
pub use search::SearchPredicate;
