//! Dependency resolution and checksum-verification bookkeeping for a package
//! database: which dependencies are satisfied, what the transitive closure of
//! a package is, which packages have to be installed, and what each answer of
//! the checksum service means for the request it belongs to.

pub mod version;
pub mod text;
pub mod async_fns;
pub mod packages;
pub mod deps_available;
pub mod solvers;
pub mod reach;
pub mod rounds;
