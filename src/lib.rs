//! Compares the resolved package graphs of two lockfiles: each side is reduced to
//! a universe of reachable packages, the two universes are reconciled in two
//! passes, and the versions of the packages they share are reported.
pub mod compare;
pub mod graph;
pub mod laws;
pub mod source;
pub mod text;
pub mod universe;

pub use compare::{Outcome, PassSizes, Program, Record};
pub use graph::{Dependency, Lockfile, Package, Spec};
pub use text::comma_separated_list;
pub use universe::{BuildError, Entry, Phase, State};
