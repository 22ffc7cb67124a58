//! Dependency tracking for an incremental stylesheet build: a two-way
//! multi-valued relation, an alias table with a merge diff, a lexical path
//! normaliser, and the decisions that turn file-system changes into
//! recompilations.

pub mod context;
pub mod derives;
pub mod events;
pub mod guarded_unwrap;
pub mod luaurc;
pub mod multibimap;
pub mod path;
pub mod path_laws;
pub mod propagate;
pub mod relation;
pub mod scan;
pub mod side;
pub mod startup;
pub mod text;
