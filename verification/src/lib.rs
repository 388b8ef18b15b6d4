//! A reactive spreadsheet engine: a store of named cells, formulas that read
//! other cells, a dependency graph kept up to date on every write, cycle
//! detection over that graph, and recomputation of the cells downstream of a
//! change.
//!
//! The engine decides and records; it does not evaluate. Where a formula is
//! to be evaluated, it hands the formula out with what its variables
//! resolved to, and takes the value back: see [`command::Action`] and
//! [`worker::dfs_update_dependencies`].
//!
//! The engine's modules, leaves first: [`value`], [`address`], [`column`],
//! [`reference`], [`store`], [`resolve`], [`formula`], [`command`],
//! [`session`], [`graph`], [`cycle`] and [`worker`]. What their functions
//! mean together is proved in [`resolve_laws`], [`graph_laws`],
//! [`cycle_laws`] and [`worker_laws`].
//!
//! Beside the engine stand a few small libraries of their own: [`caesar`],
//! [`dice`], [`lights`], [`logo`], [`puzzle`], [`sentences`] and
//! [`tribonacci`]; [`text`] and [`words`] serve them and the engine.

pub mod address;
pub mod caesar;
pub mod column;
pub mod command;
pub mod cycle;
pub mod cycle_laws;
pub mod dice;
pub mod formula;
pub mod graph;
pub mod graph_laws;
pub mod lights;
pub mod logo;
pub mod puzzle;
pub mod reference;
pub mod resolve;
pub mod resolve_laws;
pub mod sentences;
pub mod session;
pub mod store;
pub mod text;
pub mod tribonacci;
pub mod value;
pub mod worker;
pub mod worker_laws;
pub mod words;
