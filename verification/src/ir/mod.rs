//! The intermediate representation and the passes over it.
//!
//! A module is lowered, optimised, and made ready to be emitted: writes are made in place
//! where nobody else can see them, stores of whole records are narrowed to the fields that
//! change, bounds checks are covered, and reference counts are put in last. Counts come last
//! because where they stand depends on the blocks, which the other passes change.

pub use self::pipeline::{compile, compile_benches, compile_checked, compile_tests, Stage};

pub mod cfg;
pub mod cover;
pub mod effects;
pub mod frame;
pub mod graph;
pub mod lower;
pub mod opt;
pub mod partial;
pub mod pipeline;
pub mod refcount;
pub mod repr;
pub mod room;
pub mod run;
pub mod ssa;
pub mod unique;
