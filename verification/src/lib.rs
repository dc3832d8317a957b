//! A database schema migration engine.
//!
//! The library reconciles a set of on-disk migration scripts (the *local*
//! set) against the migrations recorded as applied in a live database (the
//! *applied* set).  Its core is a pure match-and-plan engine: local and
//! applied migrations are paired by name, each pair is classified by
//! content hash into a [`match_maker::Matching`], and a
//! [`plan_builder::PlanBuilder`] compiles the classifications into an
//! ordered plan of up/down steps for one of the commands `up`, `down`,
//! `fix`, `redo` or `status`.

pub mod adaptor;
pub mod errors;
pub mod laws;
pub mod match_maker;
pub mod migration;
pub mod plan_builder;

pub use adaptor::DbAdaptor;
pub use match_maker::Matching;
pub use migration::Migration;
pub use plan_builder::{Plan, PlanBuilder, PlanBuilder2};
