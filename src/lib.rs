//! Orchestration core: a dynamic DAG scheduler for workflows of agent nodes.
//!
//! - `dag`: the mutable acyclic graph of a run.
//! - `models`, `state`: the run record and its state machine.
//! - `scheduler`, `delegation`: ready-node selection and graph surgery.
//! - `context`, `text`: the context assembler and the post-flight checks.
//! - `registry`, `events`: the pattern engine's rules and the domain events.
//! - `runtime`: the records of all runs and the operations on them.
//! - `workspace`: storage paths, content types and client ids.
//! - `artifacts`: the artifact store, with expiry.
//! - `bindings`: the outside types and calls relied on.
pub mod artifacts;
pub mod bindings;
pub mod context;
pub mod dag;
pub mod delegation;
pub mod events;
pub mod models;
pub mod registry;
pub mod runtime;
pub mod scheduler;
pub mod state;
pub mod text;
pub mod workspace;
