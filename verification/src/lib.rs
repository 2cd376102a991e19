//! A batch-execution engine: it applies one action to every identifier of a
//! list, at a bounded request rate, retrying transient failures and recording
//! each definitive outcome in a progress cache so that a later run can resume.
//!
//! The engine decides; it performs no I/O. A driver feeds it the time and the
//! results of the invocations it asked for, and carries out what it answers.
//!
//! - [`runner`] holds the state machine of a run, [`trace`] what holds of
//!   whole runs.
//! - [`retry`] and [`backoff`] bound and space the attempts for one
//!   identifier; [`limiter`] spaces the starts of all of them.
//! - [`cache`] is the record of progress, [`store`] its stored form.
//! - [`worklist`] says which identifiers a run works on, [`value`] what it
//!   applies to them, [`summary`] what it reports, [`error`] why it may not
//!   start.
//! - [`action`] and [`update`] hold the arguments of runs and invocations,
//!   and the action that updates a symbol.

pub mod action;
pub mod backoff;
pub mod cache;
pub mod error;
pub mod keyed;
pub mod limiter;
pub mod outcome;
pub mod retry;
pub mod runner;
pub mod store;
pub mod summary;
pub mod text;
pub mod trace;
pub mod update;
pub mod value;
pub mod worklist;
