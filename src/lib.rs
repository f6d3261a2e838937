//! Filterable, bounded-concurrency plugin synchronisation.
//!
//! `filter` picks the plugins a sync acts on, `report` aggregates what
//! happened to each of them, and `scheduler` decides which sync jobs run when.
//! Running the jobs themselves (processes, threads, timers) is left to the
//! caller, which feeds each job's outcome back into the scheduler.
pub mod filter;
pub mod report;
pub mod scheduler;
