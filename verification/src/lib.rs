//! A continuous-integration orchestrator for projects organized as a set of
//! independently buildable sub-units ("subflakes"), each built and checked
//! against one or more target platforms ("systems").
//!
//! The library holds the orchestration core: system-set resolution, subflake
//! selection and platform-compatibility filtering, the sequential
//! step-execution state machine with fail-fast error propagation, the
//! command-line round trip used for remote dispatch, and the structured
//! report that a run emits. Running the actual build steps, evaluating
//! flakes, and all other I/O live outside the library; callers drive the
//! engine by performing each step it schedules and feeding the outcome back.
//!
//! Identifiers that flow through the engine (system names, subflake names,
//! flake references, step names) are held as UTF-8 byte strings (`Vec<u8>`),
//! compared byte for byte.

pub mod bytes;
pub mod cli;
pub mod config;
pub mod engine;
pub mod error;
pub mod report;
pub mod show;
pub mod template;
