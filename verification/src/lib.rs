//! A pipeline runner's verified core: the pipeline grammar, the plan that the
//! orchestrator follows, worker allocation, batch splitting and the line
//! protocol between processes.
pub mod allocation;
pub mod cli;
pub mod error;
pub mod executor;
pub mod manager;
pub mod parser;
pub mod progress;
pub mod protocol;
pub mod script;
pub mod setup;
pub mod stages;
pub mod text;
