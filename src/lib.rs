//! Pipelines of tasks and the artifacts they consume and produce.

pub mod cli;
pub mod pipeline;
