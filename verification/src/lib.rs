//! Orchestration engine for a long-running, agent-delegated workflow: a
//! persisted task document with a priority scheduler, a session driver that
//! folds a stream of typed agent events into an outcome, a bounded iteration
//! loop, an append-only progress journal, and a structured extractor that
//! recovers a validated task document from free-form text.

pub mod json;
pub mod output;
pub mod prompts;
pub mod session;
pub mod text;
pub mod types;
pub mod workflows;
