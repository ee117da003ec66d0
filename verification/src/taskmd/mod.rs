//! The taskmd layer: the task file format, its configuration, storage rules
//! and the dependency graph.

pub mod model;
pub mod config;
pub mod store;
pub mod graph;
pub mod template;

pub use config::{
    AgentSpec, Config, IdConfig, IdStrategy, Phase, PromptVia, RunConfig, Scope, Workflow,
};
pub use graph::{Graph, GraphIssue};
pub use model::{Effort, ParseOutcome, Priority, Status, Task, TaskType, VerifyCheck};
pub use store::{Entropy, Scan, SystemEntropy, Vault};
