//! A workflow engine: it routes an instance through the nodes of a workflow definition,
//! keeps its state and execution trace in `process.md`, and answers queries over the
//! artifacts each execution left behind.
pub mod artifact;
pub mod artifact_query;
pub mod clock;
pub mod executor;
pub mod find;
pub mod graph;
pub mod instance;
pub mod limits;
pub mod machine;
pub mod model;
pub mod order;
pub mod state;
pub mod text;
