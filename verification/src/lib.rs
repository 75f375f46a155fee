//! Planning, dependency ordering and QA decisions for autonomous coding agents.

pub mod context;
pub mod cycle;
pub mod dedup;
pub mod dependency;
pub mod dependency_graph;
pub mod ids;
pub mod json;
pub mod llm;
pub mod orchestrator;
pub mod orchestrator_types;
pub mod planner;
pub mod planner_types;
pub mod qa_runner;
pub mod qa_types;
pub mod test_detector;
pub mod text;
