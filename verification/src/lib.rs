//! Timing analysis of task graphs and discrete-time multiprocessor
//! scheduling of them: critical paths, a list-scheduling engine, and
//! federated and dynamic federated core allocation.

pub mod critical_path;
pub mod dag_params;
pub mod dummy_nodes;
pub mod dynfed;
pub mod engine;
pub mod engine_laws;
pub mod engine_model;
pub mod engine_progress;
pub mod engine_setup;
pub mod federated;
pub mod fixed_priority_scheduler;
pub mod graph_analysis;
pub mod graph_extension;
pub mod graph_extension_trait;
pub mod handle_segment;
pub mod implicit_deadline;
pub mod log;
pub mod param_names;
pub mod processor;
pub mod timing;
pub mod util;
