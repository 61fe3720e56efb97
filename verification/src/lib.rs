//! Scheduling and state-keeping core of a streaming system.

pub mod batch;
pub mod byte_string;
pub mod distribution;
pub mod fragment_graph;
pub mod graph_facts;
pub mod grouping;
pub mod listing;
pub mod locations;
pub mod maps;
pub mod memory_store;
pub mod propagation;
pub mod requirement;
pub mod scheduler;
pub mod sorted_list;
pub mod task_service;
pub mod worker_slot;
