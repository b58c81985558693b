//! Verified core of a per-app network connection monitor: address
//! aggregation and formatting, app discovery and matching, the monitoring
//! engine's decisions, the state of the selection and monitoring screens,
//! the monitoring sessions of a run, and the address history file.

pub mod addr;
pub mod address_lists;
pub mod aggregator;
pub mod discovery;
pub mod engine;
pub mod history;
pub mod key;
pub mod monitor_view;
pub mod process_summary;
pub mod process_tree;
pub mod selector;
pub mod session;
pub mod sessions;
pub mod sort;
pub mod status;
pub mod target_history;
pub mod text;
pub mod types;
