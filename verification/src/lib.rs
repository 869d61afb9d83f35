//! Verified control-plane logic for a sharded coordination cluster.

pub mod api;
pub mod api_laws;
pub mod cluster;
pub mod composition;
pub mod composition_laws;
pub mod config;
pub mod decimal;
pub mod driver_laws;
pub mod harness;
pub mod harness_laws;
pub mod ids;
pub mod internal_auth;
pub mod json;
pub mod leadership;
pub mod membership;
pub mod membership_laws;
pub mod model;
pub mod oracle;
pub mod placement;
pub mod plan;
pub mod plan_laws;
pub mod plan_meaning;
pub mod raft;
pub mod raft_driver;
pub mod raft_group;
pub mod raft_laws;
pub mod raft_meaning;
pub mod raft_model;
pub mod raft_safety;
pub mod raft_store;
pub mod replay;
pub mod replay_laws;
pub mod scheduler;
pub mod scheduler_balance;
pub mod scheduler_counts;
pub mod scheduler_laws;
pub mod scheduler_meaning;
pub mod scheduler_model;
pub mod scheduler_spread;
pub mod scheduler_stability;
pub mod shards;
pub mod status_laws;
pub mod store_laws;
pub mod text;
