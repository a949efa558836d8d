//! Decentralization analysis of subnets and node-provider reward computation.
pub mod calculator;
pub mod categories;
pub mod change;
pub mod compare;
pub mod daily_metrics;
pub mod dates;
pub mod dec;
pub mod describe;
pub mod features;
pub mod metrics_store;
pub mod nakamoto;
pub mod heal;
pub mod network;
pub mod node_metrics_store;
pub mod nodes_manager;
pub mod removal;
pub mod request;
pub mod response;
pub mod resize;
pub mod registry;
pub mod reward_period;
pub mod provider_rewards;
pub mod rewards_input;
pub mod rewards_log;
pub mod rewards_manager;
pub mod rules;
pub mod score;
pub mod selection;
pub mod subnet;
pub mod subnet_metrics;
pub mod text;
