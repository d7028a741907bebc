//! Propagation of emotion, attitude and behavior among agents on a directed
//! follow-graph, with the rule-based readers of the agents' replies.

pub mod baseline;
pub mod cascade;
pub mod cli;
pub mod config;
pub mod mechanisms;
pub mod metrics;
pub mod network;
pub mod parse;
pub mod perception;
pub mod prompts;
pub mod record;
pub mod scripted;
pub mod simulation;
pub mod text;
pub mod voter;
pub mod world;
