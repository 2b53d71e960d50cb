//! Identifiers, configuration search and execution bookkeeping for
//! geo-replicated consensus protocols.

pub mod combination;
pub mod executor;
pub mod exp_data;
pub mod id;
pub mod order;
pub mod region;
pub mod search;
pub mod stats;
pub mod text;

