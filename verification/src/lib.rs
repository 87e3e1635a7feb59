pub mod binding;
pub mod coalesce;
pub mod conflict;
pub mod container;
pub mod diagnose;
pub mod entity;
pub mod explain;
pub mod expression;
pub mod frame;
pub mod git;
pub mod grammar;
pub mod host;
pub mod json_layout;
pub mod merge;
pub mod order;
pub mod patch;
pub mod readback;
pub mod region;
pub mod stats;
pub mod subsumption;
pub mod text;
pub mod token;
pub mod v2;
pub mod validate;
