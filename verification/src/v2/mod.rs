//! The merge as a typed pipeline: match, classify, resolve, bind, plan, render.

pub mod bind;
pub mod candidates;
pub mod classify;
pub mod encoding;
pub mod extraction;
pub mod file;
pub mod locals;
pub mod match_phase;
pub mod pipeline;
pub mod plan;
pub mod relational;
pub mod render;
pub mod resolve;
pub mod symmetry;
pub mod types;
