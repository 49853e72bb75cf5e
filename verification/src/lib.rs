//! A causal-DAG content log for peer-to-peer chat streams.
//!
//! Peers append immutable items to a shared stream by linking each new item
//! to the tip of their own chain and to the newest item they have observed.
//! Any peer can then rebuild an ordered slice of the stream by walking the
//! forward edges from a starting address.
use vstd::prelude::*;
use crate::address::Address;

pub mod adapter;
pub mod address;
pub mod chain;
pub mod conversation;
pub mod convergence;
pub mod dag;
pub mod error;
pub mod graph;
pub mod laws;
pub mod message;
pub mod store;
pub mod traversal;

verus! {

/// Prepares the application for a peer. Nothing needs preparing.
pub fn init() -> (outcome: Result<(), String>)
    ensures
        outcome is Ok,
{
    Ok(())
}

/// Decides whether an agent may join. Every agent may.
pub fn validate_agent(agent: &Address) -> (outcome: Result<(), String>)
    ensures
        outcome is Ok,
{
    Ok(())
}

} // verus!
