//! Core of a batch-auction settlement driver: orders, solutions, allowance
//! normalisation, settlement encoding checks and merging, the merge loop
//! and the solve/settle competition slot.

pub mod u256;
pub mod eth;
pub mod order;
pub mod auction;
pub mod allowance;
pub mod engine;
pub mod solution;
pub mod flow;
pub mod settlement;
pub mod merger;
pub mod competition;
