//! An off-chain central-limit order book for ETH/USDC with a per-user
//! inventory ledger, signed-request admission and checkpoint production.

pub mod amount;
pub mod book;
pub mod matching;
pub mod keyed;
pub mod errors;
pub mod ledger;
pub mod settlement;
pub mod signing;
pub mod requests;
pub mod checkpoint;
pub mod laws;
