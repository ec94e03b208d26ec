//! Trait statistics for collections of tokens (NFTs): turning raw trait
//! listings into a token-by-trait table, its transpose, per-value counts,
//! ranks and contingency tables.

pub mod canister;
pub mod counting;
pub mod matrix;
pub mod ranking;
pub mod records;
pub mod test_data;
pub mod text;
pub mod trait_object;
