//! Accounting and risk-control core of a multi-asset pegged-value swap pool.
//!
//! The crate keeps a registry of asset groups with corruption marks, a pool
//! ledger of pegged assets with an alloyed share denomination, and a
//! weight-based rate limiter that gates every swap.

pub mod asset_group;
pub mod conservation;
pub mod corruptable;
pub mod error;
pub mod label;
pub mod limiter;
pub mod math;
pub mod scope;
pub mod sudo;
pub mod swap;
pub mod table;
pub mod transmuter;
pub mod transmuter_pool;

pub use crate::asset_group::{AssetGroup, AssetGroups};
pub use crate::corruptable::Corruptable;
pub use crate::error::ContractError;
pub use crate::sudo::SudoMsg;
pub use crate::transmuter::{
    SwapExactAmountInResponseData, SwapExactAmountOutResponseData, Transmuter,
};
pub use crate::transmuter_pool::TransmuterPool;
