//! The failures that the pool's operations report.

use vstd::prelude::*;

verus! {

/// Why an operation was refused. No state changes on any of them.
#[derive(Clone, Debug, PartialEq, Eq)]
pub enum ContractError {
    /// A failure that has no variant of its own, with what it says.
    Std { msg: String },
    /// A group with this label is registered already.
    AssetGroupAlreadyExists { label: String },
    /// No group with this label is registered.
    AssetGroupNotFound { label: String },
    /// The funds do not consist of exactly one coin.
    SingleCoinExpected,
    /// A pool cannot hold this denomination twice, nor the alloyed one.
    DuplicatedPoolAssetDenom { denom: String },
    /// The denomination is not a pooled asset.
    InvalidPoolAssetDenom { denom: String },
    /// Only a pool of two assets gives an asset a counterpart.
    NotTwoAssetPool { assets: u64 },
    /// The pool holds less of a denomination than has to leave it.
    InsufficientPoolAsset { denom: String, required: u128, available: u128 },
    /// A balance, an amount or the total is more than can be held.
    AmountOverflow,
    /// The swap fee is more than the whole amount.
    InvalidSwapFee { fee: u128 },
    /// The swap gives less than the least amount asked for.
    InsufficientTokenOut { required: u128, available: u128 },
    /// The swap asks for more than the most that may be paid.
    ExcessiveRequiredTokenIn { limit: u128, required: u128 },
    /// The computed amount out differs from the amount owed at parity.
    InvalidTokenOutAmount { expected: u128, actual: u128 },
    /// The computed amount in differs from the amount owed at parity.
    InvalidTokenInAmount { expected: u128, actual: u128 },
    /// A tracked weight would move further from its recent maximum than its bound allows.
    RateLimitExceeded { key: String, previous: u128, attempted: u128, bound: u128 },
}

/// A failure with its labels taken as plain sequences.
pub ghost enum ContractErrorView {
    Std { msg: Seq<char> },
    AssetGroupAlreadyExists { label: Seq<char> },
    AssetGroupNotFound { label: Seq<char> },
    SingleCoinExpected,
    DuplicatedPoolAssetDenom { denom: Seq<char> },
    InvalidPoolAssetDenom { denom: Seq<char> },
    NotTwoAssetPool { assets: u64 },
    InsufficientPoolAsset { denom: Seq<char>, required: u128, available: u128 },
    AmountOverflow,
    InvalidSwapFee { fee: u128 },
    InsufficientTokenOut { required: u128, available: u128 },
    ExcessiveRequiredTokenIn { limit: u128, required: u128 },
    InvalidTokenOutAmount { expected: u128, actual: u128 },
    InvalidTokenInAmount { expected: u128, actual: u128 },
    RateLimitExceeded { key: Seq<char>, previous: u128, attempted: u128, bound: u128 },
}

impl View for ContractError {
    type V = ContractErrorView;

    open spec fn view(&self) -> ContractErrorView {
        match *self {
            ContractError::Std { msg } => ContractErrorView::Std { msg: msg@ },
            ContractError::AssetGroupAlreadyExists { label } => {
                ContractErrorView::AssetGroupAlreadyExists { label: label@ }
            },
            ContractError::AssetGroupNotFound { label } => {
                ContractErrorView::AssetGroupNotFound { label: label@ }
            },
            ContractError::SingleCoinExpected => ContractErrorView::SingleCoinExpected,
            ContractError::DuplicatedPoolAssetDenom { denom } => {
                ContractErrorView::DuplicatedPoolAssetDenom { denom: denom@ }
            },
            ContractError::InvalidPoolAssetDenom { denom } => {
                ContractErrorView::InvalidPoolAssetDenom { denom: denom@ }
            },
            ContractError::NotTwoAssetPool { assets } => {
                ContractErrorView::NotTwoAssetPool { assets }
            },
            ContractError::InsufficientPoolAsset { denom, required, available } => {
                ContractErrorView::InsufficientPoolAsset { denom: denom@, required, available }
            },
            ContractError::AmountOverflow => ContractErrorView::AmountOverflow,
            ContractError::InvalidSwapFee { fee } => ContractErrorView::InvalidSwapFee { fee },
            ContractError::InsufficientTokenOut { required, available } => {
                ContractErrorView::InsufficientTokenOut { required, available }
            },
            ContractError::ExcessiveRequiredTokenIn { limit, required } => {
                ContractErrorView::ExcessiveRequiredTokenIn { limit, required }
            },
            ContractError::InvalidTokenOutAmount { expected, actual } => {
                ContractErrorView::InvalidTokenOutAmount { expected, actual }
            },
            ContractError::InvalidTokenInAmount { expected, actual } => {
                ContractErrorView::InvalidTokenInAmount { expected, actual }
            },
            ContractError::RateLimitExceeded { key, previous, attempted, bound } => {
                ContractErrorView::RateLimitExceeded { key: key@, previous, attempted, bound }
            },
        }
    }
}

} // verus!
