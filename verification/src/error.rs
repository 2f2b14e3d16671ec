//! What can stop a valuation.

use crate::asset_tag::{AssetTag, TagModel};
use crate::pot_path::PotPath;
use vstd::prelude::*;

verus! {

/// Why a valuation gave no result.
#[derive(Debug)]
pub enum ValuationError {
    /// A funded asset has no price.
    MissingPrice(AssetTag),
    /// An amount does not fit into 128 bits.
    Overflow,
    /// A lot names a nested pot that is not in the store.
    NotInitialized(PotPath),
    /// A nested pot leads back to a pot that is being valued.
    CycleDetected(PotPath),
}

/// The mathematical value of a [`ValuationError`].
pub enum ErrorModel {
    MissingPrice(TagModel),
    Overflow,
    NotInitialized(Seq<Seq<char>>),
    CycleDetected(Seq<Seq<char>>),
}

impl View for ValuationError {
    type V = ErrorModel;

    open spec fn view(&self) -> ErrorModel {
        match self {
            ValuationError::MissingPrice(tag) => ErrorModel::MissingPrice(tag@),
            ValuationError::Overflow => ErrorModel::Overflow,
            ValuationError::NotInitialized(path) => ErrorModel::NotInitialized(path@),
            ValuationError::CycleDetected(path) => ErrorModel::CycleDetected(path@),
        }
    }
}

} // verus!
