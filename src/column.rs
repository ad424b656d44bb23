//! The physical namespaces that tables are stored under.

use vstd::prelude::*;

verus! {

/// One column per table. The numbering of [`Column::as_u32`] is part of the
/// on-disk format: entries are only ever appended.
#[derive(Debug, Clone, Copy, PartialEq, Eq, Structural)]
pub enum Column {
    Metadata,
    ContractsRawCode,
    ContractsInfo,
    ContractsState,
    ContractsLatestUtxo,
    ContractsAssets,
    Coins,
    Transactions,
    FuelBlocks,
    FuelBlockSecondaryKeyBlockHeights,
    Messages,
    Receipts,
    FuelBlockConsensus,
    OwnedCoins,
    TransactionStatus,
    TransactionsByOwnerBlockIdx,
    SpentMessages,
    FuelBlockMerkleData,
    FuelBlockMerkleMetadata,
    ContractsAssetsMerkleData,
    ContractsAssetsMerkleMetadata,
    ContractsStateMerkleData,
    ContractsStateMerkleMetadata,
    OwnedMessageIds,
    RelayerMetadata,
    ConsensusParametersVersions,
    StateTransitionBytecodeVersions,
}

/// The stable number of a column.
pub open spec fn column_id(c: Column) -> u32 {
    match c {
        Column::Metadata => 0,
        Column::ContractsRawCode => 1,
        Column::ContractsInfo => 2,
        Column::ContractsState => 3,
        Column::ContractsLatestUtxo => 4,
        Column::ContractsAssets => 5,
        Column::Coins => 6,
        Column::Transactions => 7,
        Column::FuelBlocks => 8,
        Column::FuelBlockSecondaryKeyBlockHeights => 9,
        Column::Messages => 10,
        Column::Receipts => 11,
        Column::FuelBlockConsensus => 12,
        Column::OwnedCoins => 13,
        Column::TransactionStatus => 14,
        Column::TransactionsByOwnerBlockIdx => 15,
        Column::SpentMessages => 16,
        Column::FuelBlockMerkleData => 17,
        Column::FuelBlockMerkleMetadata => 18,
        Column::ContractsAssetsMerkleData => 19,
        Column::ContractsAssetsMerkleMetadata => 20,
        Column::ContractsStateMerkleData => 21,
        Column::ContractsStateMerkleMetadata => 22,
        Column::OwnedMessageIds => 23,
        Column::RelayerMetadata => 24,
        Column::ConsensusParametersVersions => 25,
        Column::StateTransitionBytecodeVersions => 26,
    }
}

/// How many columns there are; every id is below it.
pub const COLUMN_COUNT: u32 = 27;

impl Column {
    /// The stable number of this column.
    pub fn as_u32(&self) -> (r: u32)
        ensures
            r == column_id(*self),
    {
        match self {
            Column::Metadata => 0,
            Column::ContractsRawCode => 1,
            Column::ContractsInfo => 2,
            Column::ContractsState => 3,
            Column::ContractsLatestUtxo => 4,
            Column::ContractsAssets => 5,
            Column::Coins => 6,
            Column::Transactions => 7,
            Column::FuelBlocks => 8,
            Column::FuelBlockSecondaryKeyBlockHeights => 9,
            Column::Messages => 10,
            Column::Receipts => 11,
            Column::FuelBlockConsensus => 12,
            Column::OwnedCoins => 13,
            Column::TransactionStatus => 14,
            Column::TransactionsByOwnerBlockIdx => 15,
            Column::SpentMessages => 16,
            Column::FuelBlockMerkleData => 17,
            Column::FuelBlockMerkleMetadata => 18,
            Column::ContractsAssetsMerkleData => 19,
            Column::ContractsAssetsMerkleMetadata => 20,
            Column::ContractsStateMerkleData => 21,
            Column::ContractsStateMerkleMetadata => 22,
            Column::OwnedMessageIds => 23,
            Column::RelayerMetadata => 24,
            Column::ConsensusParametersVersions => 25,
            Column::StateTransitionBytecodeVersions => 26,
        }
    }
}

/// No two columns share a number, and every number is below the count.
pub proof fn lemma_column_id_injective(a: Column, b: Column)
    ensures
        column_id(a) < COLUMN_COUNT,
        column_id(a) == column_id(b) ==> a == b,
{
}

} // verus!
