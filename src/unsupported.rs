use vstd::prelude::*;

use crate::error::ProviderError;
use crate::primitives::{
    Address, Header, Receipt, SealedHeader, TransactionSigned, B256,
};
use crate::provider::SnapshotProvider;
use crate::segment::BlockRange;

verus! {

/// A block named by its hash or by its number.
#[derive(Clone, Copy, Debug, PartialEq, Eq, Structural)]
pub enum BlockHashOrNumber {
    Hash(B256),
    Number(u64),
}

/// Where to look for a block.
#[derive(Clone, Copy, Debug, PartialEq, Eq, Structural)]
pub enum BlockSource {
    Any,
    Pending,
    Database,
}

/// Best block of the chain.
#[derive(Clone, Copy, Debug, PartialEq, Eq, Structural)]
pub struct ChainInfo {
    pub best_hash: B256,
    pub best_number: u64,
}

/// A block: header, transactions and ommer headers.
#[derive(Debug)]
pub struct Block {
    pub header: Header,
    pub body: Vec<TransactionSigned>,
    pub ommers: Vec<Header>,
}

/// A block whose header is sealed with its hash.
#[derive(Debug)]
pub struct SealedBlock {
    pub header: SealedHeader,
    pub body: Vec<TransactionSigned>,
    pub ommers: Vec<Header>,
}

/// A block together with the signers of its transactions.
#[derive(Debug)]
pub struct BlockWithSenders {
    pub block: Block,
    pub senders: Vec<Address>,
}

/// A sealed block together with the signers of its transactions.
#[derive(Debug)]
pub struct SealedBlockWithSenders {
    pub block: SealedBlock,
    pub senders: Vec<Address>,
}

/// The transactions of a block: the first number and how many.
#[derive(Clone, Copy, Debug, PartialEq, Eq, Structural)]
pub struct StoredBlockBodyIndices {
    pub first_tx_num: u64,
    pub tx_count: u64,
}

/// Where a transaction stands in the chain.
#[derive(Clone, Copy, Debug, PartialEq, Eq, Structural)]
pub struct TransactionMeta {
    pub tx_hash: B256,
    pub index: u64,
    pub block_hash: B256,
    pub block_number: u64,
}

/// A validator withdrawal.
#[derive(Clone, Copy, Debug, PartialEq, Eq, Structural)]
pub struct Withdrawal {
    pub index: u64,
    pub validator_index: u64,
    pub address: Address,
    pub amount: u64,
}

/// Which form of transactions a block is read with.
#[derive(Clone, Copy, Debug, PartialEq, Eq, Structural)]
pub enum TransactionVariant {
    NoHash,
    WithHash,
}

// Snapshots hold neither the chain tip nor per-block assemblies: the methods
// below exist so that the provider offers the same reads as the database
// provider, and always fail.
impl SnapshotProvider {
    pub fn chain_info(&self) -> (r: Result<ChainInfo, ProviderError>)
        ensures
            r == Err::<ChainInfo, ProviderError>(ProviderError::UnsupportedProvider),
    {
        Err(ProviderError::UnsupportedProvider)
    }

    pub fn best_block_number(&self) -> (r: Result<u64, ProviderError>)
        ensures
            r == Err::<u64, ProviderError>(ProviderError::UnsupportedProvider),
    {
        Err(ProviderError::UnsupportedProvider)
    }

    pub fn last_block_number(&self) -> (r: Result<u64, ProviderError>)
        ensures
            r == Err::<u64, ProviderError>(ProviderError::UnsupportedProvider),
    {
        Err(ProviderError::UnsupportedProvider)
    }

    pub fn block_number(&self, _hash: B256) -> (r: Result<Option<u64>, ProviderError>)
        ensures
            r == Err::<Option<u64>, ProviderError>(ProviderError::UnsupportedProvider),
    {
        Err(ProviderError::UnsupportedProvider)
    }

    pub fn find_block_by_hash(&self, _hash: B256, _source: BlockSource) -> (r: Result<
        Option<Block>,
        ProviderError,
    >)
        ensures
            r matches Err(e) && e == ProviderError::UnsupportedProvider,
    {
        Err(ProviderError::UnsupportedProvider)
    }

    pub fn block(&self, _id: BlockHashOrNumber) -> (r: Result<Option<Block>, ProviderError>)
        ensures
            r matches Err(e) && e == ProviderError::UnsupportedProvider,
    {
        Err(ProviderError::UnsupportedProvider)
    }

    pub fn pending_block(&self) -> (r: Result<Option<SealedBlock>, ProviderError>)
        ensures
            r matches Err(e) && e == ProviderError::UnsupportedProvider,
    {
        Err(ProviderError::UnsupportedProvider)
    }

    pub fn pending_block_with_senders(&self) -> (r: Result<
        Option<SealedBlockWithSenders>,
        ProviderError,
    >)
        ensures
            r matches Err(e) && e == ProviderError::UnsupportedProvider,
    {
        Err(ProviderError::UnsupportedProvider)
    }

    pub fn pending_block_and_receipts(&self) -> (r: Result<
        Option<(SealedBlock, Vec<Receipt>)>,
        ProviderError,
    >)
        ensures
            r matches Err(e) && e == ProviderError::UnsupportedProvider,
    {
        Err(ProviderError::UnsupportedProvider)
    }

    pub fn ommers(&self, _id: BlockHashOrNumber) -> (r: Result<Option<Vec<Header>>, ProviderError>)
        ensures
            r matches Err(e) && e == ProviderError::UnsupportedProvider,
    {
        Err(ProviderError::UnsupportedProvider)
    }

    pub fn block_body_indices(&self, _num: u64) -> (r: Result<
        Option<StoredBlockBodyIndices>,
        ProviderError,
    >)
        ensures
            r == Err::<Option<StoredBlockBodyIndices>, ProviderError>(
                ProviderError::UnsupportedProvider,
            ),
    {
        Err(ProviderError::UnsupportedProvider)
    }

    pub fn block_with_senders(
        &self,
        _id: BlockHashOrNumber,
        _transaction_kind: TransactionVariant,
    ) -> (r: Result<Option<BlockWithSenders>, ProviderError>)
        ensures
            r matches Err(e) && e == ProviderError::UnsupportedProvider,
    {
        Err(ProviderError::UnsupportedProvider)
    }

    pub fn block_range(&self, _range: BlockRange) -> (r: Result<Vec<Block>, ProviderError>)
        ensures
            r matches Err(e) && e == ProviderError::UnsupportedProvider,
    {
        Err(ProviderError::UnsupportedProvider)
    }

    pub fn withdrawals_by_block(&self, _id: BlockHashOrNumber, _timestamp: u64) -> (r: Result<
        Option<Vec<Withdrawal>>,
        ProviderError,
    >)
        ensures
            r matches Err(e) && e == ProviderError::UnsupportedProvider,
    {
        Err(ProviderError::UnsupportedProvider)
    }

    pub fn latest_withdrawal(&self) -> (r: Result<Option<Withdrawal>, ProviderError>)
        ensures
            r == Err::<Option<Withdrawal>, ProviderError>(ProviderError::UnsupportedProvider),
    {
        Err(ProviderError::UnsupportedProvider)
    }

    pub fn receipts_by_block(&self, _block: BlockHashOrNumber) -> (r: Result<
        Option<Vec<Receipt>>,
        ProviderError,
    >)
        ensures
            r matches Err(e) && e == ProviderError::UnsupportedProvider,
    {
        Err(ProviderError::UnsupportedProvider)
    }

    pub fn transaction_by_hash_with_meta(&self, _hash: B256) -> (r: Result<
        Option<(TransactionSigned, TransactionMeta)>,
        ProviderError,
    >)
        ensures
            r == Err::<Option<(TransactionSigned, TransactionMeta)>, ProviderError>(
                ProviderError::UnsupportedProvider,
            ),
    {
        Err(ProviderError::UnsupportedProvider)
    }

    pub fn transaction_block(&self, _id: u64) -> (r: Result<Option<u64>, ProviderError>)
        ensures
            r == Err::<Option<u64>, ProviderError>(ProviderError::UnsupportedProvider),
    {
        Err(ProviderError::UnsupportedProvider)
    }

    pub fn transactions_by_block(&self, _block_id: BlockHashOrNumber) -> (r: Result<
        Option<Vec<TransactionSigned>>,
        ProviderError,
    >)
        ensures
            r matches Err(e) && e == ProviderError::UnsupportedProvider,
    {
        Err(ProviderError::UnsupportedProvider)
    }

    pub fn transactions_by_block_range(&self, _range: BlockRange) -> (r: Result<
        Vec<Vec<TransactionSigned>>,
        ProviderError,
    >)
        ensures
            r matches Err(e) && e == ProviderError::UnsupportedProvider,
    {
        Err(ProviderError::UnsupportedProvider)
    }
}

} // verus!
