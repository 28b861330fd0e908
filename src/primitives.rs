use vstd::prelude::*;

verus! {

/// A 256-bit hash, as two 128-bit halves.
#[derive(Clone, Copy, Debug, PartialEq, Eq, Structural, Hash)]
pub struct B256 {
    pub hi: u128,
    pub lo: u128,
}

/// A 160-bit account address, as a 32-bit high part and a 128-bit low part.
#[derive(Clone, Copy, Debug, PartialEq, Eq, Structural, Hash)]
pub struct Address {
    pub hi: u32,
    pub lo: u128,
}

/// A block header, reduced to the fields the store keeps.
#[derive(Clone, Copy, Debug, PartialEq, Eq, Structural)]
pub struct Header {
    pub number: u64,
    pub parent_hash: B256,
    pub timestamp: u64,
    pub gas_used: u64,
}

/// A header row of the headers segment: the header, its total difficulty and
/// its canonical hash.
#[derive(Clone, Copy, Debug, PartialEq, Eq, Structural)]
pub struct HeaderEntry {
    pub header: Header,
    pub td: u128,
    pub hash: B256,
}

/// A signed transaction together with its hash. `signer` is the address
/// recovered from the signature, absent when the signature does not recover.
#[derive(Clone, Copy, Debug, PartialEq, Eq, Structural)]
pub struct TransactionSigned {
    pub hash: B256,
    pub nonce: u64,
    pub value: u128,
    pub signer: Option<Address>,
}

/// A transaction receipt.
#[derive(Clone, Copy, Debug, PartialEq, Eq, Structural)]
pub struct Receipt {
    pub success: bool,
    pub cumulative_gas_used: u64,
}

/// A header together with its hash.
#[derive(Clone, Copy, Debug, PartialEq, Eq, Structural)]
pub struct SealedHeader {
    pub header: Header,
    pub hash: B256,
}

/// Highest snapshotted block of each segment.
#[derive(Clone, Copy, Debug, PartialEq, Eq, Structural, Default)]
pub struct HighestSnapshots {
    pub headers: Option<u64>,
    pub receipts: Option<u64>,
    pub transactions: Option<u64>,
}

/// Rows that can be found by their hash.
pub trait Hashed {
    spec fn hash_spec(&self) -> B256;

    fn row_hash(&self) -> (r: B256)
        ensures
            r == self.hash_spec(),
    ;
}

impl Hashed for HeaderEntry {
    open spec fn hash_spec(&self) -> B256 {
        self.hash
    }

    fn row_hash(&self) -> (r: B256) {
        self.hash
    }
}

impl Hashed for TransactionSigned {
    open spec fn hash_spec(&self) -> B256 {
        self.hash
    }

    fn row_hash(&self) -> (r: B256) {
        self.hash
    }
}

} // verus!
