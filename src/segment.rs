use vstd::prelude::*;

verus! {

/// Default number of blocks covered by one jar.
pub const BLOCKS_PER_SNAPSHOT: u64 = 500000;

/// The kinds of snapshottable data.
#[derive(Clone, Copy, Debug, PartialEq, Eq, Structural, Hash)]
pub enum SnapshotSegment {
    Headers,
    Transactions,
    Receipts,
}

impl SnapshotSegment {
    /// Transactions and receipts are addressed by transaction number.
    pub open spec fn is_tx_based(self) -> bool {
        !(self is Headers)
    }

    /// Name used as the first component of a jar's file name.
    pub fn as_str(&self) -> (r: &'static str)
        ensures
            r@ == self.name_spec(),
    {
        match self {
            SnapshotSegment::Headers => "headers",
            SnapshotSegment::Transactions => "transactions",
            SnapshotSegment::Receipts => "receipts",
        }
    }

    pub open spec fn name_spec(self) -> Seq<char> {
        match self {
            SnapshotSegment::Headers => "headers"@,
            SnapshotSegment::Transactions => "transactions"@,
            SnapshotSegment::Receipts => "receipts"@,
        }
    }
}

/// A closed interval `[start, end]` of block or transaction numbers.
#[derive(Clone, Copy, Debug, PartialEq, Eq, Structural, Hash)]
pub struct BlockRange {
    pub start: u64,
    pub end: u64,
}

impl BlockRange {
    pub open spec fn contains_spec(self, n: int) -> bool {
        self.start <= n <= self.end
    }

    pub fn contains(&self, n: u64) -> (r: bool)
        ensures
            r == self.contains_spec(n as int),
    {
        self.start <= n && n <= self.end
    }

    pub open spec fn is_empty_spec(self) -> bool {
        self.start > self.end
    }

    pub fn is_empty(&self) -> (r: bool)
        ensures
            r == self.is_empty_spec(),
    {
        self.start > self.end
    }
}

/// Start of the aligned range of width `per` that holds `block`.
pub open spec fn fixed_start(per: int, block: int) -> int
    recommends
        per > 0,
{
    (block / per) * per
}

/// The aligned range of width `per` that holds `block`:
/// `[floor(block / per) * per, that + per - 1]`.
pub fn find_fixed_range(per: u64, block: u64) -> (r: BlockRange)
    requires
        per > 0,
        block + per <= u64::MAX + 1,
    ensures
        r.start == fixed_start(per as int, block as int),
        r.end == r.start + per - 1,
        r.start <= block <= r.end,
{
    proof {
        vstd::arithmetic::div_mod::lemma_fundamental_div_mod(block as int, per as int);
        vstd::arithmetic::div_mod::lemma_mod_bound(block as int, per as int);
        assert((block / per) * per == per * (block / per)) by (nonlinear_arith);
    }
    let start: u64 = block - block % per;
    BlockRange { start, end: start + (per - 1) }
}

} // verus!
