use vstd::prelude::*;

use crate::error::ProviderError;
use crate::jar::{lemma_flat_len, total};
use crate::primitives::{
    Address, Header, HeaderEntry, Receipt, SealedHeader, TransactionSigned, B256,
};
use crate::provider::SnapshotProvider;
use crate::segment::SnapshotSegment;
use crate::store::{all_pass, has_hash, range_spec, top_hit_number};

verus! {

/// The row numbered `n` of `rows`, or the error for a missing number.
pub open spec fn row_spec<R>(rows: Seq<R>, n: u64, missing: ProviderError) -> Result<
    Option<R>,
    ProviderError,
> {
    if n < rows.len() {
        Ok(Some(rows[n as int]))
    } else {
        Err(missing)
    }
}

/// Applies `f` inside a read result.
pub open spec fn map_row<R, T>(r: Result<Option<R>, ProviderError>, f: spec_fn(R) -> T) -> Result<
    Option<T>,
    ProviderError,
> {
    match r {
        Ok(Some(x)) => Ok(Some(f(x))),
        Ok(None) => Ok(None),
        Err(e) => Err(e),
    }
}

/// Applies `f` to every row of a range result.
pub open spec fn map_range<R, T>(r: Result<Seq<R>, ProviderError>, f: spec_fn(R) -> T) -> Result<
    Seq<T>,
    ProviderError,
> {
    match r {
        Ok(s) => Ok(s.map_values(f)),
        Err(e) => Err(e),
    }
}

pub open spec fn seal(e: HeaderEntry) -> SealedHeader {
    SealedHeader { header: e.header, hash: e.hash }
}

fn headers_of(v: &Vec<HeaderEntry>) -> (r: Vec<Header>)
    ensures
        r@ == v@.map_values(|e: HeaderEntry| e.header),
{
    let mut r: Vec<Header> = Vec::new();
    let mut i: usize = 0;
    while i < v.len()
        invariant
            i <= v@.len(),
            r@ == v@.take(i as int).map_values(|e: HeaderEntry| e.header),
        decreases v@.len() - i,
    {
        r.push(v[i].header);
        i = i + 1;
        proof {
            assert(v@.take(i as int).drop_last() == v@.take(i - 1));
            assert(r@ =~= v@.take(i as int).map_values(|e: HeaderEntry| e.header));
        }
    }
    proof {
        assert(v@.take(v@.len() as int) == v@);
    }
    r
}

fn hashes_of(v: &Vec<HeaderEntry>) -> (r: Vec<B256>)
    ensures
        r@ == v@.map_values(|e: HeaderEntry| e.hash),
{
    let mut r: Vec<B256> = Vec::new();
    let mut i: usize = 0;
    while i < v.len()
        invariant
            i <= v@.len(),
            r@ == v@.take(i as int).map_values(|e: HeaderEntry| e.hash),
        decreases v@.len() - i,
    {
        r.push(v[i].hash);
        i = i + 1;
        proof {
            assert(v@.take(i as int).drop_last() == v@.take(i - 1));
            assert(r@ =~= v@.take(i as int).map_values(|e: HeaderEntry| e.hash));
        }
    }
    proof {
        assert(v@.take(v@.len() as int) == v@);
    }
    r
}

impl SnapshotProvider {
    /// Header of block `num`.
    pub fn header_by_number(&self, num: u64) -> (r: Result<Option<Header>, ProviderError>)
        requires
            self.wf(),
        ensures
            r == map_row(
                row_spec(
                    self.header_rows(),
                    num,
                    ProviderError::MissingSnapshotBlock(SnapshotSegment::Headers, num),
                ),
                |e: HeaderEntry| e.header,
            ),
    {
        proof {
            lemma_flat_len(self.headers.jars@);
        }
        match self.headers.get(self.blocks_per_snapshot, num) {
            Ok(Some(e)) => Ok(Some(e.header)),
            Ok(None) => Ok(None),
            Err(e) => Err(e),
        }
    }

    /// Total difficulty at block `num`.
    pub fn header_td_by_number(&self, num: u64) -> (r: Result<Option<u128>, ProviderError>)
        requires
            self.wf(),
        ensures
            r == map_row(
                row_spec(
                    self.header_rows(),
                    num,
                    ProviderError::MissingSnapshotBlock(SnapshotSegment::Headers, num),
                ),
                |e: HeaderEntry| e.td,
            ),
    {
        proof {
            lemma_flat_len(self.headers.jars@);
        }
        match self.headers.get(self.blocks_per_snapshot, num) {
            Ok(Some(e)) => Ok(Some(e.td)),
            Ok(None) => Ok(None),
            Err(e) => Err(e),
        }
    }

    /// Header of block `num` with its hash.
    pub fn sealed_header(&self, num: u64) -> (r: Result<Option<SealedHeader>, ProviderError>)
        requires
            self.wf(),
        ensures
            r == map_row(
                row_spec(
                    self.header_rows(),
                    num,
                    ProviderError::MissingSnapshotBlock(SnapshotSegment::Headers, num),
                ),
                |e: HeaderEntry| seal(e),
            ),
    {
        proof {
            lemma_flat_len(self.headers.jars@);
        }
        match self.headers.get(self.blocks_per_snapshot, num) {
            Ok(Some(e)) => Ok(Some(SealedHeader { header: e.header, hash: e.hash })),
            Ok(None) => Ok(None),
            Err(e) => Err(e),
        }
    }

    /// Canonical hash of block `num`.
    pub fn block_hash(&self, num: u64) -> (r: Result<Option<B256>, ProviderError>)
        requires
            self.wf(),
        ensures
            r == map_row(
                row_spec(
                    self.header_rows(),
                    num,
                    ProviderError::MissingSnapshotBlock(SnapshotSegment::Headers, num),
                ),
                |e: HeaderEntry| e.hash,
            ),
    {
        proof {
            lemma_flat_len(self.headers.jars@);
        }
        match self.headers.get(self.blocks_per_snapshot, num) {
            Ok(Some(e)) => Ok(Some(e.hash)),
            Ok(None) => Ok(None),
            Err(e) => Err(e),
        }
    }

    /// Header whose hash is `block_hash`, searched from the highest jar down.
    pub fn header(&self, block_hash: &B256) -> (r: Result<Option<Header>, ProviderError>)
        requires
            self.wf(),
        ensures
            r matches Ok(None) <==> !has_hash(self.header_rows(), *block_hash),
            r is Ok,
            r matches Ok(Some(h)) ==> exists|i: int|
                0 <= i < self.header_rows().len() && (#[trigger] self.header_rows()[i]).hash
                    == *block_hash && self.header_rows()[i].header == h && top_hit_number(
                    self.headers.jars@,
                    i,
                    *block_hash,
                ),
    {
        match self.headers.find_by_hash(*block_hash) {
            Some((n, e)) => {
                assert(self.header_rows()[n as int] == e);
                Ok(Some(e.header))
            },
            None => Ok(None),
        }
    }

    /// Total difficulty of the header whose hash is `block_hash`.
    pub fn header_td(&self, block_hash: &B256) -> (r: Result<Option<u128>, ProviderError>)
        requires
            self.wf(),
        ensures
            r matches Ok(None) <==> !has_hash(self.header_rows(), *block_hash),
            r is Ok,
            r matches Ok(Some(td)) ==> exists|i: int|
                0 <= i < self.header_rows().len() && (#[trigger] self.header_rows()[i]).hash
                    == *block_hash && self.header_rows()[i].td == td && top_hit_number(
                    self.headers.jars@,
                    i,
                    *block_hash,
                ),
    {
        match self.headers.find_by_hash(*block_hash) {
            Some((n, e)) => {
                assert(self.header_rows()[n as int] == e);
                Ok(Some(e.td))
            },
            None => Ok(None),
        }
    }

    /// Headers of blocks `lo..hi`, in order.
    pub fn headers_range(&self, lo: u64, hi: u64) -> (r: Result<Vec<Header>, ProviderError>)
        requires
            self.wf(),
        ensures
            r matches Ok(v) ==> map_range(
                range_spec(self.header_rows(), lo, hi, SnapshotSegment::Headers, true),
                |e: HeaderEntry| e.header,
            ) == Ok::<Seq<Header>, ProviderError>(v@),
            r matches Err(e) ==> range_spec(
                self.header_rows(),
                lo,
                hi,
                SnapshotSegment::Headers,
                true,
            ) == Err::<Seq<HeaderEntry>, ProviderError>(e),
    {
        match self.headers.fetch_all(self.blocks_per_snapshot, lo, hi) {
            Ok(v) => Ok(headers_of(&v)),
            Err(e) => Err(e),
        }
    }

    /// Canonical hashes of blocks `start..end`, in order.
    pub fn canonical_hashes_range(&self, start: u64, end: u64) -> (r: Result<
        Vec<B256>,
        ProviderError,
    >)
        requires
            self.wf(),
        ensures
            r matches Ok(v) ==> map_range(
                range_spec(self.header_rows(), start, end, SnapshotSegment::Headers, true),
                |e: HeaderEntry| e.hash,
            ) == Ok::<Seq<B256>, ProviderError>(v@),
            r matches Err(e) ==> range_spec(
                self.header_rows(),
                start,
                end,
                SnapshotSegment::Headers,
                true,
            ) == Err::<Seq<HeaderEntry>, ProviderError>(e),
    {
        match self.headers.fetch_all(self.blocks_per_snapshot, start, end) {
            Ok(v) => Ok(hashes_of(&v)),
            Err(e) => Err(e),
        }
    }

    /// Receipt of transaction `num`.
    pub fn receipt(&self, num: u64) -> (r: Result<Option<Receipt>, ProviderError>)
        requires
            self.wf(),
        ensures
            r == row_spec(
                self.receipt_rows(),
                num,
                ProviderError::MissingSnapshotTx(SnapshotSegment::Receipts, num),
            ),
    {
        proof {
            lemma_flat_len(self.receipts.jars@);
        }
        self.receipts.get(self.blocks_per_snapshot, num)
    }

    /// Receipts of transactions `lo..hi`, in order.
    pub fn receipts_by_tx_range(&self, lo: u64, hi: u64) -> (r: Result<
        Vec<Receipt>,
        ProviderError,
    >)
        requires
            self.wf(),
        ensures
            r matches Ok(v) ==> range_spec(
                self.receipt_rows(),
                lo,
                hi,
                SnapshotSegment::Receipts,
                false,
            ) == Ok::<Seq<Receipt>, ProviderError>(v@),
            r matches Err(e) ==> range_spec(
                self.receipt_rows(),
                lo,
                hi,
                SnapshotSegment::Receipts,
                false,
            ) == Err::<Seq<Receipt>, ProviderError>(e),
    {
        self.receipts.fetch_all(self.blocks_per_snapshot, lo, hi)
    }

    /// Transaction `num`.
    pub fn transaction_by_id(&self, num: u64) -> (r: Result<
        Option<TransactionSigned>,
        ProviderError,
    >)
        requires
            self.wf(),
        ensures
            r == row_spec(
                self.tx_rows(),
                num,
                ProviderError::MissingSnapshotTx(SnapshotSegment::Transactions, num),
            ),
    {
        proof {
            lemma_flat_len(self.transactions.jars@);
        }
        self.transactions.get(self.blocks_per_snapshot, num)
    }

    /// Transactions `lo..hi`, in order.
    pub fn transactions_by_tx_range(&self, lo: u64, hi: u64) -> (r: Result<
        Vec<TransactionSigned>,
        ProviderError,
    >)
        requires
            self.wf(),
        ensures
            r matches Ok(v) ==> range_spec(
                self.tx_rows(),
                lo,
                hi,
                SnapshotSegment::Transactions,
                false,
            ) == Ok::<Seq<TransactionSigned>, ProviderError>(v@),
            r matches Err(e) ==> range_spec(
                self.tx_rows(),
                lo,
                hi,
                SnapshotSegment::Transactions,
                false,
            ) == Err::<Seq<TransactionSigned>, ProviderError>(e),
    {
        self.transactions.fetch_all(self.blocks_per_snapshot, lo, hi)
    }

    /// Number of the transaction whose hash is `tx_hash`.
    pub fn transaction_id(&self, tx_hash: B256) -> (r: Result<Option<u64>, ProviderError>)
        requires
            self.wf(),
        ensures
            r is Ok,
            r matches Ok(None) <==> !has_hash(self.tx_rows(), tx_hash),
            r matches Ok(Some(n)) ==> n < self.tx_rows().len() && self.tx_rows()[n as int].hash
                == tx_hash && top_hit_number(self.transactions.jars@, n as int, tx_hash),
    {
        match self.transactions.find_by_hash(tx_hash) {
            Some((n, _tx)) => Ok(Some(n)),
            None => Ok(None),
        }
    }

    /// Transaction whose hash is `hash`, searched from the highest jar down.
    pub fn transaction_by_hash(&self, hash: B256) -> (r: Result<
        Option<TransactionSigned>,
        ProviderError,
    >)
        requires
            self.wf(),
        ensures
            r is Ok,
            r matches Ok(None) <==> !has_hash(self.tx_rows(), hash),
            r matches Ok(Some(tx)) ==> tx.hash == hash && exists|i: int|
                0 <= i < self.tx_rows().len() && #[trigger] self.tx_rows()[i] == tx
                    && top_hit_number(self.transactions.jars@, i, hash),
    {
        match self.transactions.find_by_hash(hash) {
            Some((n, tx)) => {
                assert(self.tx_rows()[n as int] == tx);
                Ok(Some(tx))
            },
            None => Ok(None),
        }
    }

    /// Receipt of the transaction whose hash is `hash`.
    pub fn receipt_by_hash(&self, hash: B256) -> (r: Result<Option<Receipt>, ProviderError>)
        requires
            self.wf(),
        ensures
            !has_hash(self.tx_rows(), hash) ==> r == Ok::<Option<Receipt>, ProviderError>(None),
            has_hash(self.tx_rows(), hash) ==> exists|n: u64|
                n < self.tx_rows().len() && (#[trigger] self.tx_rows()[n as int]).hash == hash
                    && top_hit_number(self.transactions.jars@, n as int, hash) && r == row_spec(
                    self.receipt_rows(),
                    n,
                    ProviderError::MissingSnapshotTx(SnapshotSegment::Receipts, n),
                ),
    {
        match self.transaction_id(hash) {
            Ok(Some(n)) => self.receipt(n),
            _ => Ok(None),
        }
    }

    /// Hash and number of transactions `lo..hi`, in order.
    pub fn transaction_hashes_by_range(&self, lo: u64, hi: u64) -> (r: Result<
        Vec<(B256, u64)>,
        ProviderError,
    >)
        requires
            self.wf(),
        ensures
            r matches Ok(v) ==> range_spec(
                self.tx_rows(),
                lo,
                hi,
                SnapshotSegment::Transactions,
                false,
            ) is Ok && v@.len() == range_spec(
                self.tx_rows(),
                lo,
                hi,
                SnapshotSegment::Transactions,
                false,
            )->Ok_0.len() && forall|i: int|
                0 <= i < v@.len() ==> #[trigger] v@[i] == (self.tx_rows()[lo + i].hash, (lo
                    + i) as u64),
            r matches Err(e) ==> range_spec(
                self.tx_rows(),
                lo,
                hi,
                SnapshotSegment::Transactions,
                false,
            ) == Err::<Seq<TransactionSigned>, ProviderError>(e),
    {
        let txs = match self.transactions.fetch_all(self.blocks_per_snapshot, lo, hi) {
            Ok(v) => v,
            Err(e) => {
                return Err(e);
            },
        };
        proof {
            lemma_flat_len(self.transactions.jars@);
            let rs = range_spec(self.tx_rows(), lo, hi, SnapshotSegment::Transactions, false);
            assert(rs is Ok);
            assert(txs@ == rs->Ok_0);
            assert(lo < self.tx_rows().len());
            if hi > lo {
                assert(txs@.len() == hi - lo);
            } else {
                assert(txs@.len() == 0);
            }
            assert(txs@ == self.tx_rows().subrange(lo as int, lo + txs@.len()));
        }
        let mut r: Vec<(B256, u64)> = Vec::new();
        let mut i: usize = 0;
        while i < txs.len()
            invariant
                i <= txs@.len(),
                lo + txs@.len() <= self.tx_rows().len(),
                txs@ == self.tx_rows().subrange(lo as int, lo + txs@.len()),
                r@.len() == i,
                self.tx_rows().len() <= u64::MAX,
                forall|k: int|
                    0 <= k < i ==> #[trigger] r@[k] == (self.tx_rows()[lo + k].hash, (lo
                        + k) as u64),
            decreases txs@.len() - i,
        {
            proof {
                assert(txs@[i as int] == self.tx_rows()[lo + i]);
            }
            r.push((txs[i].hash, lo + i as u64));
            i = i + 1;
        }
        Ok(r)
    }

    /// Signers of transactions `lo..hi`, in order; fails when one does not
    /// recover.
    pub fn senders_by_tx_range(&self, lo: u64, hi: u64) -> (r: Result<
        Vec<Address>,
        ProviderError,
    >)
        requires
            self.wf(),
        ensures
            range_spec(self.tx_rows(), lo, hi, SnapshotSegment::Transactions, false) matches Err(
                e,
            ) ==> r == Err::<Vec<Address>, ProviderError>(e),
            range_spec(self.tx_rows(), lo, hi, SnapshotSegment::Transactions, false) matches Ok(
                s,
            ) ==> (if forall|i: int| 0 <= i < s.len() ==> (#[trigger] s[i]).signer is Some {
                r matches Ok(v) && v@ == s.map_values(|t: TransactionSigned| t.signer->0)
            } else {
                r == Err::<Vec<Address>, ProviderError>(ProviderError::SenderRecoveryError)
            }),
    {
        let txs = match self.transactions.fetch_all(self.blocks_per_snapshot, lo, hi) {
            Ok(v) => v,
            Err(e) => {
                return Err(e);
            },
        };
        let mut r: Vec<Address> = Vec::new();
        let mut i: usize = 0;
        while i < txs.len()
            invariant
                i <= txs@.len(),
                range_spec(self.tx_rows(), lo, hi, SnapshotSegment::Transactions, false) == Ok::<
                    Seq<TransactionSigned>,
                    ProviderError,
                >(txs@),
                forall|k: int| 0 <= k < i ==> (#[trigger] txs@[k]).signer is Some,
                r@ == txs@.take(i as int).map_values(|t: TransactionSigned| t.signer->0),
            decreases txs@.len() - i,
        {
            match txs[i].signer {
                Some(a) => r.push(a),
                None => {
                    proof {
                        assert(txs@[i as int].signer is None);
                    }
                    return Err(ProviderError::SenderRecoveryError);
                },
            }
            i = i + 1;
            proof {
                assert(r@ =~= txs@.take(i as int).map_values(|t: TransactionSigned| t.signer->0));
            }
        }
        proof {
            assert(txs@.take(txs@.len() as int) == txs@);
            assert(r@ == txs@.map_values(|t: TransactionSigned| t.signer->0));
        }
        Ok(r)
    }

    /// Signer of transaction `id`.
    pub fn transaction_sender(&self, id: u64) -> (r: Result<Option<Address>, ProviderError>)
        requires
            self.wf(),
        ensures
            r == (if id < self.tx_rows().len() {
                Ok::<Option<Address>, ProviderError>(self.tx_rows()[id as int].signer)
            } else {
                Err(ProviderError::MissingSnapshotTx(SnapshotSegment::Transactions, id))
            }),
    {
        match self.transaction_by_id(id) {
            Ok(Some(tx)) => Ok(tx.signer),
            Ok(None) => Ok(None),
            Err(e) => Err(e),
        }
    }
}

fn seal_all(v: &Vec<HeaderEntry>) -> (r: Vec<SealedHeader>)
    ensures
        r@ == v@.map_values(|e: HeaderEntry| seal(e)),
{
    let mut r: Vec<SealedHeader> = Vec::new();
    let mut i: usize = 0;
    while i < v.len()
        invariant
            i <= v@.len(),
            r@ == v@.take(i as int).map_values(|e: HeaderEntry| seal(e)),
        decreases v@.len() - i,
    {
        r.push(SealedHeader { header: v[i].header, hash: v[i].hash });
        i = i + 1;
        proof {
            assert(r@ =~= v@.take(i as int).map_values(|e: HeaderEntry| seal(e)));
        }
    }
    proof {
        assert(v@.take(v@.len() as int) == v@);
    }
    r
}

impl SnapshotProvider {
    /// Sealed headers of blocks `lo..hi`, in order, stopping before the
    /// first one that `predicate` rejects.
    pub fn sealed_headers_while<P: Fn(SealedHeader) -> bool>(
        &self,
        lo: u64,
        hi: u64,
        predicate: P,
    ) -> (r: Result<Vec<SealedHeader>, ProviderError>)
        requires
            self.wf(),
            forall|x: SealedHeader| predicate.requires((x,)),
        ensures
            lo >= self.header_rows().len() ==> r == Err::<Vec<SealedHeader>, ProviderError>(
                ProviderError::MissingSnapshotBlock(SnapshotSegment::Headers, lo),
            ),
            lo < self.header_rows().len() && hi <= self.header_rows().len() ==> r is Ok,
            r matches Ok(v) ==> {
                &&& lo + v@.len() <= self.header_rows().len()
                &&& lo + v@.len() <= hi || v@.len() == 0
                &&& lo + v@.len() < hi ==> lo + v@.len() < self.header_rows().len()
                &&& v@ == self.header_rows().subrange(lo as int, lo + v@.len()).map_values(
                    |e: HeaderEntry| seal(e),
                )
                &&& forall|i: int|
                    0 <= i < v@.len() ==> predicate.ensures((#[trigger] v@[i],), true)
                &&& lo + v@.len() < hi ==> predicate.ensures(
                    (seal(self.header_rows()[lo + v@.len()]),),
                    false,
                )
            },
    {
        proof {
            lemma_flat_len(self.headers.jars@);
        }
        let pr = &predicate;
        let sealed = |e: HeaderEntry| -> (b: bool)
            requires
                pr.requires((seal(e),)),
            ensures
                pr.ensures((seal(e),), b),
            { pr(SealedHeader { header: e.header, hash: e.hash }) };
        match self.headers.fetch_range(self.blocks_per_snapshot, lo, hi, sealed) {
            Ok(v) => {
                let r = seal_all(&v);
                proof {
                    assert forall|i: int| 0 <= i < r@.len() implies predicate.ensures(
                        (#[trigger] r@[i],),
                        true,
                    ) by {
                        assert(v@[i] == self.header_rows()[lo + i]);
                        assert(all_pass(self.header_rows(), lo as int, lo + v@.len(), sealed));
                        assert(sealed.ensures((self.header_rows()[lo + i],), true));
                    }
                }
                Ok(r)
            },
            Err(e) => Err(e),
        }
    }
}

} // verus!
