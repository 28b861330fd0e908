use vstd::prelude::*;

use crate::error::ProviderError;
use crate::jar::{lemma_flat_len, total};
use crate::primitives::{HeaderEntry, HighestSnapshots, Receipt, TransactionSigned};
use crate::provider::SnapshotProvider;
use crate::segment::{BlockRange, SnapshotSegment};
use crate::store::{pending_of, pending_rows};

verus! {

/// Block ranges to snapshot, per segment.
#[derive(Clone, Copy, Debug, PartialEq, Eq, Structural)]
pub struct SnapshotTargets {
    pub headers: Option<BlockRange>,
    pub receipts: Option<BlockRange>,
    pub transactions: Option<BlockRange>,
}

/// A target is absent, or starts at zero when nothing is snapshotted, or
/// right after the highest snapshotted block.
pub open spec fn contiguous_to(target: Option<BlockRange>, highest: Option<u64>) -> bool {
    match target {
        None => true,
        Some(r) => match highest {
            None => r.start == 0,
            Some(h) => r.start == h + 1,
        },
    }
}

/// The range from right after `highest` (or zero) to `finalized`, if it is
/// not empty.
pub open spec fn target_for(highest: Option<u64>, finalized: u64) -> Option<BlockRange> {
    let start: int = match highest {
        Some(h) => h + 1,
        None => 0,
    };
    if start <= finalized {
        Some(BlockRange { start: start as u64, end: finalized })
    } else {
        None
    }
}

fn contiguous(target: Option<BlockRange>, highest: Option<u64>) -> (r: bool)
    ensures
        r == contiguous_to(target, highest),
{
    match target {
        None => true,
        Some(r) => match highest {
            None => r.start == 0,
            Some(h) => h < u64::MAX && r.start == h + 1,
        },
    }
}

fn target(highest: Option<u64>, finalized: u64) -> (r: Option<BlockRange>)
    ensures
        r == target_for(highest, finalized),
{
    let start: u64 = match highest {
        Some(h) => {
            if h >= finalized {
                return None;
            }
            h + 1
        },
        None => 0,
    };
    Some(BlockRange { start, end: finalized })
}

impl SnapshotTargets {
    pub open spec fn contiguous_spec(&self, highest: HighestSnapshots) -> bool {
        &&& contiguous_to(self.headers, highest.headers)
        &&& contiguous_to(self.receipts, highest.receipts)
        &&& contiguous_to(self.transactions, highest.transactions)
    }

    /// Whether any segment has a target.
    pub fn any(&self) -> (r: bool)
        ensures
            r == (self.headers is Some || self.receipts is Some || self.transactions is Some),
    {
        self.headers.is_some() || self.receipts.is_some() || self.transactions.is_some()
    }

    /// Whether every target is absent or starts right after the highest
    /// snapshot of its segment (at zero when there is none).
    pub fn is_contiguous_to_highest_snapshots(&self, snapshots: HighestSnapshots) -> (r: bool)
        ensures
            r == self.contiguous_spec(snapshots),
    {
        contiguous(self.headers, snapshots.headers) && contiguous(
            self.receipts,
            snapshots.receipts,
        ) && contiguous(self.transactions, snapshots.transactions)
    }
}

/// The rows of one block of the mutable database, as the snapshotter reads
/// them: the header row, the number of the block's first transaction, and
/// its transactions and receipts.
#[derive(Debug)]
pub struct SourceBlock {
    pub header: HeaderEntry,
    pub first_tx: u64,
    pub transactions: Vec<TransactionSigned>,
    pub receipts: Vec<Receipt>,
}

/// The blocks of `src` (block `i` at position `i`) that `range` selects.
pub open spec fn blocks_in(src: Seq<SourceBlock>, range: Option<BlockRange>) -> Seq<SourceBlock> {
    match range {
        None => Seq::empty(),
        Some(r) => if r.start >= src.len() || r.start > r.end {
            Seq::empty()
        } else {
            src.subrange(
                r.start as int,
                if r.end + 1 < src.len() {
                    r.end + 1
                } else {
                    src.len() as int
                },
            )
        },
    }
}

/// Transactions of `blocks`, block after block.
pub open spec fn txs_of(blocks: Seq<SourceBlock>) -> Seq<TransactionSigned>
    decreases blocks.len(),
{
    if blocks.len() == 0 {
        Seq::empty()
    } else {
        txs_of(blocks.drop_last()) + blocks.last().transactions@
    }
}

/// Receipts of `blocks`, block after block.
pub open spec fn receipts_of(blocks: Seq<SourceBlock>) -> Seq<Receipt>
    decreases blocks.len(),
{
    if blocks.len() == 0 {
        Seq::empty()
    } else {
        receipts_of(blocks.drop_last()) + blocks.last().receipts@
    }
}

/// Drives the promotion of finalized blocks into snapshots.
#[derive(Debug)]
pub struct Snapshotter {
    pub snapshot_provider: SnapshotProvider,
}

impl Snapshotter {
    pub open spec fn wf(&self) -> bool {
        self.snapshot_provider.wf()
    }

    pub fn new(snapshot_provider: SnapshotProvider) -> (r: Self)
        ensures
            r.snapshot_provider == snapshot_provider,
    {
        Snapshotter { snapshot_provider }
    }

    /// Targets up to `finalized_block_number`: for each segment, from right
    /// after its highest snapshot (or zero) to the finalized block, absent
    /// when empty.
    pub fn get_snapshot_targets(&self, finalized_block_number: u64) -> (r: Result<
        SnapshotTargets,
        ProviderError,
    >)
        ensures
            r == Ok::<SnapshotTargets, ProviderError>(
                SnapshotTargets {
                    headers: target_for(
                        self.snapshot_provider.highest_spec(SnapshotSegment::Headers),
                        finalized_block_number,
                    ),
                    receipts: target_for(
                        self.snapshot_provider.highest_spec(SnapshotSegment::Receipts),
                        finalized_block_number,
                    ),
                    transactions: target_for(
                        self.snapshot_provider.highest_spec(SnapshotSegment::Transactions),
                        finalized_block_number,
                    ),
                },
            ),
    {
        let highest = self.snapshot_provider.get_highest_snapshots();
        Ok(
            SnapshotTargets {
                headers: target(highest.headers, finalized_block_number),
                receipts: target(highest.receipts, finalized_block_number),
                transactions: target(highest.transactions, finalized_block_number),
            },
        )
    }
}

/// Header rows of `blocks`.
pub open spec fn headers_of(blocks: Seq<SourceBlock>) -> Seq<HeaderEntry> {
    blocks.map_values(|b: SourceBlock| b.header)
}

/// End (exclusive) of the positions of `src` that `range` selects.
pub open spec fn stop_of(src_len: int, range: BlockRange) -> int {
    if range.end + 1 < src_len {
        range.end + 1
    } else {
        src_len
    }
}

proof fn lemma_blocks_in(src: Seq<SourceBlock>, range: BlockRange)
    ensures
        range.start < stop_of(src.len() as int, range) ==> blocks_in(src, Some(range)) == src.subrange(
            range.start as int,
            stop_of(src.len() as int, range),
        ),
        range.start >= stop_of(src.len() as int, range) ==> blocks_in(src, Some(range)) == Seq::<
            SourceBlock,
        >::empty(),
{
}

proof fn lemma_txs_of_push(src: Seq<SourceBlock>, a: int, b: int)
    requires
        0 <= a <= b < src.len(),
    ensures
        txs_of(src.subrange(a, b + 1)) == txs_of(src.subrange(a, b)) + src[b].transactions@,
        receipts_of(src.subrange(a, b + 1)) == receipts_of(src.subrange(a, b)) + src[b].receipts@,
{
    assert(src.subrange(a, b + 1).drop_last() == src.subrange(a, b));
}

/// The headers writer is open and expects block `range.start` next, and
/// block numbers stay well within `u64`.
pub open spec fn headers_fit(p: SnapshotProvider, range: BlockRange, src: Seq<SourceBlock>) -> bool {
    &&& p.headers.writer is Some
    &&& p.headers.next_number() == range.start
    &&& src.len() + p.per() + 3 < u64::MAX
}

/// Transaction numbers of `blocks` run on from `n0`, with the count of
/// transactions (or, with `receipts`, of receipts) of each block, well within
/// `u64`.
pub open spec fn numbered_from(blocks: Seq<SourceBlock>, n0: int, receipts: bool) -> bool {
    &&& blocks.len() > 0 ==> blocks[0].first_tx == n0
    &&& forall|i: int|
        0 <= i < blocks.len() ==> (#[trigger] blocks[i]).first_tx + count_of(blocks[i], receipts)
            + 3 < u64::MAX
    &&& forall|i: int, j: int|
        #![trigger blocks[i], blocks[j]]
        0 <= i && j == i + 1 && j < blocks.len() ==> blocks[j].first_tx == blocks[i].first_tx
            + count_of(blocks[i], receipts)
}

/// The writer of a transaction-numbered segment is open, the blocks `range`
/// selects are numbered on from its next number, no earlier block than
/// `range.start` is pending, and block numbers stay well within `u64`.
pub open spec fn rows_fit<R: Copy>(
    store: crate::store::SegmentStore<R>,
    per: int,
    range: BlockRange,
    src: Seq<SourceBlock>,
    receipts: bool,
) -> bool {
    &&& store.writer is Some
    &&& numbered_from(blocks_in(src, Some(range)), store.next_number(), receipts)
    &&& crate::store::writer_last_block(store.jars@, store.writer->0.pending@) <= range.start
    &&& src.len() + per + 3 < u64::MAX
}

pub open spec fn count_of(block: SourceBlock, receipts: bool) -> int {
    if receipts {
        block.receipts@.len() as int
    } else {
        block.transactions@.len() as int
    }
}

/// Hands the header rows of the blocks of `src` in `range` to the headers
/// writer.
fn write_headers(p: &mut SnapshotProvider, range: BlockRange, src: &Vec<SourceBlock>) -> (r: Result<
    (),
    ProviderError,
>)
    requires
        old(p).wf(),
    ensures
        final(p).wf(),
        final(p).header_rows() == old(p).header_rows(),
        final(p).headers.jars == old(p).headers.jars,
        final(p).transactions == old(p).transactions,
        final(p).receipts == old(p).receipts,
        final(p).blocks_per_snapshot == old(p).blocks_per_snapshot,
        final(p).path == old(p).path,
        final(p).load_filters == old(p).load_filters,
        r is Ok ==> pending_of(final(p).headers.writer) == pending_of(old(p).headers.writer)
            + headers_of(blocks_in(src@, Some(range))),
        headers_fit(*old(p), range, src@) ==> r is Ok,
{
    let n: usize = src.len();
    let stop: u64 = if range.end < src.len() as u64 {
        range.end + 1
    } else {
        src.len() as u64
    };
    proof {
        lemma_blocks_in(src@, range);
    }
    if range.start >= stop {
        proof {
            assert(headers_of(Seq::<SourceBlock>::empty()) =~= Seq::<HeaderEntry>::empty());
            assert(pending_of(p.headers.writer) =~= pending_of(old(p).headers.writer) + Seq::<HeaderEntry>::empty());
        }
        return Ok(());
    }
    let mut b: u64 = range.start;
    let ghost lo: int = range.start as int;
    let ghost fits = headers_fit(*old(p), range, src@);
    proof {
        assert(headers_of(src@.subrange(lo, lo)) =~= Seq::<HeaderEntry>::empty());
        assert(pending_of(p.headers.writer) =~= pending_of(old(p).headers.writer) + Seq::<HeaderEntry>::empty());
    }
    while b < stop
        invariant
            p.wf(),
            p.header_rows() == old(p).header_rows(),
            p.headers.jars == old(p).headers.jars,
            p.transactions == old(p).transactions,
            p.receipts == old(p).receipts,
            p.blocks_per_snapshot == old(p).blocks_per_snapshot,
            p.path == old(p).path,
            p.load_filters == old(p).load_filters,
            stop == stop_of(src@.len() as int, range),
            stop <= src@.len(),
            src@.len() == n,
            lo == range.start,
            lo <= b <= stop,
            fits == headers_fit(*old(p), range, src@),
            fits ==> p.headers.writer is Some && p.headers.next_number() == b,
            fits ==> src@.len() + p.per() + 3 < u64::MAX,
            pending_of(p.headers.writer) == pending_of(old(p).headers.writer) + headers_of(
                src@.subrange(lo, b as int),
            ),
        decreases stop - b,
    {
        let e = src[b as usize].header;
        let ghost w0 = p.headers.writer;
        match p.append_header(b, e.td, e.hash, e.header) {
            Ok(()) => {
                proof {
                    if fits {
                        assert(pending_of(w0).len() == w0->0.pending@.len());
                        assert(pending_of(p.headers.writer).len()
                            == p.headers.writer->0.pending@.len());
                    }
                }
            },
            Err(err) => {
                return Err(err);
            },
        }
        proof {
            let s0 = src@.subrange(lo, b as int);
            let s1 = src@.subrange(lo, b + 1);
            assert(s1 =~= s0.push(src@[b as int]));
            assert(headers_of(s0.push(src@[b as int])) =~= headers_of(s0).push(e));
            assert(pending_of(p.headers.writer) =~= pending_of(old(p).headers.writer) + headers_of(
                src@.subrange(lo, b + 1),
            ));
        }
        b = b + 1;
    }
    Ok(())
}

/// Hands the transactions of the blocks of `src` in `range` to the transactions writer,
/// numbered from each block's first transaction.
fn write_transactions(p: &mut SnapshotProvider, range: BlockRange, src: &Vec<SourceBlock>) -> (r: Result<
    (),
    ProviderError,
>)
    requires
        old(p).wf(),
    ensures
        final(p).wf(),
        final(p).tx_rows() == old(p).tx_rows(),
        final(p).transactions.jars == old(p).transactions.jars,
        final(p).headers == old(p).headers,
        final(p).receipts == old(p).receipts,
        final(p).blocks_per_snapshot == old(p).blocks_per_snapshot,
        final(p).path == old(p).path,
        final(p).load_filters == old(p).load_filters,
        rows_fit(old(p).transactions, old(p).per(), range, src@, false) ==> r is Ok,
        r is Ok && rows_fit(old(p).transactions, old(p).per(), range, src@, false) ==> (final(p).transactions.writer is Some),
        r is Ok && rows_fit(old(p).transactions, old(p).per(), range, src@, false)
            && old(p).transactions.writer->0.pending@.len() == 0 ==> forall|i: int|
            0 <= i < final(p).transactions.writer->0.pending@.len() ==> (
            #[trigger] final(p).transactions.writer->0.pending@[i]).0 < stop_of(src@.len() as int, range),
        r is Ok ==> pending_of(final(p).transactions.writer) == pending_of(old(p).transactions.writer)
            + txs_of(blocks_in(src@, Some(range))),
{
    let n: usize = src.len();
    let stop: u64 = if range.end < src.len() as u64 {
        range.end + 1
    } else {
        src.len() as u64
    };
    proof {
        lemma_blocks_in(src@, range);
    }
    if range.start >= stop {
        proof {
            assert(txs_of(Seq::<SourceBlock>::empty()) =~= Seq::<TransactionSigned>::empty());
            assert(pending_of(p.transactions.writer) =~= pending_of(old(p).transactions.writer) + Seq::<
                TransactionSigned,
            >::empty());
        }
        return Ok(());
    }
    let mut b: u64 = range.start;
    let ghost lo: int = range.start as int;
    let ghost fits = rows_fit(old(p).transactions, old(p).per(), range, src@, false);
    let ghost clean = fits && old(p).transactions.writer->0.pending@.len() == 0;
    proof {
        assert(src@.subrange(lo, lo) =~= Seq::<SourceBlock>::empty());
        assert(txs_of(src@.subrange(lo, lo)) =~= Seq::<TransactionSigned>::empty());
        assert(pending_of(p.transactions.writer) =~= pending_of(old(p).transactions.writer) + Seq::<
            TransactionSigned,
        >::empty());
    }
    while b < stop
        invariant
            p.wf(),
            p.tx_rows() == old(p).tx_rows(),
            p.transactions.jars == old(p).transactions.jars,
            p.headers == old(p).headers,
            p.receipts == old(p).receipts,
            p.blocks_per_snapshot == old(p).blocks_per_snapshot,
            p.path == old(p).path,
            p.load_filters == old(p).load_filters,
            stop == stop_of(src@.len() as int, range),
            stop <= src@.len(),
            src@.len() == n,
            lo == range.start,
            lo <= b <= stop,
            fits == rows_fit(old(p).transactions, old(p).per(), range, src@, false),
            fits ==> p.transactions.writer is Some,
            fits ==> src@.len() + p.per() + 3 < u64::MAX,
            fits ==> crate::store::writer_last_block(p.transactions.jars@, p.transactions.writer->0.pending@) <= b,
            fits ==> blocks_in(src@, Some(range)) == src@.subrange(lo, stop as int),
            fits ==> numbered_from(src@.subrange(lo, stop as int), old(p).transactions.next_number(), false),
            fits && b < stop ==> p.transactions.next_number() == src@[b as int].first_tx,
            clean == (fits && old(p).transactions.writer->0.pending@.len() == 0),
            clean ==> forall|i: int|
                0 <= i < p.transactions.writer->0.pending@.len() ==> (
                #[trigger] p.transactions.writer->0.pending@[i]).0 < b,
            pending_of(p.transactions.writer) == pending_of(old(p).transactions.writer) + txs_of(
                src@.subrange(lo, b as int),
            ),
        decreases stop - b,
    {
        let block = &src[b as usize];
        let count: usize = block.transactions.len();
        proof {
            if fits {
                let bl = src@.subrange(lo, stop as int);
                assert(bl[b - lo] == src@[b as int]);
                assert(src@[b as int].first_tx + count_of(src@[b as int], false) + 3 < u64::MAX);
            }
        }
        if block.first_tx > u64::MAX - count as u64 {
            return Err(ProviderError::UnexpectedAppend(SnapshotSegment::Transactions, u64::MAX, block.first_tx));
        }
        let ghost before = pending_of(p.transactions.writer);
        let mut k: usize = 0;
        while k < count
            invariant
                p.wf(),
                p.tx_rows() == old(p).tx_rows(),
                p.transactions.jars == old(p).transactions.jars,
                p.headers == old(p).headers,
                p.receipts == old(p).receipts,
                p.blocks_per_snapshot == old(p).blocks_per_snapshot,
                p.path == old(p).path,
                p.load_filters == old(p).load_filters,
                *block == src@[b as int],
                count == block.transactions@.len(),
                block.first_tx + count <= u64::MAX,
                k <= count,
                b < stop,
                stop <= src@.len(),
                lo <= b,
                fits == rows_fit(old(p).transactions, old(p).per(), range, src@, false),
                fits ==> p.transactions.writer is Some,
                fits ==> src@.len() + p.per() + 3 < u64::MAX,
                fits ==> crate::store::writer_last_block(p.transactions.jars@, p.transactions.writer->0.pending@) <= b,
                fits ==> p.transactions.next_number() == block.first_tx + k,
                clean == (fits && old(p).transactions.writer->0.pending@.len() == 0),
                clean ==> forall|i: int|
                    0 <= i < p.transactions.writer->0.pending@.len() ==> (
                    #[trigger] p.transactions.writer->0.pending@[i]).0 <= b,
                fits ==> block.first_tx + count + 3 < u64::MAX,
                pending_of(p.transactions.writer) == before + block.transactions@.take(k as int),
            decreases count - k,
        {
            let ghost w0 = p.transactions.writer;
            match p.append_transaction(b, block.first_tx + k as u64, block.transactions[k]) {
                Ok(()) => {
                    proof {
                        if fits {
                            assert(pending_of(w0).len() == w0->0.pending@.len());
                            assert(pending_of(p.transactions.writer).len()
                                == p.transactions.writer->0.pending@.len());
                            assert(p.transactions.writer->0.pending@ == w0->0.pending@.push((b, block.transactions@[k as int])));
                        }
                    }
                },
                Err(err) => {
                    return Err(err);
                },
            }
            k = k + 1;
            proof {
                assert(block.transactions@.take(k as int) =~= block.transactions@.take(k - 1).push(
                    block.transactions@[k - 1],
                ));
                assert(pending_of(p.transactions.writer) =~= before + block.transactions@.take(k as int));
            }
        }
        proof {
            assert(block.transactions@.take(count as int) =~= block.transactions@);
            if fits && b + 1 < stop {
                let bl = src@.subrange(lo, stop as int);
                assert(bl[b - lo] == src@[b as int]);
                assert(bl[b + 1 - lo] == src@[b + 1]);
            }
            lemma_txs_of_push(src@, lo, b as int);
            assert(pending_of(p.transactions.writer) =~= pending_of(old(p).transactions.writer) + txs_of(
                src@.subrange(lo, b + 1),
            ));
        }
        b = b + 1;
    }
    Ok(())
}

/// Hands the receipts of the blocks of `src` in `range` to the receipts writer,
/// numbered from each block's first transaction.
fn write_receipts(p: &mut SnapshotProvider, range: BlockRange, src: &Vec<SourceBlock>) -> (r: Result<
    (),
    ProviderError,
>)
    requires
        old(p).wf(),
    ensures
        final(p).wf(),
        final(p).receipt_rows() == old(p).receipt_rows(),
        final(p).receipts.jars == old(p).receipts.jars,
        final(p).headers == old(p).headers,
        final(p).transactions == old(p).transactions,
        final(p).blocks_per_snapshot == old(p).blocks_per_snapshot,
        final(p).path == old(p).path,
        final(p).load_filters == old(p).load_filters,
        rows_fit(old(p).receipts, old(p).per(), range, src@, true) ==> r is Ok,
        r is Ok && rows_fit(old(p).receipts, old(p).per(), range, src@, true) ==> (final(p).receipts.writer is Some),
        r is Ok && rows_fit(old(p).receipts, old(p).per(), range, src@, true)
            && old(p).receipts.writer->0.pending@.len() == 0 ==> forall|i: int|
            0 <= i < final(p).receipts.writer->0.pending@.len() ==> (
            #[trigger] final(p).receipts.writer->0.pending@[i]).0 < stop_of(src@.len() as int, range),
        r is Ok ==> pending_of(final(p).receipts.writer) == pending_of(old(p).receipts.writer)
            + receipts_of(blocks_in(src@, Some(range))),
{
    let n: usize = src.len();
    let stop: u64 = if range.end < src.len() as u64 {
        range.end + 1
    } else {
        src.len() as u64
    };
    proof {
        lemma_blocks_in(src@, range);
    }
    if range.start >= stop {
        proof {
            assert(receipts_of(Seq::<SourceBlock>::empty()) =~= Seq::<Receipt>::empty());
            assert(pending_of(p.receipts.writer) =~= pending_of(old(p).receipts.writer) + Seq::<
                Receipt,
            >::empty());
        }
        return Ok(());
    }
    let mut b: u64 = range.start;
    let ghost lo: int = range.start as int;
    let ghost fits = rows_fit(old(p).receipts, old(p).per(), range, src@, true);
    let ghost clean = fits && old(p).receipts.writer->0.pending@.len() == 0;
    proof {
        assert(src@.subrange(lo, lo) =~= Seq::<SourceBlock>::empty());
        assert(receipts_of(src@.subrange(lo, lo)) =~= Seq::<Receipt>::empty());
        assert(pending_of(p.receipts.writer) =~= pending_of(old(p).receipts.writer) + Seq::<
            Receipt,
        >::empty());
    }
    while b < stop
        invariant
            p.wf(),
            p.receipt_rows() == old(p).receipt_rows(),
            p.receipts.jars == old(p).receipts.jars,
            p.headers == old(p).headers,
            p.transactions == old(p).transactions,
            p.blocks_per_snapshot == old(p).blocks_per_snapshot,
            p.path == old(p).path,
            p.load_filters == old(p).load_filters,
            stop == stop_of(src@.len() as int, range),
            stop <= src@.len(),
            src@.len() == n,
            lo == range.start,
            lo <= b <= stop,
            fits == rows_fit(old(p).receipts, old(p).per(), range, src@, true),
            fits ==> p.receipts.writer is Some,
            fits ==> src@.len() + p.per() + 3 < u64::MAX,
            fits ==> crate::store::writer_last_block(p.receipts.jars@, p.receipts.writer->0.pending@) <= b,
            fits ==> blocks_in(src@, Some(range)) == src@.subrange(lo, stop as int),
            fits ==> numbered_from(src@.subrange(lo, stop as int), old(p).receipts.next_number(), true),
            fits && b < stop ==> p.receipts.next_number() == src@[b as int].first_tx,
            clean == (fits && old(p).receipts.writer->0.pending@.len() == 0),
            clean ==> forall|i: int|
                0 <= i < p.receipts.writer->0.pending@.len() ==> (
                #[trigger] p.receipts.writer->0.pending@[i]).0 < b,
            pending_of(p.receipts.writer) == pending_of(old(p).receipts.writer) + receipts_of(
                src@.subrange(lo, b as int),
            ),
        decreases stop - b,
    {
        let block = &src[b as usize];
        let count: usize = block.receipts.len();
        proof {
            if fits {
                let bl = src@.subrange(lo, stop as int);
                assert(bl[b - lo] == src@[b as int]);
                assert(src@[b as int].first_tx + count_of(src@[b as int], true) + 3 < u64::MAX);
            }
        }
        if block.first_tx > u64::MAX - count as u64 {
            return Err(ProviderError::UnexpectedAppend(SnapshotSegment::Receipts, u64::MAX, block.first_tx));
        }
        let ghost before = pending_of(p.receipts.writer);
        let mut k: usize = 0;
        while k < count
            invariant
                p.wf(),
                p.receipt_rows() == old(p).receipt_rows(),
                p.receipts.jars == old(p).receipts.jars,
                p.headers == old(p).headers,
                p.transactions == old(p).transactions,
                p.blocks_per_snapshot == old(p).blocks_per_snapshot,
                p.path == old(p).path,
                p.load_filters == old(p).load_filters,
                *block == src@[b as int],
                count == block.receipts@.len(),
                block.first_tx + count <= u64::MAX,
                k <= count,
                b < stop,
                stop <= src@.len(),
                lo <= b,
                fits == rows_fit(old(p).receipts, old(p).per(), range, src@, true),
                fits ==> p.receipts.writer is Some,
                fits ==> src@.len() + p.per() + 3 < u64::MAX,
                fits ==> crate::store::writer_last_block(p.receipts.jars@, p.receipts.writer->0.pending@) <= b,
                fits ==> p.receipts.next_number() == block.first_tx + k,
                clean == (fits && old(p).receipts.writer->0.pending@.len() == 0),
                clean ==> forall|i: int|
                    0 <= i < p.receipts.writer->0.pending@.len() ==> (
                    #[trigger] p.receipts.writer->0.pending@[i]).0 <= b,
                fits ==> block.first_tx + count + 3 < u64::MAX,
                pending_of(p.receipts.writer) == before + block.receipts@.take(k as int),
            decreases count - k,
        {
            let ghost w0 = p.receipts.writer;
            match p.append_receipt(b, block.first_tx + k as u64, block.receipts[k]) {
                Ok(()) => {
                    proof {
                        if fits {
                            assert(pending_of(w0).len() == w0->0.pending@.len());
                            assert(pending_of(p.receipts.writer).len()
                                == p.receipts.writer->0.pending@.len());
                            assert(p.receipts.writer->0.pending@ == w0->0.pending@.push((b, block.receipts@[k as int])));
                        }
                    }
                },
                Err(err) => {
                    return Err(err);
                },
            }
            k = k + 1;
            proof {
                assert(block.receipts@.take(k as int) =~= block.receipts@.take(k - 1).push(
                    block.receipts@[k - 1],
                ));
                assert(pending_of(p.receipts.writer) =~= before + block.receipts@.take(k as int));
            }
        }
        proof {
            assert(block.receipts@.take(count as int) =~= block.receipts@);
            if fits && b + 1 < stop {
                let bl = src@.subrange(lo, stop as int);
                assert(bl[b - lo] == src@[b as int]);
                assert(bl[b + 1 - lo] == src@[b + 1]);
            }
            lemma_txs_of_push(src@, lo, b as int);
            assert(pending_of(p.receipts.writer) =~= pending_of(old(p).receipts.writer) + receipts_of(
                src@.subrange(lo, b + 1),
            ));
        }
        b = b + 1;
    }
    Ok(())
}

/// The last block of `source` that `target` selects, if any.
pub open spec fn selected_end(src_len: int, target: Option<BlockRange>) -> Option<u64> {
    match target {
        Some(r) => if r.start < stop_of(src_len, r) {
            Some((stop_of(src_len, r) - 1) as u64)
        } else {
            None
        },
        None => None,
    }
}

/// The highest block of a segment after a run: the last selected block, or
/// the previous highest when nothing is selected.
pub open spec fn highest_after(before: Option<u64>, selected: Option<u64>) -> Option<u64> {
    match selected {
        Some(b) => Some(b),
        None => before,
    }
}

/// Extends a transaction-numbered segment to the last block of `range` that
/// `source` holds, so that blocks without transactions count as covered.
fn cover_selected(p: &mut SnapshotProvider, segment: SnapshotSegment, range: BlockRange, src_len: usize)
    requires
        old(p).wf(),
        !(segment is Headers),
        old(p).pending(segment) == 0,
    ensures
        final(p).wf(),
        final(p).header_rows() == old(p).header_rows(),
        final(p).tx_rows() == old(p).tx_rows(),
        final(p).receipt_rows() == old(p).receipt_rows(),
        forall|s: SnapshotSegment| s != segment ==> #[trigger] final(p).highest_spec(s)
            == old(p).highest_spec(s),
        forall|s: SnapshotSegment| #[trigger] final(p).pending(s) == old(p).pending(s),
        final(p).blocks_per_snapshot == old(p).blocks_per_snapshot,
        src_len + old(p).per() + 3 < u64::MAX && range.start < stop_of(src_len as int, range)
            ==> final(p).highest_spec(segment) == (match old(p).highest_spec(segment) {
            Some(m) => if m >= stop_of(src_len as int, range) - 1 {
                Some(m)
            } else {
                Some((stop_of(src_len as int, range) - 1) as u64)
            },
            None => Some((stop_of(src_len as int, range) - 1) as u64),
        }),
        range.start >= stop_of(src_len as int, range) ==> final(p).highest_spec(segment) == old(
            p,
        ).highest_spec(segment),
{
    let stop: u64 = if range.end < src_len as u64 {
        range.end + 1
    } else {
        src_len as u64
    };
    if range.start < stop && stop - 1 <= u64::MAX - p.blocks_per_snapshot {
        p.extend_coverage(segment, stop - 1);
    }
}

impl Snapshotter {
    /// Highest snapshotted block of every segment.
    pub open spec fn highest(&self) -> HighestSnapshots {
        HighestSnapshots {
            headers: self.snapshot_provider.highest_spec(SnapshotSegment::Headers),
            receipts: self.snapshot_provider.highest_spec(SnapshotSegment::Receipts),
            transactions: self.snapshot_provider.highest_spec(SnapshotSegment::Transactions),
        }
    }

    /// `run` succeeds when the targets are contiguous to the highest
    /// snapshots, no writer of a targeted segment holds rows, the source's
    /// transaction numbers run on from those already snapshotted, and block
    /// numbers stay well within `u64`.
    pub open spec fn run_fits(&self, targets: SnapshotTargets, source: Seq<SourceBlock>) -> bool {
        let p = self.snapshot_provider;
        &&& targets.contiguous_spec(self.highest())
        &&& source.len() + p.per() + 3 < u64::MAX
        &&& targets.headers is Some ==> p.pending(SnapshotSegment::Headers) == 0
        &&& targets.transactions is Some ==> p.pending(SnapshotSegment::Transactions) == 0
            && numbered_from(blocks_in(source, targets.transactions), p.tx_rows().len() as int, false)
        &&& targets.receipts is Some ==> p.pending(SnapshotSegment::Receipts) == 0
            && numbered_from(blocks_in(source, targets.receipts), p.receipt_rows().len() as int, true)
    }

    /// Snapshots `targets` from `source`, where block `i` stands at position
    /// `i`: blocks of a target that `source` lacks are skipped. Then commits
    /// every writer and refreshes the index. On an error the writers are
    /// dropped and the snapshots are left as they were.
    #[verifier::rlimit(80)]
    pub fn run(&mut self, targets: SnapshotTargets, source: &Vec<SourceBlock>) -> (r: Result<
        SnapshotTargets,
        ProviderError,
    >)
        requires
            old(self).wf(),
        ensures
            final(self).wf(),
            !targets.contiguous_spec(old(self).highest()) ==> r == Err::<
                SnapshotTargets,
                ProviderError,
            >(ProviderError::NonContiguousTargets),
            r is Ok ==> r == Ok::<SnapshotTargets, ProviderError>(targets),
            old(self).run_fits(targets, source@) && old(self).snapshot_provider.pending(
                SnapshotSegment::Headers,
            ) == 0 ==> final(self).snapshot_provider.highest_spec(SnapshotSegment::Headers)
                == highest_after(
                old(self).snapshot_provider.highest_spec(SnapshotSegment::Headers),
                selected_end(source@.len() as int, targets.headers),
            ),
            old(self).run_fits(targets, source@) && old(self).snapshot_provider.pending(
                SnapshotSegment::Transactions,
            ) == 0 ==> final(self).snapshot_provider.highest_spec(SnapshotSegment::Transactions)
                == highest_after(
                old(self).snapshot_provider.highest_spec(SnapshotSegment::Transactions),
                selected_end(source@.len() as int, targets.transactions),
            ),
            old(self).run_fits(targets, source@) && old(self).snapshot_provider.pending(
                SnapshotSegment::Receipts,
            ) == 0 ==> final(self).snapshot_provider.highest_spec(SnapshotSegment::Receipts)
                == highest_after(
                old(self).snapshot_provider.highest_spec(SnapshotSegment::Receipts),
                selected_end(source@.len() as int, targets.receipts),
            ),
            old(self).run_fits(targets, source@) ==> r is Ok,
            r is Ok ==> final(self).snapshot_provider.header_rows() == old(
                self,
            ).snapshot_provider.header_rows() + pending_of(old(self).snapshot_provider.headers.writer)
                + headers_of(blocks_in(source@, targets.headers)),
            r is Ok ==> final(self).snapshot_provider.tx_rows() == old(
                self,
            ).snapshot_provider.tx_rows() + pending_of(
                old(self).snapshot_provider.transactions.writer,
            ) + txs_of(blocks_in(source@, targets.transactions)),
            r is Ok ==> final(self).snapshot_provider.receipt_rows() == old(
                self,
            ).snapshot_provider.receipt_rows() + pending_of(old(self).snapshot_provider.receipts.writer)
                + receipts_of(blocks_in(source@, targets.receipts)),
            r is Err ==> final(self).snapshot_provider.headers.jars@ == old(
                self,
            ).snapshot_provider.headers.jars@,
            r is Err ==> final(self).snapshot_provider.transactions.jars@ == old(
                self,
            ).snapshot_provider.transactions.jars@,
            r is Err ==> final(self).snapshot_provider.receipts.jars@ == old(
                self,
            ).snapshot_provider.receipts.jars@,
            r is Err ==> final(self).snapshot_provider.same_index(old(self).snapshot_provider),
            r is Err ==> final(self).snapshot_provider.header_rows() == old(
                self,
            ).snapshot_provider.header_rows(),
            r is Err ==> final(self).snapshot_provider.tx_rows() == old(
                self,
            ).snapshot_provider.tx_rows(),
            r is Err ==> final(self).snapshot_provider.receipt_rows() == old(
                self,
            ).snapshot_provider.receipt_rows(),
            final(self).snapshot_provider.blocks_per_snapshot == old(
                self,
            ).snapshot_provider.blocks_per_snapshot,
    {
        let highest = self.snapshot_provider.get_highest_snapshots();
        if !targets.is_contiguous_to_highest_snapshots(highest) {
            return Err(ProviderError::NonContiguousTargets);
        }
        let ghost at_start = self.snapshot_provider;
        let ghost fits = old(self).run_fits(targets, source@);
        proof {
            lemma_flat_len(at_start.headers.jars@);
            lemma_flat_len(at_start.transactions.jars@);
            lemma_flat_len(at_start.receipts.jars@);
            crate::store::lemma_next_block_total(at_start.headers.jars@, at_start.per());
        }
        if let Some(range) = targets.headers {
            self.snapshot_provider.writer(range.start, SnapshotSegment::Headers);
            proof {
                let w = self.snapshot_provider.headers.writer;
                assert(pending_of(w).len() == w->0.pending@.len());
                lemma_flat_len(self.snapshot_provider.headers.jars@);
                if fits {
                    let jars = self.snapshot_provider.headers.jars@;
                    if jars.len() > 0 {
                        assert(jars.last() == jars[jars.len() - 1]);
                    }
                }
            }
            if let Err(e) = write_headers(&mut self.snapshot_provider, range, source) {
                self.snapshot_provider.discard_writers();
                proof {
                    crate::laws::index_is_determined_by_jars(self.snapshot_provider, at_start);
                }
                return Err(e);
            }
        } else {
            proof {
                assert(headers_of(Seq::<SourceBlock>::empty()) =~= Seq::<HeaderEntry>::empty());
                assert(pending_of(self.snapshot_provider.headers.writer) =~= pending_of(at_start.headers.writer) + Seq::<HeaderEntry>::empty());
            }
        }
        let ghost after_headers = self.snapshot_provider;
        if let Some(range) = targets.transactions {
            self.snapshot_provider.writer(range.start, SnapshotSegment::Transactions);
            proof {
                let w = self.snapshot_provider.transactions.writer;
                assert(pending_of(w).len() == w->0.pending@.len());
                lemma_flat_len(self.snapshot_provider.transactions.jars@);
                if fits {
                    let jars = self.snapshot_provider.transactions.jars@;
                    if jars.len() > 0 {
                        assert(jars.last() == jars[jars.len() - 1]);
                    }
                }
            }
            let ghost opened = self.snapshot_provider;
            proof {
                if fits {
                    assert(opened.transactions.writer->0.pending@.len() == 0);
                }
            }
            if let Err(e) = write_transactions(&mut self.snapshot_provider, range, source) {
                self.snapshot_provider.discard_writers();
                proof {
                    crate::laws::index_is_determined_by_jars(self.snapshot_provider, at_start);
                }
                return Err(e);
            }
            proof {
                if fits {
                    let w = self.snapshot_provider.transactions.writer;
                    assert(w is Some);
                    lemma_blocks_in(source@, range);
                    assert(forall|i: int|
                        0 <= i < w->0.pending@.len() ==> (#[trigger] w->0.pending@[i]).0
                            < stop_of(source@.len() as int, range));
                    assert(pending_of(w).len() == w->0.pending@.len());
                    if range.start >= stop_of(source@.len() as int, range) {
                        assert(txs_of(Seq::<SourceBlock>::empty()).len() == 0);
                        assert(w->0.pending@.len() == 0);
                    }
                }
            }
        } else {
            proof {
                assert(txs_of(Seq::<SourceBlock>::empty()) =~= Seq::<TransactionSigned>::empty());
                assert(pending_of(self.snapshot_provider.transactions.writer) =~= pending_of(after_headers.transactions.writer) + Seq::<TransactionSigned>::empty());
            }
        }
        let ghost after_transactions = self.snapshot_provider;
        if let Some(range) = targets.receipts {
            self.snapshot_provider.writer(range.start, SnapshotSegment::Receipts);
            proof {
                let w = self.snapshot_provider.receipts.writer;
                assert(pending_of(w).len() == w->0.pending@.len());
                lemma_flat_len(self.snapshot_provider.receipts.jars@);
                if fits {
                    let jars = self.snapshot_provider.receipts.jars@;
                    if jars.len() > 0 {
                        assert(jars.last() == jars[jars.len() - 1]);
                    }
                }
            }
            let ghost opened = self.snapshot_provider;
            proof {
                if fits {
                    assert(opened.receipts.writer->0.pending@.len() == 0);
                }
            }
            if let Err(e) = write_receipts(&mut self.snapshot_provider, range, source) {
                self.snapshot_provider.discard_writers();
                proof {
                    crate::laws::index_is_determined_by_jars(self.snapshot_provider, at_start);
                }
                return Err(e);
            }
            proof {
                if fits {
                    let w = self.snapshot_provider.receipts.writer;
                    assert(w is Some);
                    lemma_blocks_in(source@, range);
                    assert(forall|i: int|
                        0 <= i < w->0.pending@.len() ==> (#[trigger] w->0.pending@[i]).0
                            < stop_of(source@.len() as int, range));
                    assert(pending_of(w).len() == w->0.pending@.len());
                    if range.start >= stop_of(source@.len() as int, range) {
                        assert(receipts_of(Seq::<SourceBlock>::empty()).len() == 0);
                        assert(w->0.pending@.len() == 0);
                    }
                }
            }
        } else {
            proof {
                assert(receipts_of(Seq::<SourceBlock>::empty()) =~= Seq::<Receipt>::empty());
                assert(pending_of(self.snapshot_provider.receipts.writer) =~= pending_of(after_transactions.receipts.writer) + Seq::<Receipt>::empty());
            }
        }
        let ghost before_commit = self.snapshot_provider;
        self.snapshot_provider.commit();
        let ghost after_commit = self.snapshot_provider;
        if let Some(range) = targets.transactions {
            cover_selected(&mut self.snapshot_provider, SnapshotSegment::Transactions, range, source.len());
        }
        let ghost after_tx_cover = self.snapshot_provider;
        if let Some(range) = targets.receipts {
            cover_selected(&mut self.snapshot_provider, SnapshotSegment::Receipts, range, source.len());
        }
        let ghost after_covers = self.snapshot_provider;
        proof {
            assert(after_covers.highest_spec(SnapshotSegment::Transactions)
                == after_tx_cover.highest_spec(SnapshotSegment::Transactions));
            assert(after_covers.highest_spec(SnapshotSegment::Headers)
                == after_commit.highest_spec(SnapshotSegment::Headers));
            assert(after_tx_cover.highest_spec(SnapshotSegment::Receipts)
                == after_commit.highest_spec(SnapshotSegment::Receipts));
        }
        self.snapshot_provider.update_index();
        proof {
            let f = self.snapshot_provider;
            if fits {
                if let Some(range) = targets.transactions {
                    let tw = before_commit.transactions.writer;
                    assert(tw is Some);
                    if tw->0.pending@.len() > 0 {
                        let l = tw->0.pending@.len() - 1;
                        assert(tw->0.pending@.last() == tw->0.pending@[l]);
                        assert(tw->0.pending@[l].0 < stop_of(source@.len() as int, range));
                    } else {
                        assert(pending_of(tw).len() == 0);
                        assert(after_commit.highest_spec(SnapshotSegment::Transactions)
                            == at_start.highest_spec(SnapshotSegment::Transactions));
                    }
                    let st = stop_of(source@.len() as int, range);
                    if range.start < st {
                        assert(after_commit.highest_spec(SnapshotSegment::Transactions) matches Some(m) ==> m < st);
                        assert(after_tx_cover.highest_spec(SnapshotSegment::Transactions) == Some((st - 1) as u64));
                    } else {
                        assert(after_tx_cover.highest_spec(SnapshotSegment::Transactions) == at_start.highest_spec(SnapshotSegment::Transactions));
                    }
                    assert(f.highest_spec(SnapshotSegment::Transactions) == after_tx_cover.highest_spec(SnapshotSegment::Transactions));
                }
                if let Some(range) = targets.receipts {
                    let rw = before_commit.receipts.writer;
                    assert(rw is Some);
                    if rw->0.pending@.len() > 0 {
                        let l = rw->0.pending@.len() - 1;
                        assert(rw->0.pending@.last() == rw->0.pending@[l]);
                        assert(rw->0.pending@[l].0 < stop_of(source@.len() as int, range));
                    } else {
                        assert(pending_of(rw).len() == 0);
                        assert(after_commit.highest_spec(SnapshotSegment::Receipts)
                            == at_start.highest_spec(SnapshotSegment::Receipts));
                    }
                    let st = stop_of(source@.len() as int, range);
                    if range.start < st {
                        assert(after_commit.highest_spec(SnapshotSegment::Receipts) matches Some(m) ==> m < st);
                        assert(after_covers.highest_spec(SnapshotSegment::Receipts) == Some((st - 1) as u64));
                    } else {
                        assert(after_covers.highest_spec(SnapshotSegment::Receipts) == at_start.highest_spec(SnapshotSegment::Receipts));
                    }
                }
            }
            lemma_flat_len(f.headers.jars@);
            crate::store::lemma_next_block_total(f.headers.jars@, f.per());
            if f.headers.jars@.len() > 0 {
                assert(f.headers.jars@.last() == f.headers.jars@[f.headers.jars@.len() - 1]);
            }
            if fits {
                if let Some(range) = targets.headers {
                    lemma_blocks_in(source@, range);
                    let n = blocks_in(source@, targets.headers).len();
                    assert(headers_of(blocks_in(source@, targets.headers)).len() == n);
                    assert(pending_of(at_start.headers.writer).len() == 0);
                    if range.start < stop_of(source@.len() as int, range) {
                        assert(n == stop_of(source@.len() as int, range) - range.start);
                    }
                }
                let tw = before_commit.transactions.writer;
                if tw is Some {
                    assert(pending_of(tw).len() == tw->0.pending@.len());
                    if tw->0.pending@.len() > 0 {
                        let l = tw->0.pending@.len() - 1;
                        assert(tw->0.pending@.last() == tw->0.pending@[l]);
                    }
                }
                if let Some(range) = targets.transactions {
                    lemma_blocks_in(source@, range);
                }
                let rw = before_commit.receipts.writer;
                if rw is Some {
                    assert(pending_of(rw).len() == rw->0.pending@.len());
                    if rw->0.pending@.len() > 0 {
                        let l = rw->0.pending@.len() - 1;
                        assert(rw->0.pending@.last() == rw->0.pending@[l]);
                    }
                }
                if let Some(range) = targets.receipts {
                    lemma_blocks_in(source@, range);
                }
            }
        }
        Ok(targets)
    }
}

} // verus!
