use vstd::prelude::*;

use crate::error::ProviderError;
use crate::jar::{flat, lemma_flat_len, next_block, total};
use crate::primitives::{
    Header, HeaderEntry, HighestSnapshots, Receipt, SealedHeader, TransactionSigned, B256,
};
use crate::segment::{fixed_start, BlockRange, SnapshotSegment, BLOCKS_PER_SNAPSHOT};
use crate::cache::{cache_jar, cached_jar, jar_cache_of, new_jar_cache, CacheKey, JarCache};
use crate::naming::{filename_spec, parse_for_segment};
use crate::store::{has_hash, missing, pending_of, SegmentStore};

verus! {

/// Declares tokio's `sync::watch::Receiver` as an opaque type, so that the
/// provider can hold the receiving end of the highest-snapshot broadcast.
/// Nothing is assumed of it; the provider only keeps it.
#[verifier::external_type_specification]
#[verifier::external_body]
#[verifier::reject_recursive_types(T)]
pub struct ExWatchReceiver<T>(tokio::sync::watch::Receiver<T>);

/// Registry of the snapshot jars of all segments, with their index and one
/// writer per segment.
#[derive(Debug)]
pub struct SnapshotProvider {
    /// Directory the jars belong to.
    pub path: String,
    /// Whether jars are opened with their hash filters.
    pub load_filters: bool,
    /// Number of blocks each jar covers.
    pub blocks_per_snapshot: u64,
    /// Receiving end of the broadcast of the highest snapshot of each
    /// segment, for subscribers that gate their progress on it.
    pub highest_tracker: Option<tokio::sync::watch::Receiver<Option<HighestSnapshots>>>,
    pub headers: SegmentStore<HeaderEntry>,
    pub transactions: SegmentStore<TransactionSigned>,
    pub receipts: SegmentStore<Receipt>,
    /// Jars handed out so far: `(last block of the aligned range, segment
    /// id)` to the jar's position in its segment.
    pub jar_cache: JarCache,
}

impl SnapshotProvider {
    pub open spec fn per(&self) -> int {
        self.blocks_per_snapshot as int
    }

    /// Jars, writers and cache are well formed, whatever the index holds.
    pub open spec fn data_wf(&self) -> bool {
        &&& self.blocks_per_snapshot > 0
        &&& self.headers.data_wf(self.per())
        &&& self.transactions.data_wf(self.per())
        &&& self.receipts.data_wf(self.per())
        &&& self.headers.segment == SnapshotSegment::Headers
        &&& self.transactions.segment == SnapshotSegment::Transactions
        &&& self.receipts.segment == SnapshotSegment::Receipts
        &&& self.cache_wf()
    }

    /// The index of every segment is the one its jars give.
    pub open spec fn index_wf(&self) -> bool {
        &&& self.headers.index_wf()
        &&& self.transactions.index_wf()
        &&& self.receipts.index_wf()
    }

    pub open spec fn wf(&self) -> bool {
        &&& self.data_wf()
        &&& self.index_wf()
    }

    /// Number of jars of the segment with id `id`.
    pub open spec fn jars_len(&self, id: u8) -> int {
        if id == 0 {
            self.headers.jars@.len() as int
        } else if id == 1 {
            self.transactions.jars@.len() as int
        } else {
            self.receipts.jars@.len() as int
        }
    }

    /// Every cached entry names an existing jar whose aligned range ends at
    /// the key's block.
    pub open spec fn cache_wf(&self) -> bool {
        forall|k: CacheKey|
            #[trigger] jar_cache_of(self.jar_cache).contains_key(k) ==> {
                &&& k.1 < 3
                &&& jar_cache_of(self.jar_cache)[k] < self.jars_len(k.1)
                &&& jar_cache_of(self.jar_cache)[k] * self.per() + self.per() - 1 == k.0
            }
    }

    /// Same configuration, jars and writers.
    pub open spec fn same_data(&self, o: Self) -> bool {
        &&& self.path == o.path
        &&& self.load_filters == o.load_filters
        &&& self.blocks_per_snapshot == o.blocks_per_snapshot
        &&& self.headers.jars == o.headers.jars
        &&& self.transactions.jars == o.transactions.jars
        &&& self.receipts.jars == o.receipts.jars
        &&& self.headers.writer == o.headers.writer
        &&& self.transactions.writer == o.transactions.writer
        &&& self.receipts.writer == o.receipts.writer
    }

    /// Same index maps: highest block and transaction index of each segment.
    pub open spec fn same_index(&self, o: Self) -> bool {
        &&& self.headers.max_block == o.headers.max_block
        &&& self.transactions.max_block == o.transactions.max_block
        &&& self.receipts.max_block == o.receipts.max_block
        &&& self.headers.tx_index@ == o.headers.tx_index@
        &&& self.transactions.tx_index@ == o.transactions.tx_index@
        &&& self.receipts.tx_index@ == o.receipts.tx_index@
    }

    /// Snapshotted headers, by block number.
    pub open spec fn header_rows(&self) -> Seq<HeaderEntry> {
        flat(self.headers.jars@)
    }

    /// Snapshotted transactions, by transaction number.
    pub open spec fn tx_rows(&self) -> Seq<TransactionSigned> {
        flat(self.transactions.jars@)
    }

    /// Snapshotted receipts, by transaction number.
    pub open spec fn receipt_rows(&self) -> Seq<Receipt> {
        flat(self.receipts.jars@)
    }

    /// Highest block of a segment, as its index records it.
    pub open spec fn highest_spec(&self, segment: SnapshotSegment) -> Option<u64> {
        match segment {
            SnapshotSegment::Headers => self.headers.max_block,
            SnapshotSegment::Transactions => self.transactions.max_block,
            SnapshotSegment::Receipts => self.receipts.max_block,
        }
    }

    /// Creates an empty provider over directory `path`, with jars of
    /// `BLOCKS_PER_SNAPSHOT` blocks and filters not loaded.
    pub fn new(path: String) -> (r: Self)
        ensures
            r.wf(),
            r.path == path,
            r.blocks_per_snapshot == BLOCKS_PER_SNAPSHOT,
            !r.load_filters,
            r.header_rows().len() == 0,
            r.tx_rows().len() == 0,
            r.receipt_rows().len() == 0,
            r.headers.writer is None,
            r.transactions.writer is None,
            r.receipts.writer is None,
            r.highest_tracker is None,
            r.headers.jars@.len() == 0,
            r.transactions.jars@.len() == 0,
            r.receipts.jars@.len() == 0,
            forall|s: SnapshotSegment| r.highest_spec(s) is None,
    {
        let headers = SegmentStore::new(SnapshotSegment::Headers);
        let transactions = SegmentStore::new(SnapshotSegment::Transactions);
        let receipts = SegmentStore::new(SnapshotSegment::Receipts);
        proof {
            let per = BLOCKS_PER_SNAPSHOT as int;
            assert(headers.wf(per));
            assert(transactions.wf(per));
            assert(receipts.wf(per));
        }
        SnapshotProvider {
            path,
            highest_tracker: None,
            load_filters: false,
            blocks_per_snapshot: BLOCKS_PER_SNAPSHOT,
            headers,
            transactions,
            receipts,
            jar_cache: new_jar_cache(),
        }
    }

    /// Opens jars with their hash filters loaded.
    pub fn with_filters(self) -> (r: Self)
        ensures
            r.load_filters,
            r.path == self.path,
            r.blocks_per_snapshot == self.blocks_per_snapshot,
            r.headers == self.headers,
            r.transactions == self.transactions,
            r.receipts == self.receipts,
    {
        SnapshotProvider { load_filters: true, ..self }
    }

    /// Adds a highest snapshot tracker to the provider.
    pub fn with_highest_tracker(
        self,
        highest_tracker: Option<tokio::sync::watch::Receiver<Option<HighestSnapshots>>>,
    ) -> (r: Self)
        ensures
            r.highest_tracker == highest_tracker,
            r.load_filters == self.load_filters,
            r.path == self.path,
            r.blocks_per_snapshot == self.blocks_per_snapshot,
            r.headers == self.headers,
            r.transactions == self.transactions,
            r.receipts == self.receipts,
    {
        SnapshotProvider { highest_tracker, ..self }
    }

    /// Sets the number of blocks each jar covers; only before any row is
    /// written.
    pub fn with_blocks_per_snapshot(self, per: u64) -> (r: Self)
        requires
            self.wf(),
            per > 0,
            self.headers.jars@.len() == 0,
            self.transactions.jars@.len() == 0,
            self.receipts.jars@.len() == 0,
            self.headers.writer is None,
            self.transactions.writer is None,
            self.receipts.writer is None,
        ensures
            r.wf(),
            r.blocks_per_snapshot == per,
            r.load_filters == self.load_filters,
            r.path == self.path,
            r.header_rows().len() == 0,
            r.tx_rows().len() == 0,
            r.receipt_rows().len() == 0,
    {
        SnapshotProvider { blocks_per_snapshot: per, ..self }
    }

    /// Returns the directory where the jars are located.
    pub fn directory(&self) -> (r: &String)
        ensures
            r == &self.path,
    {
        &self.path
    }

    /// Highest snapshotted block of `segment`.
    pub fn get_highest_snapshot_block(&self, segment: SnapshotSegment) -> (r: Option<u64>)
        ensures
            r == self.highest_spec(segment),
    {
        match segment {
            SnapshotSegment::Headers => self.headers.max_block,
            SnapshotSegment::Transactions => self.transactions.max_block,
            SnapshotSegment::Receipts => self.receipts.max_block,
        }
    }

    /// Highest snapshotted transaction of `segment`: the last key of its
    /// transaction index.
    pub fn get_highest_snapshot_tx(&self, segment: SnapshotSegment) -> (r: Option<u64>)
        requires
            self.wf(),
        ensures
            segment is Headers ==> r is None,
            segment is Transactions ==> r == (if self.tx_rows().len() > 0 {
                Some((self.tx_rows().len() - 1) as u64)
            } else {
                None
            }),
            segment is Receipts ==> r == (if self.receipt_rows().len() > 0 {
                Some((self.receipt_rows().len() - 1) as u64)
            } else {
                None
            }),
    {
        proof {
            crate::index::lemma_tx_entries_last(self.transactions.jars@);
            crate::index::lemma_tx_entries_last(self.receipts.jars@);
            crate::jar::lemma_flat_len(self.transactions.jars@);
            crate::jar::lemma_flat_len(self.receipts.jars@);
        }
        let index = match segment {
            SnapshotSegment::Headers => {
                return None;
            },
            SnapshotSegment::Transactions => &self.transactions.tx_index,
            SnapshotSegment::Receipts => &self.receipts.tx_index,
        };
        if index.len() > 0 {
            Some(index[index.len() - 1].tx_end)
        } else {
            None
        }
    }

    /// Highest snapshotted block of every segment.
    pub fn get_highest_snapshots(&self) -> (r: HighestSnapshots)
        ensures
            r.headers == self.highest_spec(SnapshotSegment::Headers),
            r.transactions == self.highest_spec(SnapshotSegment::Transactions),
            r.receipts == self.highest_spec(SnapshotSegment::Receipts),
    {
        HighestSnapshots {
            headers: self.headers.max_block,
            receipts: self.receipts.max_block,
            transactions: self.transactions.max_block,
        }
    }

    /// Rebuilds the index of every segment from its jars.
    pub fn update_index(&mut self)
        requires
            old(self).data_wf(),
        ensures
            final(self).wf(),
            final(self).same_data(*old(self)),
            old(self).index_wf() ==> final(self).same_index(*old(self)),
    {
        proof {
            lemma_flat_len(self.headers.jars@);
            lemma_flat_len(self.transactions.jars@);
            lemma_flat_len(self.receipts.jars@);
        }
        self.headers.update_index();
        self.transactions.update_index();
        self.receipts.update_index();
        proof {
            if old(self).index_wf() {
                assert(self.headers.tx_index@ =~= old(self).headers.tx_index@);
            }
        }
    }
}

impl SnapshotProvider {
    /// Opens the writer of `segment` at `block`, unless one is open.
    pub fn writer(&mut self, block: u64, segment: SnapshotSegment)
        requires
            old(self).wf(),
        ensures
            final(self).wf(),
            final(self).header_rows() == old(self).header_rows(),
            final(self).tx_rows() == old(self).tx_rows(),
            final(self).receipt_rows() == old(self).receipt_rows(),
            final(self).same_index(*old(self)),
            final(self).blocks_per_snapshot == old(self).blocks_per_snapshot,
            final(self).writer_open(segment),
            forall|s: SnapshotSegment| #[trigger] old(self).writer_open(s) ==> final(self).pending(s) == old(self).pending(s),
            forall|s: SnapshotSegment| s != segment ==> (#[trigger] final(self).writer_open(s)) == old(self).writer_open(s),
            !old(self).writer_open(segment) ==> final(self).pending(segment) == 0,
            forall|s: SnapshotSegment| s != segment ==> #[trigger] final(self).pending(s) == old(self).pending(s),
            pending_of(final(self).headers.writer) == pending_of(old(self).headers.writer),
            pending_of(final(self).transactions.writer) == pending_of(old(self).transactions.writer),
            pending_of(final(self).receipts.writer) == pending_of(old(self).receipts.writer),
            final(self).headers.jars == old(self).headers.jars,
            final(self).transactions.jars == old(self).transactions.jars,
            final(self).receipts.jars == old(self).receipts.jars,
            old(self).writer_open(segment) ==> final(self).writer_of(segment) == old(self).writer_of(segment),
            !old(self).writer_open(segment) ==> final(self).writer_of(segment) == Some(block),
            !(segment is Headers) ==> final(self).headers == old(self).headers,
            !(segment is Transactions) ==> final(self).transactions == old(self).transactions,
            !(segment is Receipts) ==> final(self).receipts == old(self).receipts,
            final(self).path == old(self).path,
            final(self).load_filters == old(self).load_filters,
    {
        let per = self.blocks_per_snapshot;
        match segment {
            SnapshotSegment::Headers => self.headers.open_writer(per, block),
            SnapshotSegment::Transactions => self.transactions.open_writer(per, block),
            SnapshotSegment::Receipts => self.receipts.open_writer(per, block),
        }
        proof {
            assert(pending_of(self.headers.writer) =~= pending_of(old(self).headers.writer));
            assert(pending_of(self.transactions.writer) =~= pending_of(old(self).transactions.writer));
            assert(pending_of(self.receipts.writer) =~= pending_of(old(self).receipts.writer));
        }
    }

    /// Opens the writer of `segment` right after its highest block.
    pub fn latest_writer(&mut self, segment: SnapshotSegment)
        requires
            old(self).wf(),
        ensures
            final(self).wf(),
            final(self).header_rows() == old(self).header_rows(),
            final(self).tx_rows() == old(self).tx_rows(),
            final(self).receipt_rows() == old(self).receipt_rows(),
            final(self).same_index(*old(self)),
            final(self).blocks_per_snapshot == old(self).blocks_per_snapshot,
            final(self).writer_open(segment),
    {
        let block: u64 = match self.get_highest_snapshot_block(segment) {
            Some(b) => if b < u64::MAX { b + 1 } else { b },
            None => 0,
        };
        self.writer(block, segment);
    }

    /// Block the open writer of `segment` was opened at.
    pub open spec fn writer_of(&self, segment: SnapshotSegment) -> Option<u64> {
        match segment {
            SnapshotSegment::Headers => match self.headers.writer {
                Some(w) => Some(w.block_start),
                None => None,
            },
            SnapshotSegment::Transactions => match self.transactions.writer {
                Some(w) => Some(w.block_start),
                None => None,
            },
            SnapshotSegment::Receipts => match self.receipts.writer {
                Some(w) => Some(w.block_start),
                None => None,
            },
        }
    }

    /// Whether the writer of `segment` is open.
    pub open spec fn writer_open(&self, segment: SnapshotSegment) -> bool {
        match segment {
            SnapshotSegment::Headers => self.headers.writer is Some,
            SnapshotSegment::Transactions => self.transactions.writer is Some,
            SnapshotSegment::Receipts => self.receipts.writer is Some,
        }
    }

    /// Number of rows the writer of `segment` holds.
    pub open spec fn pending(&self, segment: SnapshotSegment) -> int {
        match segment {
            SnapshotSegment::Headers => pending_of(self.headers.writer).len() as int,
            SnapshotSegment::Transactions => pending_of(self.transactions.writer).len() as int,
            SnapshotSegment::Receipts => pending_of(self.receipts.writer).len() as int,
        }
    }

    /// Appends the header of block `block` to the headers writer.
    pub fn append_header(&mut self, block: u64, td: u128, hash: B256, header: Header) -> (r:
        Result<(), ProviderError>)
        requires
            old(self).wf(),
        ensures
            final(self).wf(),
            r is Ok <==> old(self).headers.append_ok(old(self).per(), block, block),
            r is Ok ==> pending_of(final(self).headers.writer) == pending_of(old(self).headers.writer).push(
                HeaderEntry { header, td, hash },
            ),
            r is Err ==> final(self).headers.writer == old(self).headers.writer,
            r is Ok ==> final(self).headers.writer is Some,
            r is Ok ==> final(self).headers.writer->0.pending@ == old(self).headers.writer->0.pending@.push(
                (block, HeaderEntry { header, td, hash }),
            ),
            final(self).headers.jars == old(self).headers.jars,
            final(self).header_rows() == old(self).header_rows(),
            final(self).transactions == old(self).transactions,
            final(self).receipts == old(self).receipts,
            final(self).same_index(*old(self)),
            final(self).blocks_per_snapshot == old(self).blocks_per_snapshot,
            final(self).path == old(self).path,
            final(self).load_filters == old(self).load_filters,
    {
        let per = self.blocks_per_snapshot;
        let r = self.headers.append(per, block, block, HeaderEntry { header, td, hash });
        proof {
            if r is Ok {
                let p = self.headers.writer->0.pending@;
                assert(crate::store::pending_rows(p) =~= crate::store::pending_rows(old(self).headers.writer->0.pending@).push(HeaderEntry { header, td, hash }));
            }
        }
        r
    }

    /// Appends transaction `tx_num` of block `block` to the transactions
    /// writer.
    pub fn append_transaction(&mut self, block: u64, tx_num: u64, tx: TransactionSigned) -> (r:
        Result<(), ProviderError>)
        requires
            old(self).wf(),
        ensures
            final(self).wf(),
            r is Ok <==> old(self).transactions.append_ok(old(self).per(), block, tx_num),
            r is Ok ==> pending_of(final(self).transactions.writer) == pending_of(old(self).transactions.writer).push(tx),
            r is Err ==> final(self).transactions.writer == old(self).transactions.writer,
            r is Ok ==> final(self).transactions.writer is Some,
            r is Ok ==> final(self).transactions.writer->0.pending@ == old(self).transactions.writer->0.pending@.push(
                (block, tx),
            ),
            final(self).transactions.jars == old(self).transactions.jars,
            final(self).tx_rows() == old(self).tx_rows(),
            final(self).headers == old(self).headers,
            final(self).receipts == old(self).receipts,
            final(self).same_index(*old(self)),
            final(self).blocks_per_snapshot == old(self).blocks_per_snapshot,
            final(self).path == old(self).path,
            final(self).load_filters == old(self).load_filters,
    {
        let per = self.blocks_per_snapshot;
        let r = self.transactions.append(per, block, tx_num, tx);
        proof {
            if r is Ok {
                let p = self.transactions.writer->0.pending@;
                assert(crate::store::pending_rows(p) =~= crate::store::pending_rows(old(self).transactions.writer->0.pending@).push(tx));
            }
        }
        r
    }

    /// Appends the receipt of transaction `tx_num`, of block `block`, to the
    /// receipts writer.
    pub fn append_receipt(&mut self, block: u64, tx_num: u64, receipt: Receipt) -> (r: Result<
        (),
        ProviderError,
    >)
        requires
            old(self).wf(),
        ensures
            final(self).wf(),
            r is Ok <==> old(self).receipts.append_ok(old(self).per(), block, tx_num),
            r is Ok ==> pending_of(final(self).receipts.writer) == pending_of(old(self).receipts.writer).push(receipt),
            r is Err ==> final(self).receipts.writer == old(self).receipts.writer,
            r is Ok ==> final(self).receipts.writer is Some,
            r is Ok ==> final(self).receipts.writer->0.pending@ == old(self).receipts.writer->0.pending@.push(
                (block, receipt),
            ),
            final(self).receipts.jars == old(self).receipts.jars,
            final(self).receipt_rows() == old(self).receipt_rows(),
            final(self).headers == old(self).headers,
            final(self).transactions == old(self).transactions,
            final(self).same_index(*old(self)),
            final(self).blocks_per_snapshot == old(self).blocks_per_snapshot,
            final(self).path == old(self).path,
            final(self).load_filters == old(self).load_filters,
    {
        let per = self.blocks_per_snapshot;
        let r = self.receipts.append(per, block, tx_num, receipt);
        proof {
            if r is Ok {
                let p = self.receipts.writer->0.pending@;
                assert(crate::store::pending_rows(p) =~= crate::store::pending_rows(old(self).receipts.writer->0.pending@).push(receipt));
            }
        }
        r
    }

    /// Commits every writer: its rows join the jars of its segment, and the
    /// index covers them.
    pub fn commit(&mut self)
        requires
            old(self).wf(),
        ensures
            final(self).wf(),
            final(self).header_rows() == old(self).header_rows() + pending_of(old(self).headers.writer),
            final(self).tx_rows() == old(self).tx_rows() + pending_of(old(self).transactions.writer),
            final(self).receipt_rows() == old(self).receipt_rows() + pending_of(old(self).receipts.writer),
            forall|s: SnapshotSegment| #[trigger] final(self).writer_open(s) == old(self).writer_open(s),
            forall|s: SnapshotSegment| #[trigger] final(self).pending(s) == 0,
            pending_of(old(self).headers.writer).len() == 0 ==> final(self).headers.jars@ == old(self).headers.jars@,
            pending_of(old(self).transactions.writer).len() == 0 ==> final(self).transactions.jars@ == old(self).transactions.jars@,
            pending_of(old(self).receipts.writer).len() == 0 ==> final(self).receipts.jars@ == old(self).receipts.jars@,
            (forall|s: SnapshotSegment| #[trigger] old(self).pending(s) == 0) ==> final(self).same_index(*old(self)),
            (old(self).transactions.writer is Some && old(self).transactions.writer->0.pending@.len() > 0)
                ==> final(self).highest_spec(SnapshotSegment::Transactions) == Some(
                old(self).transactions.writer->0.pending@.last().0,
            ),
            (old(self).receipts.writer is Some && old(self).receipts.writer->0.pending@.len() > 0)
                ==> final(self).highest_spec(SnapshotSegment::Receipts) == Some(
                old(self).receipts.writer->0.pending@.last().0,
            ),
            pending_of(old(self).transactions.writer).len() == 0 ==> final(self).highest_spec(
                SnapshotSegment::Transactions,
            ) == old(self).highest_spec(SnapshotSegment::Transactions),
            pending_of(old(self).receipts.writer).len() == 0 ==> final(self).highest_spec(
                SnapshotSegment::Receipts,
            ) == old(self).highest_spec(SnapshotSegment::Receipts),
            final(self).jar_cache == old(self).jar_cache,
            final(self).headers.jars@.len() >= old(self).headers.jars@.len(),
            final(self).transactions.jars@.len() >= old(self).transactions.jars@.len(),
            final(self).receipts.jars@.len() >= old(self).receipts.jars@.len(),
            final(self).blocks_per_snapshot == old(self).blocks_per_snapshot,
            final(self).path == old(self).path,
            final(self).load_filters == old(self).load_filters,
    {
        let per = self.blocks_per_snapshot;
        self.headers.commit(per);
        self.transactions.commit(per);
        self.receipts.commit(per);
        proof {
            assert(self.headers.tx_index@ =~= old(self).headers.tx_index@);
            assert(old(self).pending(SnapshotSegment::Headers) == pending_of(old(self).headers.writer).len());
            assert(old(self).pending(SnapshotSegment::Transactions) == pending_of(old(self).transactions.writer).len());
            assert(old(self).pending(SnapshotSegment::Receipts) == pending_of(old(self).receipts.writer).len());
        }
    }

    /// Drops every writer and the rows it holds.
    pub fn discard_writers(&mut self)
        requires
            old(self).wf(),
        ensures
            final(self).wf(),
            final(self).header_rows() == old(self).header_rows(),
            final(self).tx_rows() == old(self).tx_rows(),
            final(self).receipt_rows() == old(self).receipt_rows(),
            final(self).same_index(*old(self)),
            final(self).blocks_per_snapshot == old(self).blocks_per_snapshot,
            final(self).path == old(self).path,
            final(self).load_filters == old(self).load_filters,
            forall|s: SnapshotSegment| !(#[trigger] final(self).writer_open(s)),
            final(self).headers.jars == old(self).headers.jars,
            final(self).transactions.jars == old(self).transactions.jars,
            final(self).receipts.jars == old(self).receipts.jars,
    {
        let per = self.blocks_per_snapshot;
        self.headers.discard_writer(per);
        self.transactions.discard_writer(per);
        self.receipts.discard_writer(per);
    }
}

impl SnapshotProvider {
    /// Block range of the jar of `segment` that holds block `block`: the
    /// aligned range of `block`, when the segment's highest block reaches it.
    pub fn get_segment_provider_from_block(&self, segment: SnapshotSegment, block: u64) -> (r:
        Result<BlockRange, ProviderError>)
        requires
            self.wf(),
        ensures
            r is Ok <==> (self.highest_spec(segment) matches Some(m) && m >= block),
            r matches Ok(range) ==> range.start == fixed_start(self.per(), block as int)
                && range.end == range.start + self.per() - 1 && range.contains_spec(block as int),
            r matches Err(e) ==> e == ProviderError::MissingSnapshotBlock(segment, block),
    {
        let per = self.blocks_per_snapshot;
        match segment {
            SnapshotSegment::Headers => self.headers.jar_for_block(per, block),
            SnapshotSegment::Transactions => self.transactions.jar_for_block(per, block),
            SnapshotSegment::Receipts => self.receipts.jar_for_block(per, block),
        }
    }

    /// Block range of the jar of `segment` that holds transaction `tx`,
    /// found through the segment's transaction index. Headers are not
    /// numbered by transaction, so they hold none.
    pub fn get_segment_provider_from_transaction(&self, segment: SnapshotSegment, tx: u64) -> (r:
        Result<BlockRange, ProviderError>)
        requires
            self.wf(),
        ensures
            segment is Headers ==> r == Err::<BlockRange, ProviderError>(
                ProviderError::MissingSnapshotTx(segment, tx),
            ),
            segment is Transactions ==> (r is Ok <==> tx < self.tx_rows().len()),
            segment is Receipts ==> (r is Ok <==> tx < self.receipt_rows().len()),
            segment is Transactions ==> (r matches Ok(range) ==> exists|j: int|
                0 <= j < self.transactions.jars@.len() && (#[trigger] self.transactions.jars@[j]).holds(tx as int)
                    && self.transactions.jars@[j].block_range == range),
            segment is Receipts ==> (r matches Ok(range) ==> exists|j: int|
                0 <= j < self.receipts.jars@.len() && (#[trigger] self.receipts.jars@[j]).holds(tx as int)
                    && self.receipts.jars@[j].block_range == range),
            r matches Err(e) ==> e == ProviderError::MissingSnapshotTx(segment, tx),
    {
        let per = self.blocks_per_snapshot;
        match segment {
            SnapshotSegment::Headers => Err(ProviderError::MissingSnapshotTx(segment, tx)),
            SnapshotSegment::Transactions => {
                proof {
                    lemma_flat_len(self.transactions.jars@);
                }
                match self.transactions.provider_for(per, tx) {
                    Ok(j) => Ok(self.transactions.jars[j].block_range),
                    Err(e) => Err(e),
                }
            },
            SnapshotSegment::Receipts => {
                proof {
                    lemma_flat_len(self.receipts.jars@);
                }
                match self.receipts.provider_for(per, tx) {
                    Ok(j) => Ok(self.receipts.jars[j].block_range),
                    Err(e) => Err(e),
                }
            },
        }
    }
}

impl SnapshotProvider {
    /// Block range named by `file_name`, the name of a jar of `segment`.
    pub fn get_segment_provider_from_path(&self, segment: SnapshotSegment, file_name: &[u8]) -> (r:
        Result<BlockRange, ProviderError>)
        ensures
            r is Ok <==> exists|g: BlockRange| file_name@ == filename_spec(segment, g),
            r matches Ok(g) ==> file_name@ == filename_spec(segment, g),
            r is Err ==> r == Err::<BlockRange, ProviderError>(
                ProviderError::MissingSnapshotPath(segment),
            ),
    {
        match parse_for_segment(file_name, segment) {
            Some(g) => Ok(g),
            None => Err(ProviderError::MissingSnapshotPath(segment)),
        }
    }
}

/// Id of a segment in jar cache keys.
pub open spec fn segment_id_spec(s: SnapshotSegment) -> u8 {
    match s {
        SnapshotSegment::Headers => 0,
        SnapshotSegment::Transactions => 1,
        SnapshotSegment::Receipts => 2,
    }
}

pub fn segment_id(s: SnapshotSegment) -> (r: u8)
    ensures
        r == segment_id_spec(s),
{
    match s {
        SnapshotSegment::Headers => 0,
        SnapshotSegment::Transactions => 1,
        SnapshotSegment::Receipts => 2,
    }
}

impl SnapshotProvider {
    /// Whether `range` is the whole aligned range of an existing jar of
    /// `segment`.
    pub open spec fn is_jar_range(&self, segment: SnapshotSegment, range: BlockRange) -> bool {
        &&& (range.start as int) % self.per() == 0
        &&& range.end == range.start + self.per() - 1
        &&& (range.start as int) / self.per() < self.jars_len(segment_id_spec(segment))
    }

    /// Position of the jar of `segment` over the aligned range `range`:
    /// the cached one under key `(range.end, segment)`, or else the jar is
    /// looked up and cached.
    pub fn get_or_create_jar_provider(&mut self, segment: SnapshotSegment, range: BlockRange) -> (r:
        Result<usize, ProviderError>)
        requires
            old(self).wf(),
        ensures
            final(self).wf(),
            final(self).same_data(*old(self)),
            final(self).same_index(*old(self)),
            r is Ok <==> old(self).is_jar_range(segment, range),
            r matches Ok(j) ==> j * old(self).per() == range.start && j < old(self).jars_len(
                segment_id_spec(segment),
            ),
            r is Err ==> r == Err::<usize, ProviderError>(
                ProviderError::MissingSnapshotBlock(segment, range.start),
            ),
            jar_cache_of(old(self).jar_cache).contains_key((range.end, segment_id_spec(segment)))
                || r is Err ==> jar_cache_of(final(self).jar_cache) == jar_cache_of(
                old(self).jar_cache,
            ),
            jar_cache_of(old(self).jar_cache).contains_key((range.end, segment_id_spec(segment)))
                && r is Ok ==> r == Ok::<usize, ProviderError>(
                jar_cache_of(old(self).jar_cache)[(range.end, segment_id_spec(segment))],
            ),
            r matches Ok(j) ==> (!jar_cache_of(old(self).jar_cache).contains_key(
                (range.end, segment_id_spec(segment)),
            ) ==> jar_cache_of(final(self).jar_cache) == jar_cache_of(old(self).jar_cache).insert(
                (range.end, segment_id_spec(segment)),
                j,
            )),
    {
        let per = self.blocks_per_snapshot;
        let len = match segment {
            SnapshotSegment::Headers => self.headers.jars.len(),
            SnapshotSegment::Transactions => self.transactions.jars.len(),
            SnapshotSegment::Receipts => self.receipts.jars.len(),
        };
        let id = segment_id(segment);
        if range.start % per != 0 || range.end < range.start || range.end - range.start != per - 1
            || range.start / per >= len as u64 {
            return Err(ProviderError::MissingSnapshotBlock(segment, range.start));
        }
        let key: CacheKey = (range.end, id);
        proof {
            vstd::arithmetic::div_mod::lemma_fundamental_div_mod(range.start as int, per as int);
            assert((range.start / per) * per == per * (range.start / per)) by (nonlinear_arith);
        }
        match cached_jar(&self.jar_cache, key) {
            Some(j) => {
                proof {
                    assert(jar_cache_of(self.jar_cache).contains_key(key));
                }
                Ok(j)
            },
            None => {
                let j = (range.start / per) as usize;
                cache_jar(&mut self.jar_cache, key, j);
                proof {
                    assert forall|k: CacheKey|
                        #[trigger] jar_cache_of(self.jar_cache).contains_key(k) implies {
                        &&& k.1 < 3
                        &&& jar_cache_of(self.jar_cache)[k] < self.jars_len(k.1)
                        &&& jar_cache_of(self.jar_cache)[k] * self.per() + self.per() - 1 == k.0
                    } by {
                        if k != key {
                            assert(jar_cache_of(old(self).jar_cache).contains_key(k));
                        }
                    }
                }
                Ok(j)
            },
        }
    }
}

impl SnapshotProvider {
    /// Makes `segment`, numbered by transaction, cover every block up to
    /// `block` without adding rows: blocks with no transaction still count
    /// as snapshotted.
    pub fn extend_coverage(&mut self, segment: SnapshotSegment, block: u64)
        requires
            old(self).wf(),
            !(segment is Headers),
            old(self).pending(segment) == 0,
            block + old(self).per() <= u64::MAX + 1,
        ensures
            final(self).wf(),
            final(self).header_rows() == old(self).header_rows(),
            final(self).tx_rows() == old(self).tx_rows(),
            final(self).receipt_rows() == old(self).receipt_rows(),
            final(self).highest_spec(segment) == (match old(self).highest_spec(segment) {
                Some(m) => if m >= block { Some(m) } else { Some(block) },
                None => Some(block),
            }),
            forall|s: SnapshotSegment| s != segment ==> #[trigger] final(self).highest_spec(s)
                == old(self).highest_spec(s),
            forall|s: SnapshotSegment| #[trigger] final(self).pending(s) == old(self).pending(s),
            final(self).headers == old(self).headers,
            final(self).blocks_per_snapshot == old(self).blocks_per_snapshot,
            final(self).path == old(self).path,
            final(self).load_filters == old(self).load_filters,
    {
        let per = self.blocks_per_snapshot;
        match segment {
            SnapshotSegment::Transactions => self.transactions.extend_to_block(per, block),
            _ => self.receipts.extend_to_block(per, block),
        }
    }
}

} // verus!
