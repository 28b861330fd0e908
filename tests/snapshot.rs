use reth_snapshot::error::ProviderError;
use reth_snapshot::primitives::{
    Address, Header, HeaderEntry, HighestSnapshots, Receipt, SealedHeader, TransactionSigned, B256,
};
use reth_snapshot::provider::SnapshotProvider;
use reth_snapshot::segment::{find_fixed_range, BlockRange, SnapshotSegment, BLOCKS_PER_SNAPSHOT};
use reth_snapshot::snapshotter::{SnapshotTargets, Snapshotter, SourceBlock};
use reth_snapshot::naming::{filename, parse_filename};
use reth_snapshot::unsupported::BlockHashOrNumber;

fn hash(n: u64) -> B256 {
    B256 { hi: 0xabcd, lo: n as u128 }
}

fn tx(n: u64) -> TransactionSigned {
    TransactionSigned {
        hash: B256 { hi: 0x77, lo: n as u128 },
        nonce: n,
        value: 1000 + n as u128,
        signer: Some(Address { hi: 1, lo: n as u128 }),
    }
}

fn receipt(n: u64) -> Receipt {
    Receipt { success: n % 2 == 0, cumulative_gas_used: 21000 * (n + 1) }
}

fn entry(b: u64) -> HeaderEntry {
    HeaderEntry {
        header: Header {
            number: b,
            parent_hash: if b == 0 { B256 { hi: 0, lo: 0 } } else { hash(b - 1) },
            timestamp: 1_700_000_000 + 12 * b,
            gas_used: 42_000,
        },
        td: 1000 * (b as u128 + 1),
        hash: hash(b),
    }
}

/// Blocks `0..n`, `per_block` transactions each, numbered from zero.
fn source(n: u64, per_block: u64) -> Vec<SourceBlock> {
    (0..n)
        .map(|b| SourceBlock {
            header: entry(b),
            first_tx: b * per_block,
            transactions: (0..per_block).map(|k| tx(b * per_block + k)).collect(),
            receipts: (0..per_block).map(|k| receipt(b * per_block + k)).collect(),
        })
        .collect()
}

fn range(start: u64, end: u64) -> Option<BlockRange> {
    Some(BlockRange { start, end })
}

fn snapshotted(blocks: u64, per: u64) -> SnapshotProvider {
    let provider = SnapshotProvider::new("snapshots".to_string()).with_blocks_per_snapshot(per);
    let mut snapshotter = Snapshotter::new(provider);
    let targets = snapshotter.get_snapshot_targets(blocks - 1).expect("targets");
    snapshotter.run(targets, &source(blocks, 2)).expect("run snapshotter");
    snapshotter.snapshot_provider
}

#[test]
fn run() {
    let db = source(4, 2);
    let provider = SnapshotProvider::new("snapshots".to_string());
    let mut snapshotter = Snapshotter::new(provider);

    // Snapshot targets has data per part up to the passed finalized block number
    let targets = snapshotter.get_snapshot_targets(1).expect("get snapshot targets");
    assert_eq!(
        targets,
        SnapshotTargets { headers: range(0, 1), receipts: range(0, 1), transactions: range(0, 1) }
    );

    let db_first = source(2, 2);
    snapshotter.run(targets, &db_first).expect("run snapshotter");
    assert_eq!(
        snapshotter.snapshot_provider.get_highest_snapshots(),
        HighestSnapshots { headers: Some(1), receipts: Some(1), transactions: Some(1) }
    );
    assert_eq!(snapshotter.snapshot_provider.transaction_by_id(3), Ok(Some(tx(3))));

    // Targets start right after the highest snapshot of each segment
    let targets = snapshotter.get_snapshot_targets(5).expect("get snapshot targets");
    assert_eq!(
        targets,
        SnapshotTargets { headers: range(2, 5), receipts: range(2, 5), transactions: range(2, 5) }
    );

    // Blocks the database does not hold yet are skipped
    snapshotter.run(targets, &db).expect("run snapshotter");
    assert_eq!(
        snapshotter.snapshot_provider.get_highest_snapshots(),
        HighestSnapshots { headers: Some(3), receipts: Some(3), transactions: Some(3) }
    );
}

#[test]
fn initial_snapshot_indexes_transactions() {
    let p = snapshotted(2, BLOCKS_PER_SNAPSHOT);
    assert_eq!(p.get_highest_snapshot_block(SnapshotSegment::Transactions), Some(1));
    assert_eq!(p.get_highest_snapshot_tx(SnapshotSegment::Transactions), Some(3));
    assert_eq!(p.get_highest_snapshot_tx(SnapshotSegment::Headers), None);
    assert_eq!(p.transaction_by_id(3), Ok(Some(tx(3))));
}

#[test]
fn missing_block_is_reported() {
    let p = snapshotted(2, BLOCKS_PER_SNAPSHOT);
    assert_eq!(
        p.header_by_number(5),
        Err(ProviderError::MissingSnapshotBlock(SnapshotSegment::Headers, 5))
    );
    assert_eq!(p.header_by_number(1), Ok(Some(entry(1).header)));
}

#[test]
fn missing_transaction_is_reported() {
    let p = snapshotted(2, BLOCKS_PER_SNAPSHOT);
    assert_eq!(
        p.transaction_by_id(4),
        Err(ProviderError::MissingSnapshotTx(SnapshotSegment::Transactions, 4))
    );
    assert_eq!(
        p.receipt(9),
        Err(ProviderError::MissingSnapshotTx(SnapshotSegment::Receipts, 9))
    );
}

#[test]
fn pending_block_is_unsupported() {
    let p = snapshotted(2, BLOCKS_PER_SNAPSHOT);
    assert!(matches!(p.pending_block(), Err(ProviderError::UnsupportedProvider)));
}

#[test]
fn unsupported_methods_always_fail() {
    let p = snapshotted(2, BLOCKS_PER_SNAPSHOT);
    let id = BlockHashOrNumber::Number(1);
    assert_eq!(p.chain_info(), Err(ProviderError::UnsupportedProvider));
    assert_eq!(p.best_block_number(), Err(ProviderError::UnsupportedProvider));
    assert_eq!(p.last_block_number(), Err(ProviderError::UnsupportedProvider));
    assert_eq!(p.block_number(hash(1)), Err(ProviderError::UnsupportedProvider));
    assert!(matches!(p.block(id), Err(ProviderError::UnsupportedProvider)));
    assert!(matches!(p.ommers(id), Err(ProviderError::UnsupportedProvider)));
    assert!(matches!(p.pending_block_with_senders(), Err(ProviderError::UnsupportedProvider)));
    assert!(matches!(p.pending_block_and_receipts(), Err(ProviderError::UnsupportedProvider)));
    assert_eq!(p.block_body_indices(1), Err(ProviderError::UnsupportedProvider));
    assert!(matches!(
        p.block_range(BlockRange { start: 0, end: 1 }),
        Err(ProviderError::UnsupportedProvider)
    ));
    assert!(matches!(p.withdrawals_by_block(id, 0), Err(ProviderError::UnsupportedProvider)));
    assert_eq!(p.latest_withdrawal(), Err(ProviderError::UnsupportedProvider));
    assert!(matches!(p.receipts_by_block(id), Err(ProviderError::UnsupportedProvider)));
    assert_eq!(p.transaction_block(1), Err(ProviderError::UnsupportedProvider));
    assert!(matches!(p.transactions_by_block(id), Err(ProviderError::UnsupportedProvider)));
    assert_eq!(p.transaction_by_hash_with_meta(hash(1)), Err(ProviderError::UnsupportedProvider));
}

#[test]
fn hash_lookup_without_filters() {
    let p = snapshotted(3, 2);
    assert!(!p.load_filters);
    assert_eq!(p.transaction_by_hash(tx(4).hash), Ok(Some(tx(4))));
    assert_eq!(p.transaction_id(tx(4).hash), Ok(Some(4)));
    assert_eq!(p.transaction_by_hash(hash(99)), Ok(None));
}

#[test]
fn hash_lookup_with_filters() {
    let provider = SnapshotProvider::new("snapshots".to_string()).with_filters();
    let mut snapshotter = Snapshotter::new(provider);
    let targets = snapshotter.get_snapshot_targets(2).expect("targets");
    snapshotter.run(targets, &source(3, 2)).expect("run");
    let p = snapshotter.snapshot_provider;
    assert!(p.load_filters);
    for n in 0..6 {
        assert_eq!(p.transaction_by_hash(tx(n).hash), Ok(Some(tx(n))));
    }
    assert_eq!(p.header(&hash(2)), Ok(Some(entry(2).header)));
    assert_eq!(p.header_td(&hash(2)), Ok(Some(3000)));
    assert_eq!(p.header(&hash(7)), Ok(None));
    assert_eq!(p.receipt_by_hash(tx(5).hash), Ok(Some(receipt(5))));
}

#[test]
fn non_contiguous_targets_are_refused() {
    let p = snapshotted(3, BLOCKS_PER_SNAPSHOT);
    let mut snapshotter = Snapshotter::new(p);
    assert_eq!(
        snapshotter.snapshot_provider.get_highest_snapshot_block(SnapshotSegment::Transactions),
        Some(2)
    );
    let targets = SnapshotTargets { headers: None, receipts: None, transactions: range(5, 10) };
    assert!(!targets.is_contiguous_to_highest_snapshots(
        snapshotter.snapshot_provider.get_highest_snapshots()
    ));
    assert_eq!(snapshotter.run(targets, &source(11, 2)), Err(ProviderError::NonContiguousTargets));
    assert_eq!(snapshotter.snapshot_provider.transaction_by_id(5), Ok(Some(tx(5))));
    assert!(matches!(
        snapshotter.snapshot_provider.transaction_by_id(6),
        Err(ProviderError::MissingSnapshotTx(SnapshotSegment::Transactions, 6))
    ));
}

#[test]
fn round_trip_reads() {
    let p = snapshotted(4, 3);
    for n in 0..8 {
        assert_eq!(p.transaction_by_id(n), Ok(Some(tx(n))));
        assert_eq!(p.receipt(n), Ok(Some(receipt(n))));
        assert_eq!(p.transaction_sender(n), Ok(Some(Address { hi: 1, lo: n as u128 })));
    }
    let txs = p.transactions_by_tx_range(2, 6).expect("range");
    assert_eq!(txs, vec![tx(2), tx(3), tx(4), tx(5)]);
    let receipts = p.receipts_by_tx_range(0, 3).expect("range");
    assert_eq!(receipts, vec![receipt(0), receipt(1), receipt(2)]);
    let hashes = p.transaction_hashes_by_range(1, 3).expect("range");
    assert_eq!(hashes, vec![(tx(1).hash, 1), (tx(2).hash, 2)]);
}

#[test]
fn cross_file_scan_concatenates_jars() {
    // Two blocks per jar: blocks 0..=4 fill jars [0,1], [2,3] and [4,4].
    let p = snapshotted(5, 2);
    assert_eq!(p.headers.jars.len(), 3);
    let headers = p.headers_range(1, 4).expect("range");
    assert_eq!(headers, vec![entry(1).header, entry(2).header, entry(3).header]);
    let txs = p.transactions_by_tx_range(3, 9).expect("range");
    assert_eq!(txs, (3..9).map(tx).collect::<Vec<_>>());
    let hashes = p.canonical_hashes_range(0, 5).expect("range");
    assert_eq!(hashes, (0..5).map(hash).collect::<Vec<_>>());
}

#[test]
fn range_scan_stops_at_first_rejected_row() {
    let p = snapshotted(5, 2);
    let per = p.blocks_per_snapshot;
    let rows = p.headers.fetch_range(per, 0, 5, |e: HeaderEntry| e.header.number < 3).expect("scan");
    assert_eq!(rows, vec![entry(0), entry(1), entry(2)]);
    let rows = p.transactions.fetch_range(per, 1, 10, |t: TransactionSigned| t.nonce != 1).expect("scan");
    assert!(rows.is_empty());
}

#[test]
fn range_scan_past_the_end_fails() {
    let p = snapshotted(2, BLOCKS_PER_SNAPSHOT);
    assert_eq!(
        p.headers_range(0, 5),
        Err(ProviderError::MissingSnapshotBlock(SnapshotSegment::Headers, 2))
    );
    assert_eq!(
        p.headers_range(7, 7),
        Err(ProviderError::MissingSnapshotBlock(SnapshotSegment::Headers, 7))
    );
    assert_eq!(p.headers_range(1, 1), Ok(vec![]));
}

#[test]
fn update_index_is_idempotent() {
    let mut p = snapshotted(5, 2);
    p.update_index();
    let once = (p.get_highest_snapshots(), p.transactions.tx_index.clone(), p.receipts.tx_index.clone());
    p.update_index();
    let twice = (p.get_highest_snapshots(), p.transactions.tx_index.clone(), p.receipts.tx_index.clone());
    assert_eq!(once, twice);
    assert_eq!(once.1.len(), 3);
    assert_eq!(once.1[2].tx_end, 9);
}

#[test]
fn jar_ranges_are_contiguous_and_aligned() {
    let provider = SnapshotProvider::new("snapshots".to_string()).with_blocks_per_snapshot(3);
    let mut snapshotter = Snapshotter::new(provider);
    let db = source(8, 1);
    for finalized in [1u64, 4, 7] {
        let targets = snapshotter.get_snapshot_targets(finalized).expect("targets");
        snapshotter.run(targets, &db).expect("run");
    }
    let jars = &snapshotter.snapshot_provider.headers.jars;
    let ranges: Vec<(u64, u64)> = jars.iter().map(|j| (j.block_range.start, j.block_range.end)).collect();
    assert_eq!(ranges, vec![(0, 2), (3, 5), (6, 7)]);
    let firsts: Vec<u64> = snapshotter.snapshot_provider.transactions.jars.iter().map(|j| j.first).collect();
    assert_eq!(firsts, vec![0, 3, 6]);
}

#[test]
fn appends_out_of_order_are_rejected() {
    let mut p = SnapshotProvider::new("snapshots".to_string());
    assert_eq!(
        p.append_transaction(0, 0, tx(0)),
        Err(ProviderError::MissingWriter(SnapshotSegment::Transactions))
    );
    p.writer(0, SnapshotSegment::Transactions);
    assert_eq!(p.append_transaction(0, 0, tx(0)), Ok(()));
    assert_eq!(
        p.append_transaction(0, 2, tx(2)),
        Err(ProviderError::UnexpectedAppend(SnapshotSegment::Transactions, 1, 2))
    );
    p.writer(0, SnapshotSegment::Headers);
    assert_eq!(
        p.append_header(1, 0, hash(1), entry(1).header),
        Err(ProviderError::UnexpectedAppend(SnapshotSegment::Headers, 0, 1))
    );
    // Nothing is visible before the commit.
    assert!(p.transaction_by_id(0).is_err());
    p.commit();
    assert_eq!(p.transaction_by_id(0), Ok(Some(tx(0))));
}

#[test]
fn discarded_writers_leave_nothing() {
    let mut p = SnapshotProvider::new("snapshots".to_string());
    p.latest_writer(SnapshotSegment::Receipts);
    assert_eq!(p.append_receipt(0, 0, receipt(0)), Ok(()));
    p.discard_writers();
    p.commit();
    assert_eq!(p.get_highest_snapshot_tx(SnapshotSegment::Receipts), None);
}

#[test]
fn unrecoverable_signer_fails_sender_reads() {
    let mut p = SnapshotProvider::new("snapshots".to_string());
    p.writer(0, SnapshotSegment::Transactions);
    let mut bad = tx(1);
    bad.signer = None;
    assert_eq!(p.append_transaction(0, 0, tx(0)), Ok(()));
    assert_eq!(p.append_transaction(0, 1, bad), Ok(()));
    p.commit();
    assert_eq!(p.senders_by_tx_range(0, 1), Ok(vec![Address { hi: 1, lo: 0 }]));
    assert_eq!(p.senders_by_tx_range(0, 2), Err(ProviderError::SenderRecoveryError));
    assert_eq!(p.transaction_sender(1), Ok(None));
}

#[test]
fn header_reads_by_number() {
    let p = snapshotted(3, 2);
    assert_eq!(p.header_td_by_number(2), Ok(Some(3000)));
    assert_eq!(p.block_hash(0), Ok(Some(hash(0))));
    let sealed = p.sealed_header(1).expect("read").expect("present");
    assert_eq!(sealed.hash, hash(1));
    assert_eq!(sealed.header, entry(1).header);
}

#[test]
fn fixed_range_is_aligned() {
    assert_eq!(find_fixed_range(BLOCKS_PER_SNAPSHOT, 0), BlockRange { start: 0, end: 499_999 });
    assert_eq!(
        find_fixed_range(BLOCKS_PER_SNAPSHOT, 1_234_567),
        BlockRange { start: 1_000_000, end: 1_499_999 }
    );
    assert_eq!(find_fixed_range(2, 5), BlockRange { start: 4, end: 5 });
}

#[test]
fn targets_any_and_empty() {
    let p = snapshotted(3, BLOCKS_PER_SNAPSHOT);
    let snapshotter = Snapshotter::new(p);
    let none = snapshotter.get_snapshot_targets(2).expect("targets");
    assert!(!none.any());
    assert_eq!(none, SnapshotTargets { headers: None, receipts: None, transactions: None });
    let some = snapshotter.get_snapshot_targets(3).expect("targets");
    assert!(some.any());
}

#[test]
fn highest_tracker_is_kept() {
    let (tx, rx) = tokio::sync::watch::channel(None);
    let p = SnapshotProvider::new("snapshots".to_string()).with_highest_tracker(Some(rx));
    assert!(p.highest_tracker.is_some());
    tx.send(Some(p.get_highest_snapshots())).expect("send");
    let seen = *p.highest_tracker.as_ref().expect("tracker").borrow();
    assert_eq!(seen, Some(HighestSnapshots { headers: None, receipts: None, transactions: None }));
    assert_eq!(p.directory(), "snapshots");
}

#[test]
fn sealed_headers_stop_at_predicate() {
    let p = snapshotted(5, 2);
    let sealed = p.sealed_headers_while(1, 5, |h: SealedHeader| h.header.number != 3).expect("scan");
    assert_eq!(sealed.len(), 2);
    assert_eq!(sealed[0].hash, hash(1));
    assert_eq!(sealed[1].header, entry(2).header);
    let all = p.sealed_headers_while(0, 5, |_h: SealedHeader| true).expect("scan");
    assert_eq!(all.len(), 5);
}

#[test]
fn jars_resolve_by_block_and_transaction() {
    // Two blocks per jar, two transactions per block: jar [2,3] holds txs 4..8.
    let p = snapshotted(5, 2);
    assert_eq!(
        p.get_segment_provider_from_block(SnapshotSegment::Headers, 3),
        Ok(BlockRange { start: 2, end: 3 })
    );
    assert_eq!(
        p.get_segment_provider_from_block(SnapshotSegment::Receipts, 4),
        Ok(BlockRange { start: 4, end: 5 })
    );
    assert_eq!(
        p.get_segment_provider_from_block(SnapshotSegment::Headers, 5),
        Err(ProviderError::MissingSnapshotBlock(SnapshotSegment::Headers, 5))
    );
    assert_eq!(
        p.get_segment_provider_from_transaction(SnapshotSegment::Transactions, 5),
        Ok(BlockRange { start: 2, end: 3 })
    );
    assert_eq!(
        p.get_segment_provider_from_transaction(SnapshotSegment::Transactions, 3),
        Ok(BlockRange { start: 0, end: 1 })
    );
    assert_eq!(
        p.get_segment_provider_from_transaction(SnapshotSegment::Receipts, 10),
        Err(ProviderError::MissingSnapshotTx(SnapshotSegment::Receipts, 10))
    );
    assert_eq!(
        p.get_segment_provider_from_transaction(SnapshotSegment::Headers, 0),
        Err(ProviderError::MissingSnapshotTx(SnapshotSegment::Headers, 0))
    );
}

#[test]
fn file_names_round_trip() {
    let range = BlockRange { start: 500000, end: 999999 };
    let name = filename(SnapshotSegment::Transactions, range);
    assert_eq!(name, b"transactions_500000_999999".to_vec());
    assert_eq!(parse_filename(&name), Some((SnapshotSegment::Transactions, range)));
    assert_eq!(parse_filename(b"headers_0_499999"), Some((SnapshotSegment::Headers, BlockRange { start: 0, end: 499999 })));
    assert_eq!(parse_filename(b"headers_0_"), None);
    assert_eq!(parse_filename(b"receipts_01_2"), None);
    assert_eq!(parse_filename(b"notes.txt"), None);
    let p = SnapshotProvider::new("snapshots".to_string());
    assert_eq!(
        p.get_segment_provider_from_path(SnapshotSegment::Receipts, b"receipts_0_499999"),
        Ok(BlockRange { start: 0, end: 499999 })
    );
    assert_eq!(
        p.get_segment_provider_from_path(SnapshotSegment::Headers, b"receipts_0_499999"),
        Err(ProviderError::MissingSnapshotPath(SnapshotSegment::Headers))
    );
}

#[test]
fn jar_cache_reuses_entries() {
    let mut p = snapshotted(5, 2);
    let range = BlockRange { start: 2, end: 3 };
    assert_eq!(p.get_or_create_jar_provider(SnapshotSegment::Headers, range), Ok(1));
    assert!(p.jar_cache.contains_key(&(3, 0)));
    assert_eq!(p.get_or_create_jar_provider(SnapshotSegment::Headers, range), Ok(1));
    assert_eq!(p.jar_cache.len(), 1);
    assert_eq!(
        p.get_or_create_jar_provider(SnapshotSegment::Transactions, BlockRange { start: 6, end: 7 }),
        Err(ProviderError::MissingSnapshotBlock(SnapshotSegment::Transactions, 6))
    );
    assert_eq!(
        p.get_or_create_jar_provider(SnapshotSegment::Receipts, BlockRange { start: 1, end: 2 }),
        Err(ProviderError::MissingSnapshotBlock(SnapshotSegment::Receipts, 1))
    );
}

#[test]
fn blocks_without_transactions_count_as_snapshotted() {
    let mut db = source(2, 2);
    for b in 2..4u64 {
        db.push(SourceBlock { header: entry(b), first_tx: 4, transactions: vec![], receipts: vec![] });
    }
    let provider = SnapshotProvider::new("snapshots".to_string()).with_blocks_per_snapshot(2);
    let mut snapshotter = Snapshotter::new(provider);
    let targets = snapshotter.get_snapshot_targets(3).expect("targets");
    snapshotter.run(targets, &db).expect("run");
    assert_eq!(
        snapshotter.snapshot_provider.get_highest_snapshots(),
        HighestSnapshots { headers: Some(3), receipts: Some(3), transactions: Some(3) }
    );
    assert_eq!(snapshotter.snapshot_provider.get_highest_snapshot_tx(SnapshotSegment::Transactions), Some(3));
    let targets = snapshotter.get_snapshot_targets(3).expect("targets");
    assert!(!targets.any());
}

#[test]
fn failed_run_keeps_the_index() {
    let p = snapshotted(2, BLOCKS_PER_SNAPSHOT);
    let mut snapshotter = Snapshotter::new(p);
    let before = snapshotter.snapshot_provider.get_highest_snapshots();
    // Transaction numbers of the source do not continue those snapshotted.
    let mut db = source(4, 2);
    db[2].first_tx = 9;
    let targets = snapshotter.get_snapshot_targets(3).expect("targets");
    assert_eq!(
        snapshotter.run(targets, &db),
        Err(ProviderError::UnexpectedAppend(SnapshotSegment::Transactions, 4, 9))
    );
    assert_eq!(snapshotter.snapshot_provider.get_highest_snapshots(), before);
    assert_eq!(snapshotter.snapshot_provider.get_highest_snapshot_tx(SnapshotSegment::Transactions), Some(3));
}
