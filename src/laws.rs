use vstd::prelude::*;

use crate::error::ProviderError;
use crate::jar::{chained, dir_wf, flat, lemma_flat_index, lemma_flat_len, total, Jar};
use crate::primitives::TransactionSigned;
use crate::provider::SnapshotProvider;
use crate::readers::row_spec;
use crate::segment::SnapshotSegment;
use crate::store::{all_pass, has_hash, pending_of, range_spec, SegmentStore};

verus! {

/// The jars' block ranges start at block zero and each starts right after
/// the previous one ends, with no gap and no overlap.
pub open spec fn ranges_contiguous<R>(jars: Seq<Jar<R>>) -> bool {
    &&& jars.len() > 0 ==> jars[0].block_range.start == 0
    &&& forall|j: int|
        0 <= j < jars.len() ==> (#[trigger] jars[j]).block_range.start
            <= jars[j].block_range.end
    &&& forall|i: int, j: int|
        #![trigger jars[i], jars[j]]
        0 <= i && j == i + 1 && j < jars.len() ==> jars[j].block_range.start
            == jars[i].block_range.end + 1
}

proof fn lemma_dir_contiguous<R>(jars: Seq<Jar<R>>, per: int, by_block: bool)
    requires
        dir_wf(jars, per, by_block),
    ensures
        ranges_contiguous(jars),
{
    if jars.len() > 0 {
        assert(jars[0].block_range.start == 0 * per);
    }
    assert forall|i: int, j: int|
        #![trigger jars[i], jars[j]]
        0 <= i && j == i + 1 && j < jars.len() implies jars[j].block_range.start
            == jars[i].block_range.end + 1 by {
        assert(jars[j].block_range.start == j * per);
        assert(jars[i].block_range.start == i * per);
        assert(j * per == i * per + per) by (nonlinear_arith)
            requires
                j == i + 1,
        ;
    }
}

/// Contiguity: in every well-formed provider, which `Snapshotter::run` and
/// every other operation keep well-formed, the block ranges of each
/// segment's jars are contiguous and start at zero.
pub proof fn snapshots_are_contiguous(p: SnapshotProvider)
    requires
        p.wf(),
    ensures
        ranges_contiguous(p.headers.jars@),
        ranges_contiguous(p.transactions.jars@),
        ranges_contiguous(p.receipts.jars@),
{
    lemma_dir_contiguous(p.headers.jars@, p.per(), true);
    lemma_dir_contiguous(p.transactions.jars@, p.per(), false);
    lemma_dir_contiguous(p.receipts.jars@, p.per(), false);
}

/// Idempotent index: the index maps are a function of the jars, so two
/// well-formed providers over the same jars (such as a provider before and
/// after another `update_index`) hold identical maps.
pub proof fn index_is_determined_by_jars(a: SnapshotProvider, b: SnapshotProvider)
    requires
        a.wf(),
        b.wf(),
        a.headers.jars@ == b.headers.jars@,
        a.transactions.jars@ == b.transactions.jars@,
        a.receipts.jars@ == b.receipts.jars@,
    ensures
        a.same_index(b),
{
    assert(a.headers.tx_index@ =~= b.headers.tx_index@);
}

/// Round-trip reads: after a commit, each transaction the writer held is
/// read back under the number it was appended with, and the range of those
/// numbers reads back as the whole sequence, in order.
pub proof fn committed_transactions_read_back(before: SnapshotProvider, after: SnapshotProvider)
    requires
        before.wf(),
        after.wf(),
        after.tx_rows() == before.tx_rows() + pending_of(before.transactions.writer),
    ensures
        forall|i: int|
            0 <= i < pending_of(before.transactions.writer).len() ==> row_spec(
                after.tx_rows(),
                (before.tx_rows().len() + i) as u64,
                ProviderError::MissingSnapshotTx(
                    SnapshotSegment::Transactions,
                    (before.tx_rows().len() + i) as u64,
                ),
            ) == Ok::<Option<TransactionSigned>, ProviderError>(
                Some(#[trigger] pending_of(before.transactions.writer)[i]),
            ),
        pending_of(before.transactions.writer).len() > 0 ==> range_spec(
            after.tx_rows(),
            before.tx_rows().len() as u64,
            (before.tx_rows().len() + pending_of(before.transactions.writer).len()) as u64,
            SnapshotSegment::Transactions,
            false,
        ) == Ok::<Seq<TransactionSigned>, ProviderError>(pending_of(before.transactions.writer)),
{
    let old_rows = before.tx_rows();
    let new_rows = after.tx_rows();
    let pend = pending_of(before.transactions.writer);
    lemma_flat_len(after.transactions.jars@);
    assert(new_rows.len() == old_rows.len() + pend.len());
    assert(new_rows.len() <= u64::MAX);
    assert forall|i: int| 0 <= i < pend.len() implies row_spec(
        new_rows,
        (old_rows.len() + i) as u64,
        ProviderError::MissingSnapshotTx(
            SnapshotSegment::Transactions,
            (old_rows.len() + i) as u64,
        ),
    ) == Ok::<Option<TransactionSigned>, ProviderError>(Some(#[trigger] pend[i])) by {
        assert(new_rows[old_rows.len() + i] == pend[i]);
    }
    if pend.len() > 0 {
        assert(new_rows.subrange(old_rows.len() as int, (old_rows.len() + pend.len()) as int) =~= pend);
    }
}

/// Hash lookup: a snapshotted transaction is found by its hash, and when
/// hashes are unique, the only transaction `transaction_by_hash` may return
/// for it is that transaction. This holds whether or not filters are loaded.
pub proof fn snapshotted_transaction_found_by_hash(p: SnapshotProvider, i: int)
    requires
        p.wf(),
        0 <= i < p.tx_rows().len(),
        forall|a: int, b: int|
            0 <= a < p.tx_rows().len() && 0 <= b < p.tx_rows().len() && (#[trigger] p.tx_rows()[a]).hash
                == (#[trigger] p.tx_rows()[b]).hash ==> a == b,
    ensures
        has_hash(p.tx_rows(), p.tx_rows()[i].hash),
        forall|k: int|
            0 <= k < p.tx_rows().len() && (#[trigger] p.tx_rows()[k]).hash == p.tx_rows()[i].hash
                ==> p.tx_rows()[k] == p.tx_rows()[i],
{
    let rows = p.tx_rows();
    assert(rows[i].hash == rows[i].hash);
}

/// Range scan early stop: when the predicate accepts the rows before
/// position `k` and rejects the row at `k`, and answers the same for the same
/// row, a result that meets the contract of `fetch_range` is exactly the
/// first `k` rows.
pub proof fn scan_stops_at_first_rejection<R, P: Fn(R) -> bool>(
    rows: Seq<R>,
    lo: int,
    hi: int,
    k: int,
    predicate: P,
    v: Seq<R>,
)
    requires
        0 <= lo,
        0 <= k,
        lo + k < hi,
        lo + k < rows.len(),
        forall|i: int| 0 <= i < k ==> #[trigger] predicate.ensures((rows[lo + i],), true),
        predicate.ensures((rows[lo + k],), false),
        forall|x: R, b1: bool, b2: bool|
            #![trigger predicate.ensures((x,), b1), predicate.ensures((x,), b2)]
            predicate.ensures((x,), b1) && predicate.ensures((x,), b2) ==> b1 == b2,
        v == rows.subrange(lo, lo + v.len()),
        lo + v.len() <= rows.len(),
        all_pass(rows, lo, lo + v.len(), predicate),
        lo + v.len() < hi ==> predicate.ensures((rows[lo + v.len()],), false),
    ensures
        v == rows.subrange(lo, lo + k),
{
    if v.len() < k {
        let i = v.len() as int;
        assert(predicate.ensures((rows[lo + i],), true));
    } else if v.len() > k {
        assert(predicate.ensures((rows[lo + k],), true));
    }
}

/// Cross-file scan: the rows numbered `lo..hi`, where `lo` lies in jar `j`
/// and `hi - 1` in jar `j + 1`, are the end of jar `j` followed by the start
/// of jar `j + 1`.
pub proof fn cross_file_scan<R: Copy>(s: SegmentStore<R>, per: int, j: int, lo: u64, hi: u64)
    requires
        s.wf(per),
        0 <= j,
        j + 1 < s.jars@.len(),
        s.jars@[j].holds(lo as int),
        s.jars@[j + 1].holds(hi - 1),
    ensures
        range_spec(s.rows(), lo, hi, s.segment, s.by_block) == Ok::<Seq<R>, ProviderError>(
            s.jars@[j].rows@.subrange(lo - s.jars@[j].first, s.jars@[j].rows@.len() as int)
                + s.jars@[j + 1].rows@.subrange(0, hi - s.jars@[j + 1].first),
        ),
{
    let jars = s.jars@;
    let a = jars[j];
    let b = jars[j + 1];
    lemma_flat_len(jars);
    assert(b.first == a.first + a.rows@.len());
    lemma_flat_index(jars, j + 1, hi - 1 - b.first);
    let want = a.rows@.subrange(lo - a.first, a.rows@.len() as int) + b.rows@.subrange(
        0,
        hi - b.first,
    );
    let got = flat(jars).subrange(lo as int, hi as int);
    assert forall|x: int| 0 <= x < got.len() implies got[x] == want[x] by {
        let n = lo + x;
        if n < b.first {
            lemma_flat_index(jars, j, n - a.first);
        } else {
            lemma_flat_index(jars, j + 1, n - b.first);
        }
    }
    assert(got =~= want);
}

} // verus!
