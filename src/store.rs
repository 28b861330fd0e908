use vstd::prelude::*;

use crate::error::ProviderError;
use crate::index::{
    build_tx_entries, lemma_locate_tx, locate_tx, locate_tx_spec, tx_entries, TxIndexEntry,
};
use crate::jar::{
    chained, dir_wf, flat, last_block, lemma_flat_index, lemma_flat_len, lemma_flat_locate,
    next_block, push_row, extend_to, total, Jar,
};
use crate::primitives::{Hashed, B256};
use crate::segment::{find_fixed_range, BlockRange, SnapshotSegment};

verus! {

/// An append-only writer over one segment: rows wait here, each with its
/// block, until they are committed.
#[derive(Debug)]
pub struct SnapshotProviderRW<R> {
    pub segment: SnapshotSegment,
    pub block_start: u64,
    pub pending: Vec<(u64, R)>,
}

/// The rows a writer holds, in order.
pub open spec fn pending_rows<R>(pending: Seq<(u64, R)>) -> Seq<R> {
    pending.map_values(|p: (u64, R)| p.1)
}

/// The jars of one segment, their index, and the segment's writer.
///
/// `by_block` segments (headers) number rows by block; the others number
/// them by transaction.
#[derive(Debug)]
pub struct SegmentStore<R> {
    pub segment: SnapshotSegment,
    pub by_block: bool,
    pub jars: Vec<Jar<R>>,
    /// Highest block covered by a jar of the segment.
    pub max_block: Option<u64>,
    /// Last transaction number of each jar that holds rows, in jar order.
    pub tx_index: Vec<TxIndexEntry>,
    pub writer: Option<SnapshotProviderRW<R>>,
}

/// The error for a row number that the segment does not hold.
pub open spec fn missing(segment: SnapshotSegment, by_block: bool, n: u64) -> ProviderError {
    if by_block {
        ProviderError::MissingSnapshotBlock(segment, n)
    } else {
        ProviderError::MissingSnapshotTx(segment, n)
    }
}

/// The last block a writer's pending rows or the committed jars reach.
pub open spec fn writer_last_block<R>(jars: Seq<Jar<R>>, pending: Seq<(u64, R)>) -> int {
    if pending.len() > 0 {
        pending.last().0 as int
    } else {
        match last_block(jars) {
            Some(b) => b as int,
            None => 0,
        }
    }
}

pub open spec fn writer_wf<R>(
    w: SnapshotProviderRW<R>,
    jars: Seq<Jar<R>>,
    per: int,
    by_block: bool,
) -> bool {
    let p = w.pending@;
    &&& total(jars) + p.len() <= u64::MAX
    &&& forall|i: int| 0 <= i < p.len() ==> #[trigger] p[i].0 + per <= u64::MAX + 1
    &&& by_block ==> forall|i: int| 0 <= i < p.len() ==> #[trigger] p[i].0 == next_block(jars) + i
    &&& !by_block ==> forall|i: int|
        0 <= i < p.len() ==> #[trigger] p[i].0 >= (match last_block(jars) {
            Some(b) => b as int,
            None => 0,
        })
    &&& !by_block ==> forall|i: int, j: int|
        #![trigger p[i], p[j]]
        0 <= i < j < p.len() ==> p[i].0 <= p[j].0
}

impl<R: Copy> SegmentStore<R> {
    pub open spec fn rows(&self) -> Seq<R> {
        flat(self.jars@)
    }

    pub open spec fn index_wf(&self) -> bool {
        &&& self.max_block == last_block(self.jars@)
        &&& (self.by_block ==> self.tx_index@.len() == 0)
        &&& (!self.by_block ==> self.tx_index@ == tx_entries(self.jars@))
    }

    /// The jars and the writer are well formed, whatever the index holds.
    pub open spec fn data_wf(&self, per: int) -> bool {
        &&& dir_wf(self.jars@, per, self.by_block)
        &&& self.by_block == (self.segment is Headers)
        &&& (self.writer is Some ==> writer_wf(self.writer->0, self.jars@, per, self.by_block)
            && self.writer->0.segment == self.segment)
    }

    pub open spec fn wf(&self, per: int) -> bool {
        &&& self.data_wf(per)
        &&& self.index_wf()
    }

    pub fn new(segment: SnapshotSegment) -> (r: Self)
        ensures
            r.segment == segment,
            r.by_block == (segment is Headers),
            r.jars@.len() == 0,
            r.max_block is None,
            r.writer is None,
            forall|per: int| per > 0 ==> r.wf(per),
    {
        let r = SegmentStore {
            segment,
            by_block: match segment {
                SnapshotSegment::Headers => true,
                _ => false,
            },
            jars: Vec::new(),
            max_block: None,
            tx_index: Vec::new(),
            writer: None,
        };
        proof {
            assert(tx_entries(r.jars@) == Seq::<TxIndexEntry>::empty());
        }
        r
    }

    /// Rebuilds both index maps from the jars.
    pub fn update_index(&mut self)
        requires
            chained(old(self).jars@),
            total(old(self).jars@) <= u64::MAX,
        ensures
            final(self).index_wf(),
            final(self).jars == old(self).jars,
            final(self).writer == old(self).writer,
            final(self).segment == old(self).segment,
            final(self).by_block == old(self).by_block,
    {
        self.max_block = match self.jars.last() {
            Some(j) => Some(j.block_range.end),
            None => None,
        };
        self.tx_index = if self.by_block {
            Vec::new()
        } else {
            build_tx_entries(&self.jars)
        };
    }
}

/// `n` lies in aligned range `n / per`.
pub proof fn lemma_div_range(n: int, per: int)
    requires
        n >= 0,
        per > 0,
    ensures
        (n / per) * per <= n < (n / per) * per + per,
        n / per >= 0,
{
    vstd::arithmetic::div_mod::lemma_fundamental_div_mod(n, per);
    vstd::arithmetic::div_mod::lemma_mod_bound(n, per);
    vstd::arithmetic::div_mod::lemma_div_pos_is_pos(n, per);
    assert((n / per) * per == per * (n / per)) by (nonlinear_arith);
}

/// The jar at position `j` starts at `j * per`, so its start gives back `j`.
pub proof fn lemma_start_div(j: int, per: int)
    requires
        j >= 0,
        per > 0,
    ensures
        (j * per) / per == j,
{
    vstd::arithmetic::div_mod::lemma_div_multiples_vanish(j, per);
    assert(j * per == per * j) by (nonlinear_arith);
}

/// In a segment numbered by block, block `b` below the total lies in jar
/// `b / per`.
pub proof fn lemma_block_jar<R>(jars: Seq<Jar<R>>, per: int, b: int)
    requires
        dir_wf(jars, per, true),
        0 <= b < total(jars),
    ensures
        0 <= b / per < jars.len(),
        jars[b / per].holds(b),
{
    let l = jars.len() - 1;
    let j = b / per;
    lemma_div_range(b, per);
    assert(jars[l].block_range.start == l * per);
    assert(b < jars.len() * per) by (nonlinear_arith)
        requires
            b <= l * per + per - 1,
            l == jars.len() - 1,
    ;
    assert(j < jars.len()) by (nonlinear_arith)
        requires
            j * per <= b,
            b < jars.len() * per,
            per > 0,
    ;
    assert(jars[j].block_range.start == j * per);
    if j < l {
        assert(jars[j].block_range.end == jars[j].block_range.start + per - 1);
    }
}

impl<R: Copy> SegmentStore<R> {
    /// The position of the jar that holds row `n`, found through the index.
    pub fn provider_for(&self, per: u64, n: u64) -> (r: Result<usize, ProviderError>)
        requires
            self.wf(per as int),
        ensures
            r is Ok <==> n < total(self.jars@),
            r matches Ok(j) ==> j < self.jars@.len() && self.jars@[j as int].holds(n as int),
            r matches Err(e) ==> e == missing(self.segment, self.by_block, n),
    {
        let len = self.jars.len();
        if self.by_block {
            match self.max_block {
                Some(m) => {
                    if m >= n {
                        proof {
                            let l = self.jars@.len() - 1;
                            assert(self.jars@[l].block_range.start == l * per);
                            lemma_block_jar(self.jars@, per as int, n as int);
                        }
                        let j = (n / per) as usize;
                        assert(j == n / per);
                        return Ok(j);
                    }
                },
                None => {},
            }
            proof {
                if self.jars@.len() > 0 {
                    let l = self.jars@.len() - 1;
                    assert(self.jars@[l].block_range.start == l * per);
                }
            }
            Err(ProviderError::MissingSnapshotBlock(self.segment, n))
        } else {
            proof {
                lemma_locate_tx(self.jars@, n as int);
            }
            match locate_tx(&self.tx_index, n) {
                Some(range) => {
                    proof {
                        let j = choose|j: int|
                            0 <= j < self.jars@.len() && (#[trigger] self.jars@[j]).holds(n as int)
                                && locate_tx_spec(tx_entries(self.jars@), n as int) == Some(
                                self.jars@[j].block_range,
                            );
                        assert(range.start == j * per);
                        lemma_start_div(j, per as int);
                        assert(range.start / per == j);
                    }
                    Ok((range.start / per) as usize)
                },
                None => Err(ProviderError::MissingSnapshotTx(self.segment, n)),
            }
        }
    }

    /// The row numbered `n`.
    pub fn get(&self, per: u64, n: u64) -> (r: Result<Option<R>, ProviderError>)
        requires
            self.wf(per as int),
        ensures
            r == (if n < total(self.jars@) {
                Ok::<Option<R>, ProviderError>(Some(self.rows()[n as int]))
            } else {
                Err(missing(self.segment, self.by_block, n))
            }),
    {
        match self.provider_for(per, n) {
            Ok(j) => {
                proof {
                    lemma_flat_index(self.jars@, j as int, n - self.jars@[j as int].first);
                }
                Ok(self.jars[j].get(n))
            },
            Err(e) => Err(e),
        }
    }
}

impl<R: Copy> SegmentStore<R> {
    /// Number the next appended row must carry.
    pub open spec fn next_number(&self) -> int {
        total(self.jars@) + match self.writer {
            Some(w) => w.pending@.len() as int,
            None => 0,
        }
    }

    /// Whether `append(per, block, number, _)` is accepted: a writer is open,
    /// `number` is the next row number (for headers also the block), blocks
    /// do not go back, and the numbers stay within `u64`.
    pub open spec fn append_ok(&self, per: int, block: u64, number: u64) -> bool {
        &&& self.writer is Some
        &&& number == self.next_number()
        &&& number + 2 < u64::MAX
        &&& block <= u64::MAX - per
        &&& (self.by_block ==> block == number)
        &&& (!self.by_block ==> block >= writer_last_block(self.jars@, self.writer->0.pending@))
    }

    /// Opens the segment's writer at `block`, unless one is open already.
    pub fn open_writer(&mut self, per: u64, block: u64)
        requires
            old(self).wf(per as int),
        ensures
            final(self).wf(per as int),
            final(self).writer is Some,
            old(self).writer is Some ==> final(self).writer == old(self).writer,
            old(self).writer is None ==> final(self).writer->0.pending@.len() == 0,
            old(self).writer is None ==> final(self).writer->0.block_start == block,
            final(self).jars == old(self).jars,
            final(self).max_block == old(self).max_block,
            final(self).tx_index == old(self).tx_index,
            final(self).segment == old(self).segment,
            final(self).by_block == old(self).by_block,
    {
        if self.writer.is_none() {
            self.writer = Some(
                SnapshotProviderRW { segment: self.segment, block_start: block, pending: Vec::new() },
            );
        }
    }

    /// Drops the writer and the rows it holds.
    pub fn discard_writer(&mut self, per: u64)
        requires
            old(self).wf(per as int),
        ensures
            final(self).wf(per as int),
            final(self).writer is None,
            final(self).jars == old(self).jars,
            final(self).max_block == old(self).max_block,
            final(self).tx_index == old(self).tx_index,
            final(self).segment == old(self).segment,
            final(self).by_block == old(self).by_block,
    {
        self.writer = None;
    }

    /// Hands `row`, numbered `number`, of block `block`, to the writer.
    pub fn append(&mut self, per: u64, block: u64, number: u64, row: R) -> (r: Result<
        (),
        ProviderError,
    >)
        requires
            old(self).wf(per as int),
        ensures
            final(self).wf(per as int),
            r is Ok <==> old(self).append_ok(per as int, block, number),
            old(self).writer is None ==> r == Err::<(), ProviderError>(
                ProviderError::MissingWriter(old(self).segment),
            ),
            r is Ok ==> final(self).writer == Some(
                SnapshotProviderRW {
                    segment: old(self).writer->0.segment,
                    block_start: old(self).writer->0.block_start,
                    pending: final(self).writer->0.pending,
                },
            ),
            r is Ok ==> final(self).writer->0.pending@ == old(self).writer->0.pending@.push(
                (block, row),
            ),
            r is Err ==> final(self).writer == old(self).writer,
            final(self).jars == old(self).jars,
            final(self).max_block == old(self).max_block,
            final(self).tx_index == old(self).tx_index,
            final(self).segment == old(self).segment,
            final(self).by_block == old(self).by_block,
    {
        let ghost jars = self.jars@;
        let total_now: u64 = match self.jars.last() {
            Some(j) => j.first + j.rows.len() as u64,
            None => 0,
        };
        let last_end: u64 = match self.jars.last() {
            Some(j) => j.block_range.end,
            None => 0,
        };
        let mut w = match self.writer.take() {
            Some(w) => w,
            None => {
                return Err(ProviderError::MissingWriter(self.segment));
            },
        };
        let ghost w0 = w;
        proof {
            if jars.len() > 0 {
                assert(jars.last() == jars[jars.len() - 1]);
            }
            if w0.pending@.len() > 0 {
                assert(w0.pending@.last() == w0.pending@[w0.pending@.len() - 1]);
            }
        }
        let expected: u64 = total_now + w.pending.len() as u64;
        let last: u64 = if w.pending.len() > 0 {
            w.pending[w.pending.len() - 1].0
        } else {
            last_end
        };
        let ok = number == expected && number < u64::MAX - 2 && block <= u64::MAX - per && (
        if self.by_block {
            block == number
        } else {
            block >= last
        });
        if !ok {
            let e = if number != expected {
                ProviderError::UnexpectedAppend(self.segment, expected, number)
            } else {
                ProviderError::UnexpectedAppend(self.segment, last, block)
            };
            self.writer = Some(w);
            return Err(e);
        }
        w.pending.push((block, row));
        self.writer = Some(w);
        proof {
            let p = self.writer->0.pending@;
            let prev_pending = w0.pending@;
            assert(p.drop_last() == prev_pending);
            if self.by_block {
                lemma_next_block_total(jars, per as int);
                assert forall|i: int| 0 <= i < p.len() implies #[trigger] p[i].0 == next_block(jars)
                    + i by {
                    if i < prev_pending.len() {
                        assert(p[i] == prev_pending[i]);
                    }
                }
            } else {
                assert forall|i: int, j: int|
                    #![trigger p[i], p[j]]
                    0 <= i < j < p.len() implies p[i].0 <= p[j].0 by {
                    assert(p[i] == prev_pending[i]);
                    if j < prev_pending.len() {
                        assert(p[j] == prev_pending[j]);
                    } else if prev_pending.len() > 0 {
                        assert(prev_pending[i].0 <= prev_pending[prev_pending.len() - 1].0);
                    }
                }
                assert forall|i: int| 0 <= i < p.len() implies #[trigger] p[i].0 >= (match last_block(
                    jars,
                ) {
                    Some(b) => b as int,
                    None => 0,
                }) by {
                    if i < prev_pending.len() {
                        assert(p[i] == prev_pending[i]);
                    } else if prev_pending.len() > 0 {
                        assert(prev_pending[0].0 <= prev_pending[prev_pending.len() - 1].0);
                        assert(prev_pending[0].0 >= (match last_block(jars) {
                            Some(b) => b as int,
                            None => 0,
                        }));
                    }
                }
            }
            assert forall|i: int| 0 <= i < p.len() implies #[trigger] p[i].0 + per <= u64::MAX
                + 1 by {
                if i < prev_pending.len() {
                    assert(p[i] == prev_pending[i]);
                }
            }
        }
        Ok(())
    }

    /// Moves the writer's rows into the jars, opening jars as block ranges
    /// fill, and refreshes the index. The writer stays open, empty.
    pub fn commit(&mut self, per: u64)
        requires
            old(self).wf(per as int),
        ensures
            final(self).wf(per as int),
            final(self).rows() == old(self).rows() + pending_of(old(self).writer),
            old(self).writer is None ==> final(self).writer is None,
            old(self).writer is Some ==> (final(self).writer is Some
                && final(self).writer->0.pending@.len() == 0),
            final(self).segment == old(self).segment,
            final(self).by_block == old(self).by_block,
            forall|j: int|
                0 <= j < old(self).jars@.len() - 1 ==> #[trigger] final(self).jars@[j] == old(
                    self,
                ).jars@[j],
            final(self).jars@.len() >= old(self).jars@.len(),
            pending_of(old(self).writer).len() == 0 ==> final(self).jars@ == old(self).jars@,
            (old(self).writer is Some && old(self).writer->0.pending@.len() > 0) ==> last_block(
                final(self).jars@,
            ) == Some(old(self).writer->0.pending@.last().0),
    {
        let ghost old_jars = self.jars@;
        let w = match self.writer.take() {
            Some(w) => w,
            None => {
                proof {
                    assert(old_jars.len() > 0 ==> old_jars.len() - 1 < old_jars.len());
                }
                return ;
            },
        };
        let ghost p = w.pending@;
        let mut i: usize = 0;
        while i < w.pending.len()
            invariant
                0 <= i <= p.len(),
                p == w.pending@,
                writer_wf(w, old_jars, per as int, self.by_block),
                dir_wf(old_jars, per as int, self.by_block),
                dir_wf(self.jars@, per as int, self.by_block),
                self.segment == old(self).segment,
                self.by_block == old(self).by_block,
                w.segment == self.segment,
                self.by_block == (self.segment is Headers),
                flat(self.jars@) == flat(old_jars) + pending_rows(p.take(i as int)),
                total(self.jars@) == total(old_jars) + i,
                last_block(self.jars@) == (if i > 0 {
                    Some(p[i - 1].0)
                } else {
                    last_block(old_jars)
                }),
                self.jars@.len() >= old_jars.len(),
                i == 0 ==> self.jars@ == old_jars,
                forall|j: int|
                    0 <= j < old_jars.len() - 1 ==> #[trigger] self.jars@[j] == old_jars[j],
            decreases p.len() - i,
        {
            let (block, row) = w.pending[i];
            proof {
                if self.by_block {
                    lemma_next_block_total(old_jars, per as int);
                    if i > 0 {
                        assert(p[i - 1].0 == next_block(old_jars) + i - 1);
                    }
                    assert(p[i as int].0 == next_block(old_jars) + i);
                } else if i > 0 {
                    assert(p[i - 1].0 <= p[i as int].0);
                }
            }
            let ghost before = self.jars@;
            push_row(&mut self.jars, per, self.by_block, block, row);
            proof {
                assert(pending_rows(p.take(i + 1)) == pending_rows(p.take(i as int)).push(row));
                assert forall|j: int| 0 <= j < old_jars.len() - 1 implies #[trigger] self.jars@[j]
                    == old_jars[j] by {
                    assert(before[j] == old_jars[j]);
                    assert(self.jars@[j] == before[j]);
                }
            }
            i = i + 1;
        }
        proof {
            assert(p.take(p.len() as int) == p);
        }
        self.writer = Some(
            SnapshotProviderRW { segment: w.segment, block_start: w.block_start, pending: Vec::new() },
        );
        proof {
            crate::jar::lemma_flat_len(self.jars@);
        }
        self.update_index();
    }
}

/// The rows an optional writer holds.
pub open spec fn pending_of<R>(w: Option<SnapshotProviderRW<R>>) -> Seq<R> {
    match w {
        Some(w) => pending_rows(w.pending@),
        None => Seq::empty(),
    }
}

/// In a segment numbered by block the next block is the total.
pub proof fn lemma_next_block_total<R>(jars: Seq<Jar<R>>, per: int)
    requires
        dir_wf(jars, per, true),
    ensures
        next_block(jars) == total(jars),
{
    if jars.len() > 0 {
        let l = jars.len() - 1;
        assert(jars[l] == jars.last());
    }
}

/// Every row of `rows` from `lo` to `hi` passes `predicate`.
pub open spec fn all_pass<R, P: Fn(R) -> bool>(rows: Seq<R>, lo: int, hi: int, predicate: P) -> bool {
    forall|i: int| lo <= i < hi ==> #[trigger] predicate.ensures((rows[i],), true)
}

impl<R: Copy> SegmentStore<R> {
    /// Rows numbered `lo..hi`, in order, stopping before the first row that
    /// `predicate` rejects. The jar of `lo` is opened first; when a jar runs
    /// out the next one is resolved through the index.
    pub fn fetch_range<P: Fn(R) -> bool>(&self, per: u64, lo: u64, hi: u64, predicate: P) -> (r:
        Result<Vec<R>, ProviderError>)
        requires
            self.wf(per as int),
            forall|x: R| predicate.requires((x,)),
        ensures
            lo >= total(self.jars@) ==> r == Err::<Vec<R>, ProviderError>(
                missing(self.segment, self.by_block, lo),
            ),
            lo < total(self.jars@) && hi <= total(self.jars@) ==> r is Ok,
            r matches Ok(v) ==> {
                &&& v@ == self.rows().subrange(lo as int, lo + v@.len())
                &&& lo + v@.len() <= total(self.jars@)
                &&& lo + v@.len() <= hi || v@.len() == 0
                &&& lo + v@.len() < hi ==> lo + v@.len() < total(self.jars@)
                &&& all_pass(self.rows(), lo as int, lo + v@.len(), predicate)
                &&& lo + v@.len() < hi ==> predicate.ensures((self.rows()[lo + v@.len()],), false)
            },
            r matches Err(e) ==> lo < total(self.jars@) ==> {
                &&& e == missing(self.segment, self.by_block, total(self.jars@) as u64)
                &&& total(self.jars@) < hi
                &&& all_pass(self.rows(), lo as int, total(self.jars@), predicate)
            },
    {
        let mut cur = match self.provider_for(per, lo) {
            Ok(j) => j,
            Err(e) => {
                return Err(e);
            },
        };
        proof {
            lemma_flat_len(self.jars@);
        }
        let mut v: Vec<R> = Vec::new();
        let mut n: u64 = lo;
        let mut stopped = false;
        while n < hi && !stopped
            invariant
                self.wf(per as int),
                forall|x: R| predicate.requires((x,)),
                lo <= n,
                n < hi || n == lo || (n == hi && !stopped),
                lo < total(self.jars@),
                n <= total(self.jars@),
                cur < self.jars@.len(),
                flat(self.jars@).len() == total(self.jars@),
                v@ == self.rows().subrange(lo as int, n as int),
                all_pass(self.rows(), lo as int, n as int, predicate),
                stopped ==> n < hi && n < total(self.jars@) && predicate.ensures(
                    (self.rows()[n as int],),
                    false,
                ),
            decreases hi - n + (if stopped { 0int } else { 1int }),
        {
            if !self.jars[cur].holds_number(n) {
                match self.provider_for(per, n) {
                    Ok(j) => {
                        cur = j;
                    },
                    Err(e) => {
                        return Err(e);
                    },
                }
            }
            proof {
                lemma_flat_index(self.jars@, cur as int, n - self.jars@[cur as int].first);
            }
            let rows_len = self.jars[cur].rows.len();
            assert(n - self.jars@[cur as int].first < rows_len);
            let row = self.jars[cur].rows[(n - self.jars[cur].first) as usize];
            let ghost n0 = n;
            assert(row == self.jars@[cur as int].rows@[n - self.jars@[cur as int].first]);
            assert(self.jars@[cur as int].first + (n - self.jars@[cur as int].first) == n);
            if predicate(row) {
                v.push(row);
                n = n + 1;
                proof {
                    assert(self.rows()[n0 as int] == row);
                    assert(v@ =~= self.rows().subrange(lo as int, n as int));
                    assert forall|i: int| lo <= i < n implies #[trigger] predicate.ensures(
                        (self.rows()[i],),
                        true,
                    ) by {
                        if i < n0 {
                            assert(all_pass(self.rows(), lo as int, n0 as int, predicate));
                        }
                    }
                }
            } else {
                stopped = true;
            }
        }
        Ok(v)
    }
}

/// Some row of `rows` has hash `hash`.
pub open spec fn has_hash<R: Hashed>(rows: Seq<R>, hash: B256) -> bool {
    exists|i: int| 0 <= i < rows.len() && (#[trigger] rows[i]).hash_spec() == hash
}

/// Row `i` of jar `j` is the first row with hash `hash` that the downward
/// search meets: no later jar holds one, nor an earlier row of jar `j`.
pub open spec fn top_hit<R: Hashed>(jars: Seq<Jar<R>>, j: int, i: int, hash: B256) -> bool {
    &&& 0 <= j < jars.len()
    &&& 0 <= i < jars[j].rows@.len()
    &&& jars[j].rows@[i].hash_spec() == hash
    &&& forall|b: int| 0 <= b < i ==> (#[trigger] jars[j].rows@[b]).hash_spec() != hash
    &&& forall|a: int, b: int|
        j < a < jars.len() && 0 <= b < jars[a].rows@.len() ==> (
        #[trigger] jars[a].rows@[b]).hash_spec() != hash
}

/// Row `n` of the segment is the first hit of the downward search.
pub open spec fn top_hit_number<R: Hashed>(jars: Seq<Jar<R>>, n: int, hash: B256) -> bool {
    exists|j: int, i: int| top_hit(jars, j, i, hash) && n == jars[j].first + i
}

/// The downward search has at most one first hit.
pub proof fn lemma_top_hit_unique<R: Hashed>(jars: Seq<Jar<R>>, hash: B256, n1: int, n2: int)
    requires
        top_hit_number(jars, n1, hash),
        top_hit_number(jars, n2, hash),
    ensures
        n1 == n2,
{
    let (j1, i1) = choose|j: int, i: int| top_hit(jars, j, i, hash) && n1 == jars[j].first + i;
    let (j2, i2) = choose|j: int, i: int| top_hit(jars, j, i, hash) && n2 == jars[j].first + i;
    if j1 < j2 {
        assert(jars[j2].rows@[i2].hash_spec() == hash);
    } else if j2 < j1 {
        assert(jars[j1].rows@[i1].hash_spec() == hash);
    } else if i1 < i2 {
        assert(jars[j2].rows@[i1].hash_spec() == hash);
    } else if i2 < i1 {
        assert(jars[j1].rows@[i2].hash_spec() == hash);
    }
}

impl<R: Copy + Hashed> SegmentStore<R> {
    /// Searches the jars from the highest down for a row with hash `hash`;
    /// gives its number and the row.
    pub fn find_by_hash(&self, hash: B256) -> (r: Option<(u64, R)>)
        requires
            chained(self.jars@),
            total(self.jars@) <= u64::MAX,
        ensures
            r is None <==> !has_hash(self.rows(), hash),
            r matches Some((n, x)) ==> n < self.rows().len() && self.rows()[n as int] == x
                && x.hash_spec() == hash,
            r matches Some((n, x)) ==> top_hit_number(self.jars@, n as int, hash),
    {
        let mut j: usize = self.jars.len();
        while j > 0
            invariant
                j <= self.jars@.len(),
                chained(self.jars@),
                total(self.jars@) <= u64::MAX,
                forall|a: int, b: int|
                    j <= a < self.jars@.len() && 0 <= b < self.jars@[a].rows@.len()
                        ==> (#[trigger] self.jars@[a].rows@[b]).hash_spec() != hash,
            decreases j,
        {
            let jar = &self.jars[j - 1];
            let mut i: usize = 0;
            while i < jar.rows.len()
                invariant
                    j > 0,
                    j <= self.jars@.len(),
                    chained(self.jars@),
                    total(self.jars@) <= u64::MAX,
                    *jar == self.jars@[j - 1],
                    i <= jar.rows@.len(),
                    forall|a: int, b: int|
                        j <= a < self.jars@.len() && 0 <= b < self.jars@[a].rows@.len()
                            ==> (#[trigger] self.jars@[a].rows@[b]).hash_spec() != hash,
                    forall|b: int| 0 <= b < i ==> (#[trigger] jar.rows@[b]).hash_spec() != hash,
                decreases jar.rows@.len() - i,
            {
                if jar.rows[i].row_hash() == hash {
                    proof {
                        crate::index::lemma_total_bound(self.jars@, j - 1);
                        lemma_flat_index(self.jars@, j - 1, i as int);
                        let jj = j - 1;
                        assert forall|b: int| 0 <= b < i implies (
                        #[trigger] self.jars@[jj].rows@[b]).hash_spec() != hash by {
                            assert(jar.rows@[b].hash_spec() != hash);
                        }
                        assert(self.jars@[jj].rows@[i as int] == jar.rows@[i as int]);
                        assert(top_hit(self.jars@, jj, i as int, hash));
                    }
                    return Some((jar.first + i as u64, jar.rows[i]));
                }
                i = i + 1;
            }
            j = j - 1;
        }
        proof {
            if has_hash(self.rows(), hash) {
                let n = choose|n: int|
                    0 <= n < self.rows().len() && (#[trigger] self.rows()[n]).hash_spec() == hash;
                let a = lemma_flat_locate(self.jars@, n);
                assert(self.jars@[a].rows@[n - self.jars@[a].first].hash_spec() != hash);
            }
        }
        None
    }
}

/// The rows numbered `lo..hi`, or the error for the first number that is
/// missing; the jar of `lo` must exist even for an empty range.
pub open spec fn range_spec<R>(
    rows: Seq<R>,
    lo: u64,
    hi: u64,
    segment: SnapshotSegment,
    by_block: bool,
) -> Result<Seq<R>, ProviderError> {
    if lo >= rows.len() {
        Err(missing(segment, by_block, lo))
    } else if hi <= rows.len() {
        Ok(rows.subrange(lo as int, if hi < lo { lo as int } else { hi as int }))
    } else {
        Err(missing(segment, by_block, rows.len() as u64))
    }
}

impl<R: Copy> SegmentStore<R> {
    /// All rows numbered `lo..hi`.
    pub fn fetch_all(&self, per: u64, lo: u64, hi: u64) -> (r: Result<Vec<R>, ProviderError>)
        requires
            self.wf(per as int),
        ensures
            r matches Ok(v) ==> range_spec(self.rows(), lo, hi, self.segment, self.by_block)
                == Ok::<Seq<R>, ProviderError>(v@),
            r matches Err(e) ==> range_spec(self.rows(), lo, hi, self.segment, self.by_block)
                == Err::<Seq<R>, ProviderError>(e),
    {
        proof {
            lemma_flat_len(self.jars@);
        }
        let r = self.fetch_range(per, lo, hi, |_row: R| -> (b: bool) ensures b { true });
        proof {
            if r is Ok {
                let v = r->Ok_0;
                if lo < total(self.jars@) && lo < hi {
                    assert(lo + v@.len() == hi);
                }
                assert(v@ =~= self.rows().subrange(lo as int, if hi < lo { lo as int } else { hi as int }));
            }
        }
        r
    }
}

/// In any segment, a block up to the last covered one lies in jar
/// `b / per`, whose block range holds it.
pub proof fn lemma_block_in_jar<R>(jars: Seq<Jar<R>>, per: int, by_block: bool, b: int)
    requires
        dir_wf(jars, per, by_block),
        jars.len() > 0,
        0 <= b <= jars.last().block_range.end,
    ensures
        0 <= b / per < jars.len(),
        jars[b / per].block_range.contains_spec(b),
        jars[b / per].block_range.start == (b / per) * per,
{
    let l = jars.len() - 1;
    let j = b / per;
    lemma_div_range(b, per);
    assert(jars[l] == jars.last());
    assert(jars[l].block_range.start == l * per);
    assert(b < jars.len() * per) by (nonlinear_arith)
        requires
            b <= l * per + per - 1,
            l == jars.len() - 1,
    ;
    assert(j < jars.len()) by (nonlinear_arith)
        requires
            j * per <= b,
            b < jars.len() * per,
            per > 0,
    ;
    assert(jars[j].block_range.start == j * per);
    if j < l {
        assert(jars[j].block_range.end == jars[j].block_range.start + per - 1);
    }
}

impl<R: Copy> SegmentStore<R> {
    /// Block range of the jar that holds block `block`, found through the
    /// highest block of the segment.
    pub fn jar_for_block(&self, per: u64, block: u64) -> (r: Result<BlockRange, ProviderError>)
        requires
            self.wf(per as int),
        ensures
            r is Ok <==> (self.max_block matches Some(m) && m >= block),
            r matches Ok(range) ==> range.start == crate::segment::fixed_start(
                per as int,
                block as int,
            ) && range.end == range.start + per - 1 && range.contains_spec(block as int),
            r matches Err(e) ==> e == ProviderError::MissingSnapshotBlock(self.segment, block),
    {
        let len = self.jars.len();
        match self.max_block {
            Some(m) => {
                if m >= block {
                    proof {
                        lemma_block_in_jar(self.jars@, per as int, self.by_block, block as int);
                    }
                    let j = (block / per) as usize;
                    assert(j == block / per);
                    let start = self.jars[j].block_range.start;
                    return Ok(BlockRange { start, end: start + (per - 1) });
                }
            },
            None => {},
        }
        Err(ProviderError::MissingSnapshotBlock(self.segment, block))
    }
}

impl<R: Copy> SegmentStore<R> {
    /// Makes a segment numbered by transaction cover every block up to
    /// `block`, adding no rows, and refreshes the index.
    pub fn extend_to_block(&mut self, per: u64, block: u64)
        requires
            old(self).wf(per as int),
            !old(self).by_block,
            pending_of(old(self).writer).len() == 0,
            block + per <= u64::MAX + 1,
        ensures
            final(self).wf(per as int),
            final(self).rows() == old(self).rows(),
            final(self).jars@.len() >= old(self).jars@.len(),
            final(self).writer == old(self).writer,
            final(self).segment == old(self).segment,
            final(self).by_block == old(self).by_block,
            final(self).max_block == (match old(self).max_block {
                Some(m) => if m >= block { Some(m) } else { Some(block) },
                None => Some(block),
            }),
    {
        if let Some(m) = self.max_block {
            if m >= block {
                return;
            }
        }
        proof {
            if self.writer is Some {
                assert(self.writer->0.pending@.len() == pending_of(self.writer).len());
            }
            if self.jars@.len() > 0 {
                assert(self.jars@.last() == self.jars@[self.jars@.len() - 1]);
            }
        }
        extend_to(&mut self.jars, per, block);
        proof {
            lemma_flat_len(self.jars@);
        }
        self.update_index();
    }
}

} // verus!
