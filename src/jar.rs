use vstd::prelude::*;

use crate::segment::BlockRange;

verus! {

/// One immutable file of a segment: the rows for one aligned block range.
///
/// `block_range.start` is aligned to the segment's width; `block_range.end`
/// is the last block the jar covers. `first` is the number of `rows[0]`:
/// a block number for headers, a transaction number otherwise.
#[derive(Debug)]
pub struct Jar<R> {
    pub block_range: BlockRange,
    pub first: u64,
    pub rows: Vec<R>,
}

impl<R> Jar<R> {
    /// Whether the jar holds the row numbered `n`.
    pub open spec fn holds(&self, n: int) -> bool {
        self.first <= n < self.first + self.rows@.len()
    }

    pub fn holds_number(&self, n: u64) -> (r: bool)
        ensures
            r == self.holds(n as int),
    {
        self.first <= n && n - self.first < self.rows.len() as u64
    }
}

impl<R: Copy> Jar<R> {
    /// The row numbered `n`, if this jar holds it.
    pub fn get(&self, n: u64) -> (r: Option<R>)
        ensures
            r == (if self.holds(n as int) {
                Some(self.rows@[n - self.first])
            } else {
                None::<R>
            }),
    {
        if self.first <= n && n - self.first < self.rows.len() as u64 {
            Some(self.rows[(n - self.first) as usize])
        } else {
            None
        }
    }
}

/// All rows of a segment, jar after jar.
pub open spec fn flat<R>(jars: Seq<Jar<R>>) -> Seq<R>
    decreases jars.len(),
{
    if jars.len() == 0 {
        Seq::empty()
    } else {
        flat(jars.drop_last()) + jars.last().rows@
    }
}

/// Number one past the last row of a segment.
pub open spec fn total<R>(jars: Seq<Jar<R>>) -> int {
    if jars.len() == 0 {
        0
    } else {
        jars.last().first + jars.last().rows@.len()
    }
}

/// Row numbers run on from one jar to the next, from zero.
pub open spec fn chained<R>(jars: Seq<Jar<R>>) -> bool {
    &&& jars.len() > 0 ==> jars[0].first == 0
    &&& forall|i: int, j: int|
        #![trigger jars[i], jars[j]]
        0 <= i && j == i + 1 && j < jars.len() ==> jars[j].first == jars[i].first
            + jars[i].rows@.len()
}

pub proof fn lemma_chained_push<R>(before: Seq<Jar<R>>, jar: Jar<R>)
    requires
        chained(before),
        jar.first == total(before),
    ensures
        chained(before.push(jar)),
{
    let a = before.push(jar);
    assert forall|i: int, j: int|
        #![trigger a[i], a[j]]
        0 <= i && j == i + 1 && j < a.len() implies a[j].first == a[i].first
            + a[i].rows@.len() by {
        assert(a[i] == before[i]);
        if j < before.len() {
            assert(a[j] == before[j]);
        }
    }
}

pub proof fn lemma_chained_replace_last<R>(before: Seq<Jar<R>>, jar: Jar<R>)
    requires
        chained(before),
        before.len() > 0,
        jar.first == before.last().first,
    ensures
        chained(before.drop_last().push(jar)),
{
    let a = before.drop_last().push(jar);
    assert forall|i: int, j: int|
        #![trigger a[i], a[j]]
        0 <= i && j == i + 1 && j < a.len() implies a[j].first == a[i].first
            + a[i].rows@.len() by {
        assert(a[i] == before[i]);
        assert(before[j].first == before[i].first + before[i].rows@.len());
        if j < before.len() - 1 {
            assert(a[j] == before[j]);
        }
    }
    if a.len() > 0 {
        if before.len() > 1 {
            assert(a[0] == before[0]);
        }
    }
}

/// Jar `j` covers `[j * per, end]`; every jar but the last covers its whole
/// aligned range; with `by_block`, row numbers are the block numbers.
pub open spec fn dir_wf<R>(jars: Seq<Jar<R>>, per: int, by_block: bool) -> bool {
    &&& per > 0
    &&& chained(jars)
    &&& total(jars) <= u64::MAX
    &&& forall|j: int|
        0 <= j < jars.len() ==> {
            &&& (#[trigger] jars[j]).block_range.start == j * per
            &&& jars[j].block_range.start + per - 1 <= u64::MAX
            &&& jars[j].block_range.start <= jars[j].block_range.end
            &&& jars[j].block_range.end <= jars[j].block_range.start + per - 1
            &&& (j + 1 < jars.len() ==> jars[j].block_range.end == jars[j].block_range.start + per
                - 1)
            &&& (by_block ==> jars[j].first == jars[j].block_range.start && jars[j].rows@.len()
                == jars[j].block_range.end - jars[j].block_range.start + 1)
        }
}

/// The last block a segment covers, if any.
pub open spec fn last_block<R>(jars: Seq<Jar<R>>) -> Option<u64> {
    if jars.len() == 0 {
        None
    } else {
        Some(jars.last().block_range.end)
    }
}

/// The block a segment that is read by block number expects next.
pub open spec fn next_block<R>(jars: Seq<Jar<R>>) -> int {
    match last_block(jars) {
        Some(b) => b + 1,
        None => 0,
    }
}

pub proof fn lemma_chained_prefix<R>(jars: Seq<Jar<R>>)
    requires
        chained(jars),
        jars.len() > 0,
    ensures
        chained(jars.drop_last()),
{
    let p = jars.drop_last();
    assert forall|i: int, j: int|
        #![trigger p[i], p[j]]
        0 <= i && j == i + 1 && j < p.len() implies p[j].first == p[i].first
            + p[i].rows@.len() by {
        assert(p[i] == jars[i]);
        assert(p[j] == jars[j]);
        assert(jars[j].first == jars[i].first + jars[i].rows@.len());
    }
    if p.len() > 0 {
        assert(p[0] == jars[0]);
    }
}

/// In a chained segment the flat rows number exactly `total`.
pub proof fn lemma_flat_len<R>(jars: Seq<Jar<R>>)
    requires
        chained(jars),
    ensures
        flat(jars).len() == total(jars),
    decreases jars.len(),
{
    if jars.len() > 0 {
        let p = jars.drop_last();
        lemma_chained_prefix(jars);
        lemma_flat_len(p);
        let l = jars.len() - 1;
        if l > 0 {
            assert(jars[l].first == jars[l - 1].first + jars[l - 1].rows@.len());
        }
        if l > 0 {
            assert(p.last() == jars[l - 1]);
        }
    }
}

/// Row `i` of jar `j` is the flat row numbered `first + i`.
pub proof fn lemma_flat_index<R>(jars: Seq<Jar<R>>, j: int, i: int)
    requires
        chained(jars),
        0 <= j < jars.len(),
        0 <= i < jars[j].rows@.len(),
    ensures
        jars[j].first + i < flat(jars).len(),
        flat(jars)[jars[j].first + i] == jars[j].rows@[i],
    decreases jars.len(),
{
    let p = jars.drop_last();
    lemma_chained_prefix(jars);
    lemma_flat_len(p);
    lemma_flat_len(jars);
    let l = jars.len() - 1;
    if l > 0 {
        assert(jars[l].first == jars[l - 1].first + jars[l - 1].rows@.len());
    }
    if l > 0 {
        assert(p.last() == jars[l - 1]);
    }
    if j < l {
        assert(p[j] == jars[j]);
        lemma_flat_index(p, j, i);
        let k = jars[j].first + jars[j].rows@.len();
        assert(jars[j + 1].first == k);
        lemma_first_monotone(jars, j + 1, l);
    }
}

/// `first` does not decrease from jar to jar.
pub proof fn lemma_first_monotone<R>(jars: Seq<Jar<R>>, a: int, b: int)
    requires
        chained(jars),
        0 <= a <= b < jars.len(),
    ensures
        jars[a].first <= jars[b].first,
        b > a ==> jars[a].first + jars[a].rows@.len() <= jars[b].first,
    decreases b - a,
{
    if a < b {
        lemma_first_monotone(jars, a, b - 1);
        assert(jars[b].first == jars[b - 1].first + jars[b - 1].rows@.len());
        assert(jars[b - 1].first >= jars[a].first);
    }
}

/// Every flat row lies in some jar.
pub proof fn lemma_flat_locate<R>(jars: Seq<Jar<R>>, n: int) -> (j: int)
    requires
        chained(jars),
        0 <= n < flat(jars).len(),
    ensures
        0 <= j < jars.len(),
        jars[j].holds(n),
        flat(jars)[n] == jars[j].rows@[n - jars[j].first],
    decreases jars.len(),
{
    let p = jars.drop_last();
    lemma_chained_prefix(jars);
    lemma_flat_len(p);
    lemma_flat_len(jars);
    let l = jars.len() - 1;
    if l > 0 {
        assert(jars[l].first == jars[l - 1].first + jars[l - 1].rows@.len());
    }
    if l > 0 {
        assert(p.last() == jars[l - 1]);
    }
    if n < flat(p).len() {
        let j = lemma_flat_locate(p, n);
        assert(p[j] == jars[j]);
        j
    } else {
        l
    }
}

/// Appends `row` at block `block`: to the last jar while `block` lies in its
/// aligned range, else to a new jar, after empty jars for any aligned range
/// skipped over. Jars left behind are closed at the end of their range.
pub fn push_row<R: Copy>(jars: &mut Vec<Jar<R>>, per: u64, by_block: bool, block: u64, row: R)
    requires
        dir_wf(old(jars)@, per as int, by_block),
        block + per <= u64::MAX + 1,
        total(old(jars)@) < u64::MAX,
        by_block ==> block == next_block(old(jars)@),
        !by_block && old(jars)@.len() > 0 ==> block >= old(jars)@.last().block_range.end,
    ensures
        dir_wf(final(jars)@, per as int, by_block),
        flat(final(jars)@) == flat(old(jars)@).push(row),
        total(final(jars)@) == total(old(jars)@) + 1,
        last_block(final(jars)@) == Some(block),
        final(jars)@.len() >= old(jars)@.len(),
        forall|j: int|
            0 <= j < old(jars)@.len() - 1 ==> #[trigger] final(jars)@[j] == old(jars)@[j],
{
    let ghost old_jars = jars@;
    let n = jars.len();
    if n > 0 && block <= jars[n - 1].block_range.start + (per - 1) {
        let mut last = jars.pop().unwrap();
        proof {
            assert(old_jars.drop_last() == jars@);
        }
        last.rows.push(row);
        last.block_range = BlockRange { start: last.block_range.start, end: block };
        jars.push(last);
        proof {
            assert(jars@.drop_last() == old_jars.drop_last());
            assert forall|j: int| 0 <= j < jars@.len() - 1 implies #[trigger] jars@[j]
                == old_jars[j] by {}
            lemma_chained_replace_last(old_jars, last);
            assert(jars@[n - 1] == last);
            assert(old_jars[n - 1].block_range.start == (n - 1) * per);
        }
        return ;
    }
    // Close the last jar and open jars up to the aligned range of `block`.
    let mut next_start: u64 = 0;
    let mut first: u64 = 0;
    if n > 0 {
        let mut last = jars.pop().unwrap();
        proof {
            assert(old_jars.drop_last() == jars@);
            assert(old_jars[n - 1].block_range.start == (n - 1) * per);
        }
        next_start = last.block_range.start + per;
        first = last.first + last.rows.len() as u64;
        last.block_range = BlockRange {
            start: last.block_range.start,
            end: last.block_range.start + (per - 1),
        };
        jars.push(last);
        proof {
            assert(next_start == n * per) by (nonlinear_arith)
                requires
                    next_start == (n - 1) * per + per,
            ;
            assert forall|j: int| 0 <= j < jars@.len() - 1 implies #[trigger] jars@[j]
                == old_jars[j] by {}
            assert(jars@[n - 1] == last);
            lemma_chained_replace_last(old_jars, last);
            assert(flat(jars@) == flat(old_jars)) by {
                assert(jars@.drop_last() == old_jars.drop_last());
            }
            if by_block {
                assert(old_jars[n - 1].block_range.end == next_start - 1);
            }
        }
    }
    while next_start + (per - 1) < block
        invariant
            dir_wf(jars@, per as int, by_block),
            next_start == jars@.len() * per,
            next_start <= block,
            first == total(jars@),
            flat(jars@) == flat(old_jars),
            total(jars@) == total(old_jars),
            jars@.len() >= old_jars.len(),
            jars@.len() > 0 ==> jars@.last().block_range.end == jars@.last().block_range.start
                + per - 1,
            forall|j: int| 0 <= j < old_jars.len() - 1 ==> #[trigger] jars@[j] == old_jars[j],
            by_block ==> next_start == block,
            block + per <= u64::MAX + 1,
            per > 0,
        decreases block - next_start,
    {
        let ghost before = jars@;
        jars.push(Jar { block_range: BlockRange { start: next_start, end: next_start + (per - 1) }, first, rows: Vec::new() });
        proof {
            assert(jars@.drop_last() == before);
            assert(jars@ == before.push(jars@.last()));
            lemma_chained_push(before, jars@.last());
            assert forall|j: int| 0 <= j < jars@.len() implies {
                &&& (#[trigger] jars@[j]).block_range.start == j * per
            &&& jars@[j].block_range.start + per - 1 <= u64::MAX
                &&& jars@[j].block_range.start + per - 1 <= u64::MAX
                &&& jars@[j].block_range.start <= jars@[j].block_range.end
                &&& jars@[j].block_range.end <= jars@[j].block_range.start + per - 1
                &&& (j + 1 < jars@.len() ==> jars@[j].block_range.end
                    == jars@[j].block_range.start + per - 1)
                &&& (by_block ==> jars@[j].first == jars@[j].block_range.start
                    && jars@[j].rows@.len() == jars@[j].block_range.end
                    - jars@[j].block_range.start + 1)
            } by {
                if j < before.len() {
                    assert(jars@[j] == before[j]);
                }
            }
            assert(flat(jars@) == flat(before) + Seq::<R>::empty());
            assert(flat(before) + Seq::<R>::empty() == flat(before));
            assert(next_start + per == (jars@.len()) * per) by (nonlinear_arith)
                requires
                    next_start == (jars@.len() - 1) * per,
            ;
        }
        next_start = next_start + per;
    }
    let ghost before = jars@;
    let mut rows: Vec<R> = Vec::new();
    rows.push(row);
    jars.push(Jar { block_range: BlockRange { start: next_start, end: block }, first, rows });
    proof {
        assert(jars@.drop_last() == before);
        assert(jars@ == before.push(jars@.last()));
        lemma_chained_push(before, jars@.last());
        assert forall|j: int| 0 <= j < jars@.len() implies {
            &&& (#[trigger] jars@[j]).block_range.start == j * per
            &&& jars@[j].block_range.start + per - 1 <= u64::MAX
            &&& jars@[j].block_range.start <= jars@[j].block_range.end
            &&& jars@[j].block_range.end <= jars@[j].block_range.start + per - 1
            &&& (j + 1 < jars@.len() ==> jars@[j].block_range.end == jars@[j].block_range.start
                + per - 1)
            &&& (by_block ==> jars@[j].first == jars@[j].block_range.start
                && jars@[j].rows@.len() == jars@[j].block_range.end - jars@[j].block_range.start
                + 1)
        } by {
            if j < before.len() {
                assert(jars@[j] == before[j]);
            }
        }
        assert(rows@ == seq![row]);
    }
}

/// Extends a segment numbered by transaction to cover every block up to
/// `block` without adding rows: the last jar's range grows while `block`
/// lies in its aligned range, else empty jars are opened up to it.
pub fn extend_to<R: Copy>(jars: &mut Vec<Jar<R>>, per: u64, block: u64)
    requires
        dir_wf(old(jars)@, per as int, false),
        block + per <= u64::MAX + 1,
        old(jars)@.len() > 0 ==> block >= old(jars)@.last().block_range.end,
    ensures
        dir_wf(final(jars)@, per as int, false),
        flat(final(jars)@) == flat(old(jars)@),
        total(final(jars)@) == total(old(jars)@),
        last_block(final(jars)@) == Some(block),
        final(jars)@.len() >= old(jars)@.len(),
        forall|j: int|
            0 <= j < old(jars)@.len() - 1 ==> #[trigger] final(jars)@[j] == old(jars)@[j],
{
    let by_block = false;
    let ghost old_jars = jars@;
    let n = jars.len();
    if n > 0 && block <= jars[n - 1].block_range.start + (per - 1) {
        let mut last = jars.pop().unwrap();
        proof {
            assert(old_jars.drop_last() == jars@);
        }
        last.block_range = BlockRange { start: last.block_range.start, end: block };
        jars.push(last);
        proof {
            assert(jars@.drop_last() == old_jars.drop_last());
            assert forall|j: int| 0 <= j < jars@.len() - 1 implies #[trigger] jars@[j]
                == old_jars[j] by {}
            lemma_chained_replace_last(old_jars, last);
            assert(jars@[n - 1] == last);
            assert(old_jars[n - 1].block_range.start == (n - 1) * per);
        }
        return ;
    }
    // Close the last jar and open jars up to the aligned range of `block`.
    let mut next_start: u64 = 0;
    let mut first: u64 = 0;
    if n > 0 {
        let mut last = jars.pop().unwrap();
        proof {
            assert(old_jars.drop_last() == jars@);
            assert(old_jars[n - 1].block_range.start == (n - 1) * per);
        }
        next_start = last.block_range.start + per;
        first = last.first + last.rows.len() as u64;
        last.block_range = BlockRange {
            start: last.block_range.start,
            end: last.block_range.start + (per - 1),
        };
        jars.push(last);
        proof {
            assert(next_start == n * per) by (nonlinear_arith)
                requires
                    next_start == (n - 1) * per + per,
            ;
            assert forall|j: int| 0 <= j < jars@.len() - 1 implies #[trigger] jars@[j]
                == old_jars[j] by {}
            assert(jars@[n - 1] == last);
            lemma_chained_replace_last(old_jars, last);
            assert(flat(jars@) == flat(old_jars)) by {
                assert(jars@.drop_last() == old_jars.drop_last());
            }
            if by_block {
                assert(old_jars[n - 1].block_range.end == next_start - 1);
            }
        }
    }
    while next_start + (per - 1) < block
        invariant
            dir_wf(jars@, per as int, by_block),
            next_start == jars@.len() * per,
            next_start <= block,
            first == total(jars@),
            flat(jars@) == flat(old_jars),
            total(jars@) == total(old_jars),
            jars@.len() >= old_jars.len(),
            jars@.len() > 0 ==> jars@.last().block_range.end == jars@.last().block_range.start
                + per - 1,
            forall|j: int| 0 <= j < old_jars.len() - 1 ==> #[trigger] jars@[j] == old_jars[j],
            !by_block,
            block + per <= u64::MAX + 1,
            per > 0,
        decreases block - next_start,
    {
        let ghost before = jars@;
        jars.push(Jar { block_range: BlockRange { start: next_start, end: next_start + (per - 1) }, first, rows: Vec::new() });
        proof {
            assert(jars@.drop_last() == before);
            assert(jars@ == before.push(jars@.last()));
            lemma_chained_push(before, jars@.last());
            assert forall|j: int| 0 <= j < jars@.len() implies {
                &&& (#[trigger] jars@[j]).block_range.start == j * per
            &&& jars@[j].block_range.start + per - 1 <= u64::MAX
                &&& jars@[j].block_range.start + per - 1 <= u64::MAX
                &&& jars@[j].block_range.start <= jars@[j].block_range.end
                &&& jars@[j].block_range.end <= jars@[j].block_range.start + per - 1
                &&& (j + 1 < jars@.len() ==> jars@[j].block_range.end
                    == jars@[j].block_range.start + per - 1)
                &&& (by_block ==> jars@[j].first == jars@[j].block_range.start
                    && jars@[j].rows@.len() == jars@[j].block_range.end
                    - jars@[j].block_range.start + 1)
            } by {
                if j < before.len() {
                    assert(jars@[j] == before[j]);
                }
            }
            assert(flat(jars@) == flat(before) + Seq::<R>::empty());
            assert(flat(before) + Seq::<R>::empty() == flat(before));
            assert(next_start + per == (jars@.len()) * per) by (nonlinear_arith)
                requires
                    next_start == (jars@.len() - 1) * per,
            ;
        }
        next_start = next_start + per;
    }
    let ghost before = jars@;
    let rows: Vec<R> = Vec::new();
    jars.push(Jar { block_range: BlockRange { start: next_start, end: block }, first, rows });
    proof {
        assert(jars@.drop_last() == before);
        assert(jars@ == before.push(jars@.last()));
        lemma_chained_push(before, jars@.last());
        assert forall|j: int| 0 <= j < jars@.len() implies {
            &&& (#[trigger] jars@[j]).block_range.start == j * per
            &&& jars@[j].block_range.start + per - 1 <= u64::MAX
            &&& jars@[j].block_range.start <= jars@[j].block_range.end
            &&& jars@[j].block_range.end <= jars@[j].block_range.start + per - 1
            &&& (j + 1 < jars@.len() ==> jars@[j].block_range.end == jars@[j].block_range.start
                + per - 1)
            &&& (by_block ==> jars@[j].first == jars@[j].block_range.start
                && jars@[j].rows@.len() == jars@[j].block_range.end - jars@[j].block_range.start
                + 1)
        } by {
            if j < before.len() {
                assert(jars@[j] == before[j]);
            }
        }
        assert(flat(jars@) == flat(before) + rows@);
        assert(rows@ =~= Seq::<R>::empty());
        assert(flat(before) + Seq::<R>::empty() == flat(before));
    }
}

} // verus!
