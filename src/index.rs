use vstd::prelude::*;

use crate::jar::{chained, flat, lemma_flat_len, lemma_chained_prefix, total, Jar};
use crate::segment::BlockRange;

verus! {

/// An entry of a segment's transaction index: the last transaction number of
/// a jar, and the block range of that jar.
#[derive(Clone, Copy, Debug, PartialEq, Eq, Structural)]
pub struct TxIndexEntry {
    pub tx_end: u64,
    pub block_range: BlockRange,
}

/// The transaction index of a segment: one entry per jar that holds rows,
/// in jar order.
pub open spec fn tx_entries<R>(jars: Seq<Jar<R>>) -> Seq<TxIndexEntry>
    decreases jars.len(),
{
    if jars.len() == 0 {
        Seq::empty()
    } else {
        let prev = tx_entries(jars.drop_last());
        let last = jars.last();
        if last.rows@.len() > 0 {
            prev.push(
                TxIndexEntry {
                    tx_end: (last.first + last.rows@.len() - 1) as u64,
                    block_range: last.block_range,
                },
            )
        } else {
            prev
        }
    }
}

/// Position of the first entry of the run of entries at the end of `e` whose
/// `tx_end` is at least `t`; `e.len()` when the last entry is below `t`.
pub open spec fn cover_start(e: Seq<TxIndexEntry>, t: int) -> int
    decreases e.len(),
{
    if e.len() > 0 && e.last().tx_end >= t {
        cover_start(e.drop_last(), t)
    } else {
        e.len() as int
    }
}

pub proof fn lemma_cover_start_bounds(e: Seq<TxIndexEntry>, t: int)
    ensures
        0 <= cover_start(e, t) <= e.len(),
    decreases e.len(),
{
    if e.len() > 0 {
        lemma_cover_start_bounds(e.drop_last(), t);
    }
}

/// With ascending entries, `cover_start` is the first position whose
/// `tx_end` is at least `t`, and `e.len()` when there is none: the lookup
/// picks the entry with the smallest `tx_end >= t`.
pub proof fn lemma_cover_start_is_first(e: Seq<TxIndexEntry>, t: int)
    requires
        forall|a: int, b: int| 0 <= a < b < e.len() ==> e[a].tx_end < e[b].tx_end,
    ensures
        forall|k: int| 0 <= k < cover_start(e, t) ==> e[k].tx_end < t,
        cover_start(e, t) < e.len() ==> e[cover_start(e, t)].tx_end >= t,
    decreases e.len(),
{
    lemma_cover_start_bounds(e, t);
    if e.len() > 0 && e.last().tx_end >= t {
        let p = e.drop_last();
        assert forall|a: int, b: int| 0 <= a < b < p.len() implies p[a].tx_end < p[b].tx_end by {
            assert(p[a] == e[a] && p[b] == e[b]);
        }
        lemma_cover_start_is_first(p, t);
        lemma_cover_start_bounds(p, t);
        let c = cover_start(p, t);
        assert forall|k: int| 0 <= k < c implies e[k].tx_end < t by {
            assert(p[k] == e[k]);
        }
        if c < p.len() {
            assert(p[c] == e[c]);
        }
    } else if e.len() > 0 {
        assert forall|k: int| 0 <= k < e.len() implies e[k].tx_end < t by {
            if k < e.len() - 1 {
                assert(e[k].tx_end < e[e.len() - 1].tx_end);
            }
        }
    }
}

/// First transaction number of the jar of entry `k`: one past the previous
/// entry's `tx_end`, or zero.
pub open spec fn tx_start_of(e: Seq<TxIndexEntry>, k: int) -> int {
    if k == 0 {
        0
    } else {
        e[k - 1].tx_end + 1
    }
}

/// The block range of the jar whose transaction range holds `t`: the entry
/// with the smallest `tx_end >= t`, provided `t` is not below its start.
pub open spec fn locate_tx_spec(e: Seq<TxIndexEntry>, t: int) -> Option<BlockRange> {
    let k = cover_start(e, t);
    if k < e.len() && t >= tx_start_of(e, k) {
        Some(e[k].block_range)
    } else {
        None
    }
}

/// Builds the transaction index of a segment from its jars.
pub fn build_tx_entries<R>(jars: &Vec<Jar<R>>) -> (r: Vec<TxIndexEntry>)
    requires
        chained(jars@),
        total(jars@) <= u64::MAX,
    ensures
        r@ == tx_entries(jars@),
{
    let mut r: Vec<TxIndexEntry> = Vec::new();
    let mut i: usize = 0;
    while i < jars.len()
        invariant
            0 <= i <= jars@.len(),
            chained(jars@),
            total(jars@) <= u64::MAX,
            r@ == tx_entries(jars@.take(i as int)),
        decreases jars@.len() - i,
    {
        proof {
            assert(jars@.take(i + 1).drop_last() == jars@.take(i as int));
            lemma_total_bound(jars@, i as int);
        }
        let jar = &jars[i];
        if jar.rows.len() > 0 {
            r.push(
                TxIndexEntry {
                    tx_end: jar.first + (jar.rows.len() as u64 - 1),
                    block_range: jar.block_range,
                },
            );
        }
        i = i + 1;
    }
    proof {
        assert(jars@.take(jars@.len() as int) == jars@);
    }
    r
}

/// Every jar ends no later than the segment's total.
pub proof fn lemma_total_bound<R>(jars: Seq<Jar<R>>, i: int)
    requires
        chained(jars),
        0 <= i < jars.len(),
    ensures
        jars[i].first + jars[i].rows@.len() <= total(jars),
{
    if i < jars.len() - 1 {
        crate::jar::lemma_first_monotone(jars, i, jars.len() - 1);
    }
}

/// Finds the block range of the jar that holds transaction `t`.
pub fn locate_tx(e: &Vec<TxIndexEntry>, t: u64) -> (r: Option<BlockRange>)
    ensures
        r == locate_tx_spec(e@, t as int),
{
    let mut k: usize = e.len();
    proof {
        assert(e@.take(k as int) == e@);
    }
    while k > 0 && e[k - 1].tx_end >= t
        invariant
            0 <= k <= e@.len(),
            cover_start(e@, t as int) == cover_start(e@.take(k as int), t as int),
            forall|m: int| k <= m < e@.len() ==> #[trigger] e@[m].tx_end >= t,
        decreases k,
    {
        proof {
            assert(e@.take(k as int).drop_last() == e@.take(k - 1));
        }
        k = k - 1;
    }
    proof {
        assert(e@.take(k as int).len() == k);
        assert(cover_start(e@, t as int) == k);
    }
    if k < e.len() && (k == 0 || e[k - 1].tx_end < t) {
        Some(e[k].block_range)
    } else {
        None
    }
}

/// The last entry of the index ends at the segment's last transaction.
pub proof fn lemma_tx_entries_last<R>(jars: Seq<Jar<R>>)
    requires
        chained(jars),
        total(jars) <= u64::MAX,
    ensures
        tx_entries(jars).len() > 0 ==> tx_entries(jars).last().tx_end == total(jars) - 1,
        tx_entries(jars).len() == 0 ==> total(jars) == 0,
        tx_entries(jars).len() <= jars.len(),
    decreases jars.len(),
{
    if jars.len() > 0 {
        let p = jars.drop_last();
        lemma_chained_prefix(jars);
        let l = jars.len() - 1;
        if l > 0 {
            assert(jars[l].first == jars[l - 1].first + jars[l - 1].rows@.len());
            assert(p.last() == jars[l - 1]);
        }
        lemma_tx_entries_last(p);
    }
}

/// With the index built from the jars, transaction `t` is located exactly
/// when the segment holds it, and then in the jar that holds it.
pub proof fn lemma_locate_tx<R>(jars: Seq<Jar<R>>, t: int)
    requires
        chained(jars),
        total(jars) <= u64::MAX,
        0 <= t,
    ensures
        t >= total(jars) ==> locate_tx_spec(tx_entries(jars), t) is None,
        t >= total(jars) ==> cover_start(tx_entries(jars), t) == tx_entries(jars).len(),
        t < total(jars) ==> exists|j: int|
            0 <= j < jars.len() && (#[trigger] jars[j]).holds(t) && locate_tx_spec(
                tx_entries(jars),
                t,
            ) == Some(jars[j].block_range),
    decreases jars.len(),
{
    let e = tx_entries(jars);
    lemma_tx_entries_last(jars);
    if jars.len() == 0 {
        return ;
    }
    let p = jars.drop_last();
    let ep = tx_entries(p);
    let l = jars.len() - 1;
    lemma_chained_prefix(jars);
    if l > 0 {
        assert(jars[l].first == jars[l - 1].first + jars[l - 1].rows@.len());
        assert(p.last() == jars[l - 1]);
        lemma_total_bound(jars, l - 1);
    }
    lemma_tx_entries_last(p);
    assert(total(p) == jars[l].first);
    lemma_locate_tx(p, t);
    if jars[l].rows@.len() == 0 {
        assert(e == ep);
        if t < total(jars) {
            let j = choose|j: int| 0 <= j < p.len() && (#[trigger] p[j]).holds(t) && locate_tx_spec(ep, t) == Some(p[j].block_range);
            assert(p[j] == jars[j]);
        }
    } else {
        assert(e.drop_last() == ep);
        assert(e == ep.push(e.last()));
        if t >= total(jars) {
            assert(cover_start(e, t) == e.len());
        } else {
            assert(cover_start(e, t) == cover_start(ep, t));
            if t < total(p) {
                let j = choose|j: int| 0 <= j < p.len() && (#[trigger] p[j]).holds(t) && locate_tx_spec(ep, t) == Some(p[j].block_range);
                assert(p[j] == jars[j]);
                let k = cover_start(ep, t);
                lemma_cover_start_bounds(ep, t);
                assert(e[k] == ep[k]);
                if k > 0 {
                    assert(e[k - 1] == ep[k - 1]);
                }
            } else {
                let k = ep.len() as int;
                assert(cover_start(e, t) == k);
                assert(e[k].block_range == jars[l].block_range);
                if k > 0 {
                    assert(e[k - 1] == ep[k - 1]);
                }
                assert(jars[l].holds(t));
            }
        }
    }
}

} // verus!
