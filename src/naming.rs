use vstd::prelude::*;

use crate::segment::{BlockRange, SnapshotSegment};

verus! {

pub open spec fn is_digit(b: u8) -> bool {
    48 <= b <= 57
}

/// Decimal digits of `n`, without leading zeros.
pub open spec fn digit_seq(n: nat) -> Seq<u8>
    decreases n,
{
    if n < 10 {
        seq![(48 + n) as u8]
    } else {
        digit_seq(n / 10).push((48 + n % 10) as u8)
    }
}

/// Value of a sequence of decimal digits.
pub open spec fn value_of(d: Seq<u8>) -> nat
    decreases d.len(),
{
    if d.len() == 0 {
        0
    } else {
        value_of(d.drop_last()) * 10 + (d.last() as int - 48) as nat
    }
}

pub open spec fn all_digits(d: Seq<u8>) -> bool {
    forall|i: int| 0 <= i < d.len() ==> is_digit(#[trigger] d[i])
}

/// The bytes of a segment's name: `headers`, `transactions`, `receipts`.
pub open spec fn segment_bytes(s: SnapshotSegment) -> Seq<u8> {
    match s {
        SnapshotSegment::Headers => seq![104u8, 101, 97, 100, 101, 114, 115],
        SnapshotSegment::Transactions => seq![116u8, 114, 97, 110, 115, 97, 99, 116, 105, 111, 110, 115],
        SnapshotSegment::Receipts => seq![114u8, 101, 99, 101, 105, 112, 116, 115],
    }
}

/// A jar's file name: `{segment}_{start}_{end}`.
pub open spec fn filename_spec(s: SnapshotSegment, g: BlockRange) -> Seq<u8> {
    segment_bytes(s) + seq![95u8] + digit_seq(g.start as nat) + seq![95u8] + digit_seq(g.end as nat)
}

pub proof fn lemma_digit_seq(n: nat)
    ensures
        digit_seq(n).len() >= 1,
        all_digits(digit_seq(n)),
        value_of(digit_seq(n)) == n,
    decreases n,
{
    if n >= 10 {
        lemma_digit_seq(n / 10);
        let d = digit_seq(n);
        assert(d.drop_last() == digit_seq(n / 10));
        assert forall|i: int| 0 <= i < d.len() implies is_digit(#[trigger] d[i]) by {
            if i < d.len() - 1 {
                assert(d[i] == digit_seq(n / 10)[i]);
            }
        }
        assert(n == (n / 10) * 10 + n % 10) by (nonlinear_arith);
        assert(d.last() == (48 + n % 10) as u8);
        assert(n % 10 < 10) by (nonlinear_arith);
        assert(value_of(d) == value_of(digit_seq(n / 10)) * 10 + n % 10);
    } else {
        let d = digit_seq(n);
        assert(d.drop_last() =~= Seq::<u8>::empty());
        assert(d.last() == (48 + n) as u8);
        assert(value_of(d) == value_of(d.drop_last()) * 10 + (d.last() as int - 48) as nat);
    }
}

/// A longer run of digits is worth at least as much as its prefix.
pub proof fn lemma_value_prefix(d: Seq<u8>, a: int, b: int)
    requires
        0 <= a <= b <= d.len(),
        all_digits(d),
    ensures
        value_of(d.subrange(0, a)) <= value_of(d.subrange(0, b)),
    decreases b - a,
{
    if a < b {
        lemma_value_prefix(d, a, b - 1);
        assert(d.subrange(0, b).drop_last() == d.subrange(0, b - 1));
        assert(is_digit(d[b - 1]));
    }
}

fn push_digits(v: &mut Vec<u8>, n: u64)
    ensures
        final(v)@ == old(v)@ + digit_seq(n as nat),
    decreases n,
{
    if n >= 10 {
        push_digits(v, n / 10);
    }
    v.push((48 + n % 10) as u8);
    proof {
        if n < 10 {
            assert(digit_seq(n as nat) =~= seq![(48 + n) as u8]);
        }
    }
    assert(v@ =~= old(v)@ + digit_seq(n as nat));
}

fn segment_name(s: SnapshotSegment) -> (r: Vec<u8>)
    ensures
        r@ == segment_bytes(s),
{
    let r = match s {
        SnapshotSegment::Headers => vec![104u8, 101, 97, 100, 101, 114, 115],
        SnapshotSegment::Transactions => vec![116u8, 114, 97, 110, 115, 97, 99, 116, 105, 111, 110, 115],
        SnapshotSegment::Receipts => vec![114u8, 101, 99, 101, 105, 112, 116, 115],
    };
    assert(r@ =~= segment_bytes(s));
    r
}

/// The file name of the jar of `segment` over `range`.
pub fn filename(segment: SnapshotSegment, range: BlockRange) -> (r: Vec<u8>)
    ensures
        r@ == filename_spec(segment, range),
{
    let mut r = segment_name(segment);
    r.push(95u8);
    push_digits(&mut r, range.start);
    r.push(95u8);
    push_digits(&mut r, range.end);
    assert(r@ =~= filename_spec(segment, range));
    r
}

fn bytes_eq(a: &[u8], b: &Vec<u8>) -> (r: bool)
    ensures
        r == (a@ == b@),
{
    if a.len() != b.len() {
        return false;
    }
    let mut i: usize = 0;
    while i < a.len()
        invariant
            a@.len() == b@.len(),
            i <= a@.len(),
            forall|k: int| 0 <= k < i ==> a@[k] == b@[k],
        decreases a@.len() - i,
    {
        if a[i] != b[i] {
            return false;
        }
        i = i + 1;
    }
    assert(a@ =~= b@);
    true
}

/// Reads the run of digits of `name` that starts at `pos`: its value and
/// the position right after it.
fn read_number(name: &[u8], pos: usize) -> (r: Option<(u64, usize)>)
    ensures
        r matches Some((v, end)) ==> pos < end <= name@.len() && all_digits(
            name@.subrange(pos as int, end as int),
        ) && v == value_of(name@.subrange(pos as int, end as int)),
        forall|k: int|
            pos < k <= name@.len() && all_digits(#[trigger] name@.subrange(pos as int, k)) && (k
                == name@.len() || !is_digit(name@[k])) && value_of(name@.subrange(pos as int, k))
                <= u64::MAX ==> r == Some((value_of(name@.subrange(pos as int, k)) as u64, k as usize)),
{
    let mut i: usize = pos;
    let mut v: u64 = 0;
    if pos >= name.len() {
        return None;
    }
    while i < name.len() && 48 <= name[i] && name[i] <= 57
        invariant
            pos <= i <= name@.len(),
            all_digits(name@.subrange(pos as int, i as int)),
            v == value_of(name@.subrange(pos as int, i as int)),
            forall|k: int|
                pos < k <= name@.len() && all_digits(#[trigger] name@.subrange(pos as int, k)) && (k
                    == name@.len() || !is_digit(name@[k])) ==> i <= k,
        decreases name@.len() - i,
    {
        let d = name[i];
        let next: u128 = (v as u128) * 10 + (d as u128 - 48);
        proof {
            let s1 = name@.subrange(pos as int, i + 1);
            assert(s1.drop_last() =~= name@.subrange(pos as int, i as int));
            assert forall|k: int|
                pos < k <= name@.len() && all_digits(#[trigger] name@.subrange(pos as int, k)) && (k
                    == name@.len() || !is_digit(name@[k])) implies i + 1 <= k by {
                if k == i {
                    assert(!is_digit(name@[k]));
                }
            }
            assert(all_digits(s1)) by {
                assert forall|j: int| 0 <= j < s1.len() implies is_digit(#[trigger] s1[j]) by {
                    if j < s1.len() - 1 {
                        assert(s1[j] == name@.subrange(pos as int, i as int)[j]);
                    }
                }
            }
        }
        if next > u64::MAX as u128 {
            proof {
                assert forall|k: int|
                    pos < k <= name@.len() && all_digits(#[trigger] name@.subrange(pos as int, k))
                        && (k == name@.len() || !is_digit(name@[k])) implies value_of(
                    name@.subrange(pos as int, k),
                ) > u64::MAX by {
                    let full = name@.subrange(pos as int, k);
                    lemma_value_prefix(full, i + 1 - pos, k - pos);
                    assert(full.subrange(0, i + 1 - pos) =~= name@.subrange(pos as int, i + 1));
                    assert(full.subrange(0, k - pos) =~= full);
                }
            }
            return None;
        }
        v = next as u64;
        i = i + 1;
    }
    if i == pos {
        proof {
            assert forall|k: int|
                pos < k <= name@.len() && all_digits(#[trigger] name@.subrange(pos as int, k)) && (k
                    == name@.len() || !is_digit(name@[k])) implies false by {
                assert(name@.subrange(pos as int, k)[0] == name@[pos as int]);
            }
        }
        return None;
    }
    proof {
        assert forall|k: int|
            pos < k <= name@.len() && all_digits(#[trigger] name@.subrange(pos as int, k)) && (k
                == name@.len() || !is_digit(name@[k])) implies k == i by {
            if i < k {
                assert(name@.subrange(pos as int, k)[i - pos] == name@[i as int]);
            }
        }
    }
    Some((v, i))
}

/// The block range in `name` when it is the file name of a jar of
/// `segment`.
pub fn parse_for_segment(name: &[u8], segment: SnapshotSegment) -> (r: Option<BlockRange>)
    ensures
        r matches Some(g) ==> name@ == filename_spec(segment, g),
        (exists|g: BlockRange| name@ == filename_spec(segment, g)) ==> r is Some,
{
    let seg = segment_name(segment);
    let p = seg.len();
    proof {
        if exists|g: BlockRange| name@ == filename_spec(segment, g) {
            let g = choose|g: BlockRange| name@ == filename_spec(segment, g);
            lemma_digit_seq(g.start as nat);
            lemma_digit_seq(g.end as nat);
            let a = digit_seq(g.start as nat);
            let b = digit_seq(g.end as nat);
            let k1 = p + 1 + a.len();
            assert(name@[p as int] == 95u8);
            assert(name@.subrange(p + 1, k1) =~= a);
            assert(name@[k1] == 95u8);
            assert(name@.subrange(k1 + 1, name@.len() as int) =~= b);
        }
    }
    if p >= name.len() || name[p] != 95u8 {
        return None;
    }
    let (start, k1) = match read_number(name, p + 1) {
        Some(x) => x,
        None => {
            return None;
        },
    };
    if k1 >= name.len() || name[k1] != 95u8 {
        return None;
    }
    let (end, k2) = match read_number(name, k1 + 1) {
        Some(x) => x,
        None => {
            return None;
        },
    };
    let g = BlockRange { start, end };
    let expected = filename(segment, g);
    if bytes_eq(name, &expected) {
        Some(g)
    } else {
        proof {
            if exists|g2: BlockRange| name@ == filename_spec(segment, g2) {
                let g2 = choose|g2: BlockRange| name@ == filename_spec(segment, g2);
                lemma_digit_seq(g2.start as nat);
                lemma_digit_seq(g2.end as nat);
                assert(g2 == g);
            }
        }
        None
    }
}

/// The segment and block range named by a jar's file name, if it is one.
pub fn parse_filename(name: &[u8]) -> (r: Option<(SnapshotSegment, BlockRange)>)
    ensures
        r matches Some((s, g)) ==> name@ == filename_spec(s, g),
        (exists|s: SnapshotSegment, g: BlockRange| name@ == filename_spec(s, g)) ==> r is Some,
{
    if let Some(g) = parse_for_segment(name, SnapshotSegment::Headers) {
        return Some((SnapshotSegment::Headers, g));
    }
    if let Some(g) = parse_for_segment(name, SnapshotSegment::Transactions) {
        return Some((SnapshotSegment::Transactions, g));
    }
    if let Some(g) = parse_for_segment(name, SnapshotSegment::Receipts) {
        return Some((SnapshotSegment::Receipts, g));
    }
    proof {
        if exists|s: SnapshotSegment, g: BlockRange| name@ == filename_spec(s, g) {
            let (s, g) = choose|s: SnapshotSegment, g: BlockRange| name@ == filename_spec(s, g);
            match s {
                SnapshotSegment::Headers => {},
                SnapshotSegment::Transactions => {},
                SnapshotSegment::Receipts => {},
            }
        }
    }
    None
}

} // verus!
