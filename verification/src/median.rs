//! Deterministic median of a list of reading keys.

use vstd::prelude::*;

use crate::ordering::is_nan_key;
use vstd::multiset::Multiset;

verus! {

/// The middle of a sorted list: one value for an odd count, the two values
/// around the middle (lower first) for an even count. The reading is the
/// single value, or the average of the two.
#[derive(Clone, Copy, Debug, PartialEq, Eq, Structural)]
pub enum Median {
    Single(u64),
    Between(u64, u64),
}

/// Values in non-decreasing order of their keys.
pub open spec fn sorted(s: Seq<u64>) -> bool {
    forall|i: int, j: int| 0 <= i <= j < s.len() ==> s[i] <= s[j]
}

/// The median of an already sorted, non-empty list.
pub open spec fn median_of_sorted(s: Seq<u64>) -> Median {
    let mid = (s.len() / 2) as int;
    if s.len() % 2 == 0 {
        Median::Between(s[mid - 1], s[mid])
    } else {
        Median::Single(s[mid])
    }
}

/// The order of keys.
pub open spec fn key_le(a: u64, b: u64) -> bool {
    a <= b
}

/// `values` in non-decreasing order of their keys.
pub open spec fn key_sorted(values: Seq<u64>) -> Seq<u64> {
    values.sort_by(|a: u64, b: u64| key_le(a, b))
}

/// The key of the reading -0.0.
pub const NEG_ZERO_KEY: u64 = 0x7fff_ffff_ffff_ffff;

/// The key of the reading +0.0.
pub const POS_ZERO_KEY: u64 = 0x8000_0000_0000_0000;

/// The numeric rank of the reading with key `k`: its key, except that -0.0
/// ranks with +0.0, the two being equal numbers. For readings that are
/// numbers, ranks compare as the readings do.
pub open spec fn numeric_rank(k: u64) -> u64 {
    if k == NEG_ZERO_KEY {
        POS_ZERO_KEY
    } else {
        k
    }
}

/// Which side of zero the reading with key `k` lies on: 0 below zero, 1 for
/// the zeros -0.0 and +0.0, 2 above zero.
pub open spec fn sign_class(k: u64) -> int {
    if k < NEG_ZERO_KEY {
        0
    } else if k <= POS_ZERO_KEY {
        1
    } else {
        2
    }
}

/// The readings of `s` on side `c` of zero, in the order of `s`.
pub open spec fn side_of(s: Seq<u64>, c: int) -> Seq<u64>
    decreases s.len(),
{
    if s.len() == 0 {
        s
    } else if sign_class(s.last()) == c {
        side_of(s.drop_last(), c).push(s.last())
    } else {
        side_of(s.drop_last(), c)
    }
}

/// Values in non-decreasing numeric order.
pub open spec fn numerically_sorted(s: Seq<u64>) -> bool {
    forall|i: int, j: int| 0 <= i <= j < s.len() ==> numeric_rank(s[i]) <= numeric_rank(s[j])
}

/// `values` in numeric order, as a stable sort by numeric comparison leaves
/// them: the readings below zero in order, then the zeros (-0.0 and +0.0 are
/// equal numbers) in the order in which they came, then the readings above
/// zero in order.
pub open spec fn sorted_values(values: Seq<u64>) -> Seq<u64> {
    key_sorted(side_of(values, 0)) + side_of(values, 1) + key_sorted(side_of(values, 2))
}

/// The median of `values`: the middle of their sorted order.
pub open spec fn median_of(values: Seq<u64>) -> Median {
    median_of_sorted(sorted_values(values))
}

/// Two medians stand for the same reading: their values have the same
/// numeric ranks (they differ at most in the sign of a zero).
pub open spec fn same_reading(x: Median, y: Median) -> bool {
    match (x, y) {
        (Median::Single(a), Median::Single(b)) => numeric_rank(a) == numeric_rank(b),
        (Median::Between(a1, a2), Median::Between(b1, b2)) => numeric_rank(a1) == numeric_rank(b1)
            && numeric_rank(a2) == numeric_rank(b2),
        _ => false,
    }
}

/// Sorting by key yields a sorted list of the same values.
pub proof fn lemma_key_sorted(values: Seq<u64>)
    ensures
        sorted(key_sorted(values)),
        key_sorted(values).to_multiset() == values.to_multiset(),
        key_sorted(values).len() == values.len(),
{
    let leq = |a: u64, b: u64| key_le(a, b);
    assert(vstd::relations::total_ordering(leq));
    values.lemma_sort_by_ensures(leq);
    let t = key_sorted(values);
    assert forall|i: int, j: int| 0 <= i <= j < t.len() implies t[i] <= t[j] by {
        if i < j {
            assert(leq(t[i], t[j]));
        }
    }
    vstd::seq_lib::to_multiset_len(values);
    vstd::seq_lib::to_multiset_len(t);
}

/// A list sorted by key and holding the same values as `values` is their
/// sorted order.
proof fn lemma_is_key_sorted(values: Seq<u64>, ordered: Seq<u64>)
    requires
        sorted(ordered),
        ordered.to_multiset() == values.to_multiset(),
    ensures
        ordered == key_sorted(values),
{
    lemma_key_sorted(values);
    lemma_sorted_unique(ordered, key_sorted(values));
}

/// A side holds only readings of that side, and no more than the list.
proof fn lemma_side_members(s: Seq<u64>, c: int)
    ensures
        side_of(s, c).len() <= s.len(),
        forall|i: int| 0 <= i < side_of(s, c).len() ==> sign_class(#[trigger] side_of(s, c)[i]) == c,
    decreases s.len(),
{
    if s.len() > 0 {
        let d = s.drop_last();
        lemma_side_members(d, c);
        assert forall|i: int| 0 <= i < side_of(s, c).len() implies sign_class(
            #[trigger] side_of(s, c)[i],
        ) == c by {
            if i < side_of(d, c).len() {
                assert(side_of(s, c)[i] == side_of(d, c)[i]);
            }
        }
    }
}

/// Every reading of a side comes from the list.
proof fn lemma_side_from(s: Seq<u64>, c: int, i: int)
    requires
        0 <= i < side_of(s, c).len(),
    ensures
        s.contains(side_of(s, c)[i]),
    decreases s.len(),
{
    let d = s.drop_last();
    if i < side_of(d, c).len() {
        lemma_side_from(d, c, i);
        let k = choose|k: int| 0 <= k < d.len() && d[k] == side_of(d, c)[i];
        assert(s[k] == d[k]);
    } else {
        assert(s[s.len() - 1] == s.last());
    }
}

/// A list without readings of a side has that side empty.
proof fn lemma_side_none(s: Seq<u64>, c: int)
    requires
        forall|i: int| 0 <= i < s.len() ==> sign_class(#[trigger] s[i]) != c,
    ensures
        side_of(s, c) == Seq::<u64>::empty(),
    decreases s.len(),
{
    if s.len() > 0 {
        lemma_side_none(s.drop_last(), c);
        assert(sign_class(s[s.len() - 1]) != c);
    }
}

/// A list of readings of one side is that side.
proof fn lemma_side_all(s: Seq<u64>, c: int)
    requires
        forall|i: int| 0 <= i < s.len() ==> sign_class(#[trigger] s[i]) == c,
    ensures
        side_of(s, c) == s,
    decreases s.len(),
{
    if s.len() > 0 {
        lemma_side_all(s.drop_last(), c);
        assert(sign_class(s[s.len() - 1]) == c);
        assert(s.drop_last().push(s.last()) =~= s);
    }
}

/// The side of a concatenation is the concatenation of the sides.
proof fn lemma_side_add(a: Seq<u64>, b: Seq<u64>, c: int)
    ensures
        side_of(a + b, c) == side_of(a, c) + side_of(b, c),
    decreases b.len(),
{
    if b.len() == 0 {
        assert(a + b =~= a);
        assert(side_of(a, c) + side_of(b, c) =~= side_of(a, c));
    } else {
        lemma_side_add(a, b.drop_last(), c);
        assert((a + b).drop_last() =~= a + b.drop_last());
        assert((a + b).last() == b.last());
        if sign_class(b.last()) == c {
            assert(side_of(a, c) + side_of(b.drop_last(), c).push(b.last()) =~= (side_of(a, c)
                + side_of(b.drop_last(), c)).push(b.last()));
        }
    }
}

/// How often a reading occurs on a side: as often as in the list if it lies
/// on that side, never otherwise.
proof fn lemma_side_count(s: Seq<u64>, c: int, v: u64)
    ensures
        side_of(s, c).to_multiset().count(v) == if sign_class(v) == c {
            s.to_multiset().count(v)
        } else {
            0
        },
    decreases s.len(),
{
    broadcast use vstd::multiset::group_multiset_axioms;

    if s.len() == 0 {
        assert(s.to_multiset() =~= Multiset::empty()) by {
            vstd::seq_lib::to_multiset_len(s);
        }
    } else {
        let d = s.drop_last();
        let x = s.last();
        lemma_side_count(d, c, v);
        assert(d.push(x) =~= s);
        vstd::seq_lib::to_multiset_build(d, x);
        if sign_class(x) == c {
            vstd::seq_lib::to_multiset_build(side_of(d, c), x);
        }
    }
}

/// Lists holding the same values have sides holding the same values.
proof fn lemma_side_multiset(a: Seq<u64>, b: Seq<u64>, c: int)
    requires
        a.to_multiset() == b.to_multiset(),
    ensures
        side_of(a, c).to_multiset() == side_of(b, c).to_multiset(),
{
    assert forall|v: u64| #[trigger] side_of(a, c).to_multiset().count(v) == side_of(b, c).to_multiset().count(v) by {
        lemma_side_count(a, c, v);
        lemma_side_count(b, c, v);
    }
    assert(side_of(a, c).to_multiset() =~= side_of(b, c).to_multiset());
}

/// Without its last value, a list in numeric order is still in order, and
/// its last value ranks at least as high as every other.
proof fn lemma_last_is_max(t: Seq<u64>)
    requires
        numerically_sorted(t),
        t.len() > 0,
    ensures
        numerically_sorted(t.drop_last()),
        forall|i: int|
            0 <= i < t.len() - 1 ==> numeric_rank(#[trigger] t.drop_last()[i]) <= numeric_rank(
                t.last(),
            ),
{
    let d = t.drop_last();
    assert forall|i: int, j: int| 0 <= i <= j < d.len() implies numeric_rank(d[i]) <= numeric_rank(
        d[j],
    ) by {
        assert(d[i] == t[i] && d[j] == t[j]);
    }
    assert forall|i: int| 0 <= i < t.len() - 1 implies numeric_rank(#[trigger] d[i]) <= numeric_rank(
        t.last(),
    ) by {
        assert(d[i] == t[i] && t.last() == t[t.len() - 1]);
    }
}

/// A side of a list in numeric order is in numeric order.
proof fn lemma_side_numerically_sorted(t: Seq<u64>, c: int)
    requires
        numerically_sorted(t),
    ensures
        numerically_sorted(side_of(t, c)),
    decreases t.len(),
{
    if t.len() > 0 {
        let d = t.drop_last();
        lemma_last_is_max(t);
        lemma_side_numerically_sorted(d, c);
        let f = side_of(t, c);
        let df = side_of(d, c);
        assert forall|i: int, j: int| 0 <= i <= j < f.len() implies numeric_rank(f[i]) <= numeric_rank(
            f[j],
        ) by {
            if j < df.len() {
                assert(f[i] == df[i] && f[j] == df[j]);
            } else if i < j {
                assert(f[j] == t.last());
                assert(f[i] == df[i]);
                lemma_side_from(d, c, i);
                let k = choose|k: int| 0 <= k < d.len() && d[k] == df[i];
                assert(numeric_rank(d[k]) <= numeric_rank(t.last()));
            }
        }
    }
}

/// The readings below (or above) zero of a list in numeric order are in key
/// order.
proof fn lemma_side_key_sorted(t: Seq<u64>, c: int)
    requires
        numerically_sorted(t),
        c != 1,
    ensures
        sorted(side_of(t, c)),
{
    lemma_side_numerically_sorted(t, c);
    lemma_side_members(t, c);
    let f = side_of(t, c);
    assert forall|i: int, j: int| 0 <= i <= j < f.len() implies f[i] <= f[j] by {
        assert(sign_class(f[i]) == c && sign_class(f[j]) == c);
        assert(numeric_rank(f[i]) <= numeric_rank(f[j]));
    }
}

/// Appending a value to the last of three parts.
proof fn lemma_push_onto_parts(d: Seq<u64>, x: u64, p1: Seq<u64>, p2: Seq<u64>, p3: Seq<u64>)
    requires
        d == p1 + p2 + p3,
    ensures
        d.push(x) == p1 + p2 + p3.push(x),
        p3 == Seq::<u64>::empty() ==> d.push(x) == p1 + p2.push(x) + p3,
        p2 == Seq::<u64>::empty() && p3 == Seq::<u64>::empty() ==> d.push(x) == p1.push(x) + p2 + p3,
{
    assert(d.push(x) =~= p1 + p2 + p3.push(x));
    if p3 == Seq::<u64>::empty() {
        assert(d.push(x) =~= p1 + p2.push(x) + p3);
    }
    if p2 == Seq::<u64>::empty() && p3 == Seq::<u64>::empty() {
        assert(d.push(x) =~= p1.push(x) + p2 + p3);
    }
}

/// A list in numeric order is its readings below zero, then its zeros, then
/// its readings above zero.
proof fn lemma_split_by_zero(t: Seq<u64>)
    requires
        numerically_sorted(t),
    ensures
        t == side_of(t, 0) + side_of(t, 1) + side_of(t, 2),
    decreases t.len(),
{
    if t.len() == 0 {
        assert(t =~= side_of(t, 0) + side_of(t, 1) + side_of(t, 2));
    } else {
        let d = t.drop_last();
        let x = t.last();
        lemma_last_is_max(t);
        lemma_split_by_zero(d);
        assert(d.push(x) =~= t);
        if sign_class(x) != 2 {
            assert forall|i: int| 0 <= i < d.len() implies sign_class(#[trigger] d[i]) != 2 by {
                assert(numeric_rank(d[i]) <= numeric_rank(x));
            }
            lemma_side_none(d, 2);
        }
        if sign_class(x) == 0 {
            assert forall|i: int| 0 <= i < d.len() implies sign_class(#[trigger] d[i]) != 1 by {
                assert(numeric_rank(d[i]) <= numeric_rank(x));
            }
            lemma_side_none(d, 1);
        }
        lemma_push_onto_parts(d, x, side_of(d, 0), side_of(d, 1), side_of(d, 2));
    }
}

/// The key-sorted readings of a side all lie on that side.
proof fn lemma_sorted_side_members(v: Seq<u64>, c: int)
    ensures
        forall|i: int|
            0 <= i < key_sorted(side_of(v, c)).len() ==> sign_class(
                #[trigger] key_sorted(side_of(v, c))[i],
            ) == c,
{
    broadcast use vstd::seq_lib::group_to_multiset_ensures;

    let f = side_of(v, c);
    let sf = key_sorted(f);
    lemma_key_sorted(f);
    lemma_side_members(v, c);
    assert forall|i: int| 0 <= i < sf.len() implies sign_class(#[trigger] sf[i]) == c by {
        assert(sf.to_multiset().count(sf[i]) > 0);
        assert(f.contains(sf[i]));
    }
}

/// Readings below zero in key order, then zeros, then readings above zero
/// in key order, are in numeric order.
proof fn lemma_concat_numerically_sorted(sb: Seq<u64>, vz: Seq<u64>, sa: Seq<u64>)
    requires
        sorted(sb),
        sorted(sa),
        forall|i: int| 0 <= i < sb.len() ==> sign_class(#[trigger] sb[i]) == 0,
        forall|i: int| 0 <= i < vz.len() ==> sign_class(#[trigger] vz[i]) == 1,
        forall|i: int| 0 <= i < sa.len() ==> sign_class(#[trigger] sa[i]) == 2,
    ensures
        numerically_sorted(sb + vz + sa),
{
    let sv = sb + vz + sa;
    let nb = sb.len() as int;
    let nz = vz.len() as int;
    assert forall|i: int, j: int| 0 <= i <= j < sv.len() implies numeric_rank(sv[i]) <= numeric_rank(
        sv[j],
    ) by {
        if j < nb {
            assert(sv[i] == sb[i] && sv[j] == sb[j]);
        } else if j < nb + nz {
            assert(sv[j] == vz[j - nb]);
            if i < nb {
                assert(sv[i] == sb[i]);
            } else {
                assert(sv[i] == vz[i - nb]);
            }
        } else {
            assert(sv[j] == sa[j - nb - nz]);
            if i < nb {
                assert(sv[i] == sb[i]);
            } else if i < nb + nz {
                assert(sv[i] == vz[i - nb]);
            } else {
                assert(sv[i] == sa[i - nb - nz]);
            }
        }
    }
}

/// Sorting keeps the values, counted with multiplicity.
proof fn lemma_sorted_values_multiset(values: Seq<u64>)
    ensures
        sorted_values(values).to_multiset() == values.to_multiset(),
        sorted_values(values).len() == values.len(),
{
    broadcast use vstd::multiset::group_multiset_axioms;

    let sb = key_sorted(side_of(values, 0));
    let vz = side_of(values, 1);
    let sa = key_sorted(side_of(values, 2));
    lemma_key_sorted(side_of(values, 0));
    lemma_key_sorted(side_of(values, 2));
    vstd::seq_lib::lemma_multiset_commutative(sb, vz);
    vstd::seq_lib::lemma_multiset_commutative(sb + vz, sa);
    assert forall|v: u64| #[trigger] sorted_values(values).to_multiset().count(v) == values.to_multiset().count(v) by {
        lemma_side_count(values, 0, v);
        lemma_side_count(values, 1, v);
        lemma_side_count(values, 2, v);
    }
    assert(sorted_values(values).to_multiset() =~= values.to_multiset());
    vstd::seq_lib::to_multiset_len(values);
    vstd::seq_lib::to_multiset_len(sorted_values(values));
}

/// Sorting keeps the zeros in the order in which they came.
proof fn lemma_sorted_values_zeros(values: Seq<u64>)
    ensures
        side_of(sorted_values(values), 1) == side_of(values, 1),
{
    let vz = side_of(values, 1);
    let sb = key_sorted(side_of(values, 0));
    let sa = key_sorted(side_of(values, 2));
    lemma_sorted_side_members(values, 0);
    lemma_sorted_side_members(values, 2);
    lemma_side_members(values, 1);
    lemma_side_add(sb, vz, 1);
    lemma_side_add(sb + vz, sa, 1);
    lemma_side_none(sb, 1);
    lemma_side_none(sa, 1);
    lemma_side_all(vz, 1);
    assert(Seq::<u64>::empty() + vz + Seq::<u64>::empty() =~= vz);
}

/// Sorting yields a list in numeric order holding the same values, with the
/// zeros in the order in which they came.
pub proof fn lemma_sorted_values(values: Seq<u64>)
    ensures
        numerically_sorted(sorted_values(values)),
        sorted_values(values).to_multiset() == values.to_multiset(),
        sorted_values(values).len() == values.len(),
        side_of(sorted_values(values), 1) == side_of(values, 1),
{
    lemma_key_sorted(side_of(values, 0));
    lemma_key_sorted(side_of(values, 2));
    lemma_sorted_side_members(values, 0);
    lemma_sorted_side_members(values, 2);
    lemma_side_members(values, 1);
    lemma_concat_numerically_sorted(
        key_sorted(side_of(values, 0)),
        side_of(values, 1),
        key_sorted(side_of(values, 2)),
    );
    lemma_sorted_values_multiset(values);
    lemma_sorted_values_zeros(values);
}

/// A list in numeric order, holding the same values as `values` and their
/// zeros in the same order, is the sorted order of `values`.
pub proof fn lemma_is_sorted_values(values: Seq<u64>, ordered: Seq<u64>)
    requires
        numerically_sorted(ordered),
        ordered.to_multiset() == values.to_multiset(),
        side_of(ordered, 1) == side_of(values, 1),
    ensures
        ordered == sorted_values(values),
{
    lemma_split_by_zero(ordered);
    lemma_side_key_sorted(ordered, 0);
    lemma_side_key_sorted(ordered, 2);
    lemma_side_multiset(ordered, values, 0);
    lemma_side_multiset(ordered, values, 2);
    lemma_is_key_sorted(side_of(values, 0), side_of(ordered, 0));
    lemma_is_key_sorted(side_of(values, 2), side_of(ordered, 2));
}

/// The numeric rank of a reading's key.
fn rank(k: u64) -> (r: u64)
    ensures
        r == numeric_rank(k),
{
    if k == NEG_ZERO_KEY {
        POS_ZERO_KEY
    } else {
        k
    }
}

/// Where `x` goes in numerically sorted `s` so that it follows every value
/// not numerically above it.
fn insertion_point(s: &Vec<u64>, x: u64) -> (p: usize)
    requires
        numerically_sorted(s@),
    ensures
        p <= s@.len(),
        forall|i: int| 0 <= i < p ==> numeric_rank(s@[i]) <= numeric_rank(x),
        forall|i: int| p <= i < s@.len() ==> numeric_rank(x) < numeric_rank(s@[i]),
{
    let rx = rank(x);
    let mut p: usize = s.len();
    while p > 0 && rank(s[p - 1]) > rx
        invariant
            p <= s@.len(),
            rx == numeric_rank(x),
            numerically_sorted(s@),
            forall|i: int| p <= i < s@.len() ==> numeric_rank(x) < numeric_rank(s@[i]),
        decreases p,
    {
        p -= 1;
    }
    p
}

/// Inserting `x` where it follows every value not numerically above it puts
/// it after the zeros already there.
proof fn lemma_insert_keeps_zero_order(s: Seq<u64>, p: int, x: u64)
    requires
        0 <= p <= s.len(),
        forall|i: int| p <= i < s.len() ==> numeric_rank(x) < numeric_rank(#[trigger] s[i]),
    ensures
        side_of(s.insert(p, x), 1) == if sign_class(x) == 1 {
            side_of(s, 1).push(x)
        } else {
            side_of(s, 1)
        },
{
    let front = s.take(p);
    let back = s.skip(p);
    assert(s =~= front + back);
    assert(s.insert(p, x) =~= front + seq![x] + back);
    lemma_side_add(front, back, 1);
    lemma_side_add(front, seq![x], 1);
    lemma_side_add(front + seq![x], back, 1);
    assert(seq![x].drop_last() =~= Seq::<u64>::empty());
    assert(side_of(Seq::<u64>::empty(), 1) == Seq::<u64>::empty());
    if sign_class(x) == 1 {
        assert forall|i: int| 0 <= i < back.len() implies sign_class(#[trigger] back[i]) != 1 by {
            assert(back[i] == s[p + i]);
        }
        lemma_side_none(back, 1);
        assert(side_of(seq![x], 1) =~= seq![x]);
        assert(side_of(front, 1) + seq![x] + Seq::<u64>::empty() =~= side_of(front, 1).push(x));
        assert(side_of(front, 1) + Seq::<u64>::empty() =~= side_of(front, 1));
    } else {
        assert(side_of(seq![x], 1) =~= Seq::<u64>::empty());
        assert(side_of(front, 1) + Seq::<u64>::empty() =~= side_of(front, 1));
    }
}

/// Sorts `values` into numeric order (stably: -0.0 and +0.0 keep the order
/// in which they came) and returns their median.
/// The list must not be empty, and readings that are compared (all of them,
/// once there are two or more) must be numbers.
pub fn calculate_median(values: &mut Vec<u64>) -> (m: Median)
    requires
        old(values)@.len() > 0,
        old(values)@.len() >= 2 ==> forall|i: int|
            0 <= i < old(values)@.len() ==> !is_nan_key(#[trigger] old(values)@[i]),
    ensures
        final(values)@ == sorted_values(old(values)@),
        m == median_of(old(values)@),
        final(values)@.len() == old(values)@.len(),
        final(values)@.len() % 2 == 0 ==> m == Median::Between(
            final(values)@[final(values)@.len() / 2 - 1],
            final(values)@[(final(values)@.len() / 2) as int],
        ),
        final(values)@.len() % 2 == 1 ==> m == Median::Single(
            final(values)@[(final(values)@.len() / 2) as int],
        ),
{
    broadcast use vstd::seq_lib::group_to_multiset_ensures;

    let mut ordered: Vec<u64> = Vec::new();
    let mut i: usize = 0;
    while i < values.len()
        invariant
            i <= values@.len(),
            values@ == old(values)@,
            numerically_sorted(ordered@),
            ordered@.to_multiset() == values@.take(i as int).to_multiset(),
            side_of(ordered@, 1) == side_of(values@.take(i as int), 1),
        decreases values@.len() - i,
    {
        let x = values[i];
        let p = insertion_point(&ordered, x);
        let ghost before = ordered@;
        ordered.insert(p, x);
        proof {
            vstd::seq_lib::to_multiset_insert(before, p as int, x);
            assert(ordered@ =~= before.insert(p as int, x));
            assert(values@.take(i as int + 1) =~= values@.take(i as int).push(x));
            vstd::seq_lib::to_multiset_build(values@.take(i as int), x);
            lemma_insert_keeps_zero_order(before, p as int, x);
            assert(values@.take(i as int).push(x).drop_last() =~= values@.take(i as int));
            assert forall|a: int, b: int| 0 <= a <= b < ordered@.len() implies numeric_rank(
                ordered@[a],
            ) <= numeric_rank(ordered@[b]) by {
                if a < p && b > p {
                    assert(ordered@[a] == before[a]);
                    assert(ordered@[b] == before[b - 1]);
                } else if a < p && b == p {
                    assert(ordered@[a] == before[a]);
                } else if a < p {
                    assert(ordered@[a] == before[a] && ordered@[b] == before[b]);
                } else if a == p && b > p {
                    assert(ordered@[b] == before[b - 1]);
                } else if a > p {
                    assert(ordered@[a] == before[a - 1] && ordered@[b] == before[b - 1]);
                }
            }
        }
        i += 1;
    }
    proof {
        assert(values@.take(i as int) =~= values@);
        vstd::seq_lib::to_multiset_len(ordered@);
        vstd::seq_lib::to_multiset_len(values@);
    }
    proof {
        lemma_is_sorted_values(values@, ordered@);
    }
    proof {
        lemma_median_middle(old(values)@);
    }
    *values = ordered;
    let n = values.len();
    let mid = n / 2;
    if n % 2 == 0 {
        Median::Between(values[mid - 1], values[mid])
    } else {
        Median::Single(values[mid])
    }
}

/// Law: the median is the middle of the sorted readings. For an odd count
/// `n` it is the value at place `n / 2` (counting from 0); for an even count
/// it is the pair of the lower middle value, at place `n / 2 - 1`, and the
/// upper middle value, at place `n / 2`.
pub proof fn lemma_median_middle(values: Seq<u64>)
    requires
        values.len() > 0,
    ensures
        ({
            let s = sorted_values(values);
            let n = values.len() as int;
            &&& s.len() == n
            &&& n % 2 == 1 ==> median_of(values) == Median::Single(s[(n - 1) / 2])
            &&& n % 2 == 0 ==> median_of(values) == Median::Between(s[n / 2 - 1], s[n / 2])
            &&& n % 2 == 0 ==> median_of(values) != Median::Single(s[n / 2])
        }),
{
    lemma_sorted_values(values);
}

/// Law: a sorted list is determined by the values it holds. Two sorted lists
/// holding the same values (counted with multiplicity) are equal.
pub proof fn lemma_sorted_unique(a: Seq<u64>, b: Seq<u64>)
    requires
        sorted(a),
        sorted(b),
        a.to_multiset() == b.to_multiset(),
    ensures
        a == b,
    decreases a.len(),
{
    broadcast use vstd::seq_lib::group_to_multiset_ensures;

    vstd::seq_lib::to_multiset_len(a);
    vstd::seq_lib::to_multiset_len(b);
    if a.len() == 0 {
        assert(a =~= b);
    } else {
        assert(a.contains(a[0]));
        assert(b.contains(b[0]));
        assert(b.to_multiset().count(a[0]) > 0);
        assert(a.to_multiset().count(b[0]) > 0);
        assert(b.contains(a[0]));
        assert(a.contains(b[0]));
        let ja = choose|j: int| 0 <= j < a.len() && a[j] == b[0];
        let jb = choose|j: int| 0 <= j < b.len() && b[j] == a[0];
        assert(a[0] <= a[ja]);
        assert(b[0] <= b[jb]);
        assert(a[0] == b[0]);
        vstd::seq_lib::to_multiset_remove(a, 0);
        vstd::seq_lib::to_multiset_remove(b, 0);
        assert(a.remove(0) =~= a.drop_first());
        assert(b.remove(0) =~= b.drop_first());
        lemma_sorted_unique(a.drop_first(), b.drop_first());
        assert(a =~= seq![a[0]] + a.drop_first());
        assert(b =~= seq![b[0]] + b.drop_first());
    }
}

/// Lists holding the same values hold as many zeros.
proof fn lemma_zero_count(a: Seq<u64>, b: Seq<u64>)
    requires
        a.to_multiset() == b.to_multiset(),
    ensures
        side_of(a, 1).len() == side_of(b, 1).len(),
{
    lemma_side_multiset(a, b, 1);
    vstd::seq_lib::to_multiset_len(side_of(a, 1));
    vstd::seq_lib::to_multiset_len(side_of(b, 1));
}

/// Lists holding the same values, of which at most one of -0.0 and +0.0,
/// hold the same zeros in the same order.
proof fn lemma_zeros_of_one_sign(a: Seq<u64>, b: Seq<u64>)
    requires
        a.to_multiset() == b.to_multiset(),
        !(a.contains(NEG_ZERO_KEY) && a.contains(POS_ZERO_KEY)),
    ensures
        side_of(a, 1) == side_of(b, 1),
{
    broadcast use vstd::seq_lib::group_to_multiset_ensures;

    lemma_zero_count(a, b);
    let za = side_of(a, 1);
    let zb = side_of(b, 1);
    lemma_side_members(a, 1);
    lemma_side_members(b, 1);
    let z = if a.contains(NEG_ZERO_KEY) {
        NEG_ZERO_KEY
    } else {
        POS_ZERO_KEY
    };
    assert forall|k: int| 0 <= k < za.len() implies #[trigger] za[k] == z by {
        assert(sign_class(za[k]) == 1);
        lemma_side_from(a, 1, k);
    }
    assert forall|k: int| 0 <= k < zb.len() implies #[trigger] zb[k] == z by {
        assert(sign_class(zb[k]) == 1);
        lemma_side_from(b, 1, k);
        assert(b.to_multiset().count(zb[k]) > 0);
        assert(a.contains(zb[k]));
    }
    assert(za =~= zb);
}

/// Lists holding the same values have the same readings below and above
/// zero in sorted order.
proof fn lemma_same_sorted_sides(a: Seq<u64>, b: Seq<u64>)
    requires
        a.to_multiset() == b.to_multiset(),
    ensures
        key_sorted(side_of(a, 0)) == key_sorted(side_of(b, 0)),
        key_sorted(side_of(a, 2)) == key_sorted(side_of(b, 2)),
{
    lemma_side_multiset(a, b, 0);
    lemma_side_multiset(a, b, 2);
    lemma_key_sorted(side_of(a, 0));
    lemma_key_sorted(side_of(b, 0));
    lemma_key_sorted(side_of(a, 2));
    lemma_key_sorted(side_of(b, 2));
    lemma_sorted_unique(key_sorted(side_of(a, 0)), key_sorted(side_of(b, 0)));
    lemma_sorted_unique(key_sorted(side_of(a, 2)), key_sorted(side_of(b, 2)));
}

/// Lists holding the same values sort into lists whose values have the same
/// numeric ranks, place by place.
proof fn lemma_sorted_ranks(a: Seq<u64>, b: Seq<u64>)
    requires
        a.to_multiset() == b.to_multiset(),
    ensures
        sorted_values(a).len() == sorted_values(b).len(),
        forall|k: int|
            0 <= k < sorted_values(a).len() ==> numeric_rank(#[trigger] sorted_values(a)[k])
                == numeric_rank(sorted_values(b)[k]),
{
    lemma_same_sorted_sides(a, b);
    lemma_zero_count(a, b);
    lemma_side_members(a, 1);
    lemma_side_members(b, 1);
    let za = side_of(a, 1);
    let zb = side_of(b, 1);
    let sa = sorted_values(a);
    let sb = sorted_values(b);
    let nb = key_sorted(side_of(a, 0)).len() as int;
    assert forall|k: int| 0 <= k < sa.len() implies numeric_rank(#[trigger] sa[k]) == numeric_rank(
        sb[k],
    ) by {
        if nb <= k < nb + za.len() {
            assert(sa[k] == za[k - nb] && sb[k] == zb[k - nb]);
            assert(sign_class(za[k - nb]) == 1 && sign_class(zb[k - nb]) == 1);
        }
    }
}

/// Law: the median depends only on which values were observed, not on the
/// order in which they arrived, up to the sign of a zero: lists holding the
/// same values have medians of the same numeric value. Where their zeros
/// also came in the same order (in particular where at most one of -0.0 and
/// +0.0 occurs), they sort alike and have the very same median.
pub proof fn lemma_median_order_independent(values_a: Seq<u64>, values_b: Seq<u64>)
    requires
        values_a.to_multiset() == values_b.to_multiset(),
    ensures
        values_a.len() > 0 ==> same_reading(median_of(values_a), median_of(values_b)),
        side_of(values_a, 1) == side_of(values_b, 1) ==> sorted_values(values_a) == sorted_values(
            values_b,
        ) && median_of(values_a) == median_of(values_b),
        !(values_a.contains(NEG_ZERO_KEY) && values_a.contains(POS_ZERO_KEY)) ==> median_of(
            values_a,
        ) == median_of(values_b),
{
    let (a, b) = (values_a, values_b);
    lemma_sorted_ranks(a, b);
    lemma_sorted_values_multiset(a);
    lemma_same_sorted_sides(a, b);
    let sa = sorted_values(a);
    let sb = sorted_values(b);
    if a.len() > 0 {
        let mid = (sa.len() / 2) as int;
        assert(numeric_rank(sa[mid]) == numeric_rank(sb[mid]));
        if sa.len() % 2 == 0 {
            assert(numeric_rank(sa[mid - 1]) == numeric_rank(sb[mid - 1]));
        }
    }
    if !(a.contains(NEG_ZERO_KEY) && a.contains(POS_ZERO_KEY)) {
        lemma_zeros_of_one_sign(a, b);
    }
}

/// Whether the reading with key `x` lies numerically in the closed range
/// from `lo` to `hi` (ranks of readings, as given by `numeric_rank`).
pub open spec fn within(x: u64, lo: u64, hi: u64) -> bool {
    lo <= numeric_rank(x) && numeric_rank(x) <= hi
}

/// How many values of `s` lie in the closed range from `lo` to `hi`.
pub open spec fn count_within(s: Seq<u64>, lo: u64, hi: u64) -> nat
    decreases s.len(),
{
    if s.len() == 0 {
        0
    } else {
        count_within(s.drop_last(), lo, hi) + if within(s.last(), lo, hi) {
            1nat
        } else {
            0nat
        }
    }
}

proof fn lemma_count_concat(a: Seq<u64>, b: Seq<u64>, lo: u64, hi: u64)
    ensures
        count_within(a + b, lo, hi) == count_within(a, lo, hi) + count_within(b, lo, hi),
    decreases b.len(),
{
    if b.len() == 0 {
        assert(a + b =~= a);
    } else {
        lemma_count_concat(a, b.drop_last(), lo, hi);
        assert((a + b).drop_last() =~= a + b.drop_last());
    }
}

proof fn lemma_count_at_most_len(s: Seq<u64>, lo: u64, hi: u64)
    ensures
        count_within(s, lo, hi) <= s.len(),
        (forall|k: int| 0 <= k < s.len() ==> !within(#[trigger] s[k], lo, hi)) ==> count_within(
            s,
            lo,
            hi,
        ) == 0,
    decreases s.len(),
{
    if s.len() > 0 {
        lemma_count_at_most_len(s.drop_last(), lo, hi);
    }
}

proof fn lemma_count_remove(s: Seq<u64>, j: int, lo: u64, hi: u64)
    requires
        0 <= j < s.len(),
    ensures
        count_within(s, lo, hi) == count_within(s.remove(j), lo, hi) + if within(s[j], lo, hi) {
            1nat
        } else {
            0nat
        },
    decreases s.len(),
{
    if j == s.len() - 1 {
        assert(s.remove(j) =~= s.drop_last());
    } else {
        lemma_count_remove(s.drop_last(), j, lo, hi);
        assert(s.remove(j).drop_last() =~= s.drop_last().remove(j));
        assert(s.remove(j).last() == s.last());
    }
}

/// The count of values in a range does not depend on their order.
proof fn lemma_count_permutation(a: Seq<u64>, b: Seq<u64>, lo: u64, hi: u64)
    requires
        a.to_multiset() == b.to_multiset(),
    ensures
        count_within(a, lo, hi) == count_within(b, lo, hi),
    decreases a.len(),
{
    broadcast use vstd::seq_lib::group_to_multiset_ensures;

    vstd::seq_lib::to_multiset_len(a);
    vstd::seq_lib::to_multiset_len(b);
    if a.len() > 0 {
        let x = a.last();
        assert(a.contains(x));
        assert(b.to_multiset().count(x) > 0);
        assert(b.contains(x));
        let j = choose|j: int| 0 <= j < b.len() && b[j] == x;
        vstd::seq_lib::to_multiset_remove(a, a.len() - 1);
        vstd::seq_lib::to_multiset_remove(b, j);
        assert(a.remove(a.len() - 1) =~= a.drop_last());
        lemma_count_permutation(a.drop_last(), b.remove(j), lo, hi);
        lemma_count_remove(b, j, lo, hi);
    }
}

/// Law: the median resists outliers. If more than half of the observed
/// readings lie numerically in a range, the median (both middle values, for
/// an even count) lies in that range too, whatever the other readings are.
pub proof fn lemma_median_resists_outliers(values: Seq<u64>, lo: u64, hi: u64)
    requires
        2 * count_within(values, lo, hi) > values.len(),
    ensures
        match median_of(values) {
            Median::Single(v) => within(v, lo, hi),
            Median::Between(a, b) => within(a, lo, hi) && within(b, lo, hi),
        },
{
    lemma_sorted_values(values);
    let ordered = sorted_values(values);
    lemma_count_permutation(values, ordered, lo, hi);
    vstd::seq_lib::to_multiset_len(values);
    vstd::seq_lib::to_multiset_len(ordered);
    let n = ordered.len() as int;
    let mid = n / 2;
    let low = if n % 2 == 0 {
        mid - 1
    } else {
        mid
    };
    assert(n > 0);
    // Upper middle value: if it were above `hi`, so would be everything after it.
    if numeric_rank(ordered[mid]) > hi {
        let front = ordered.take(mid);
        let back = ordered.skip(mid);
        assert(ordered =~= front + back);
        lemma_count_concat(front, back, lo, hi);
        lemma_count_at_most_len(front, lo, hi);
        assert forall|k: int| 0 <= k < back.len() implies !within(#[trigger] back[k], lo, hi) by {
            assert(back[k] == ordered[mid + k]);
        }
        lemma_count_at_most_len(back, lo, hi);
        assert(false);
    }
    // Lower middle value: if it were below `lo`, so would be everything before it.
    if numeric_rank(ordered[low]) < lo {
        let front = ordered.take(low + 1);
        let back = ordered.skip(low + 1);
        assert(ordered =~= front + back);
        lemma_count_concat(front, back, lo, hi);
        lemma_count_at_most_len(back, lo, hi);
        assert forall|k: int| 0 <= k < front.len() implies !within(#[trigger] front[k], lo, hi) by {
            assert(front[k] == ordered[k]);
        }
        lemma_count_at_most_len(front, lo, hi);
        assert(false);
    }
    assert(numeric_rank(ordered[low]) <= numeric_rank(ordered[mid]));
}

} // verus!
