//! The associative table: a sequence of buckets, each an unordered list of
//! key/value entries, together with a count of live entries.
//!
//! The abstract model of a table is a `Map` from key views to values. Every
//! operation's contract states its exact effect on that map, on the entry
//! count, and on the capacity (the number of buckets).

use vstd::prelude::*;
use crate::keys::TableKey;

verus! {

/// An associative table using open hashing with separate chaining.
///
/// `buckets` is the bucket array; its length is the table's capacity.
/// `items` counts the live entries across all buckets.
pub struct HashMap<K, V> {
    buckets: Vec<Vec<(K, V)>>,
    items: usize,
}

/// Whether `n` is a power of two.
pub open spec fn is_pow2(n: nat) -> bool
    decreases n,
{
    if n == 0 {
        false
    } else if n == 1 {
        true
    } else {
        n % 2 == 0 && is_pow2(n / 2)
    }
}

/// The capacity a grow step produces: one bucket from none, else double.
pub open spec fn grown_capacity(cap: nat) -> nat {
    if cap == 0 {
        1
    } else {
        2 * cap
    }
}

/// Whether an insert into a table with `count` entries and `cap` buckets
/// grows the bucket array first: it does when the table holds no entries
/// (in particular on the very first insert, when `cap` is zero) or when the
/// count exceeds three quarters of the capacity.
pub open spec fn grow_needed(count: nat, cap: nat) -> bool {
    count == 0 || count > 3 * cap / 4
}

/// The bucket index for a key view under capacity `cap`: the key's hash,
/// reduced modulo `cap`.
pub open spec fn slot_of<K: TableKey>(vk: K::V, cap: nat) -> nat
    recommends
        cap > 0,
{
    K::hash_spec(vk) as nat % cap
}

/// Whether bucket `b` holds an entry whose key has view `vk`.
pub(crate) open spec fn bucket_has<K: TableKey, V>(b: Seq<(K, V)>, vk: K::V) -> bool {
    exists|j: int| 0 <= j < b.len() && b[j].0@ == vk
}

/// The value stored in bucket `b` under the key with view `vk`.
pub(crate) open spec fn bucket_value<K: TableKey, V>(b: Seq<(K, V)>, vk: K::V) -> V
    recommends
        bucket_has(b, vk),
{
    b[choose|j: int| 0 <= j < b.len() && b[j].0@ == vk].1
}

/// Whether the entries of bucket `b` carry pairwise distinct key views.
pub(crate) open spec fn bucket_distinct<K: TableKey, V>(b: Seq<(K, V)>) -> bool {
    forall|j1: int, j2: int| 0 <= j1 < j2 < b.len() ==> b[j1].0@ != b[j2].0@
}

/// The total number of entries across all buckets of `bs`.
pub(crate) open spec fn total_len<K, V>(bs: Seq<Vec<(K, V)>>) -> nat
    decreases bs.len(),
{
    if bs.len() == 0 {
        0
    } else {
        bs[0]@.len() + total_len(bs.drop_first())
    }
}

/// Whether some bucket of `bs` holds an entry whose key has view `vk`.
pub(crate) open spec fn table_has<K: TableKey, V>(bs: Seq<Vec<(K, V)>>, vk: K::V) -> bool {
    exists|i: int| 0 <= i < bs.len() && bucket_has(bs[i]@, vk)
}

/// Whether every entry of `bs` sits in the bucket its key's hash selects
/// under capacity `bs.len()`.
pub(crate) open spec fn placed_in<K: TableKey, V>(bs: Seq<Vec<(K, V)>>) -> bool {
    forall|i: int, j: int|
        0 <= i < bs.len() && 0 <= j < bs[i]@.len()
            ==> slot_of::<K>(#[trigger] bs[i]@[j].0@, bs.len() as nat) == i as nat
}

/// Whether each bucket of `bs` carries pairwise distinct key views.
pub(crate) open spec fn all_distinct<K: TableKey, V>(bs: Seq<Vec<(K, V)>>) -> bool {
    forall|i: int| 0 <= i < bs.len() ==> bucket_distinct(#[trigger] bs[i]@)
}

/// Whether every entry of `bs` is recorded in the map `m`: its key view is
/// present and maps to the entry's value.
pub(crate) open spec fn entries_match<K: TableKey, V>(
    bs: Seq<Vec<(K, V)>>,
    m: Map<K::V, V>,
) -> bool {
    forall|i: int, j: int|
        0 <= i < bs.len() && 0 <= j < bs[i]@.len()
            ==> m.contains_key(#[trigger] bs[i]@[j].0@) && m[bs[i]@[j].0@] == bs[i]@[j].1
}

/// Whether no key view occurs both in an entry of `a` and in an entry of `b`.
pub(crate) open spec fn tables_disjoint<K: TableKey, V>(
    a: Seq<Vec<(K, V)>>,
    b: Seq<Vec<(K, V)>>,
) -> bool {
    forall|i1: int, j1: int, i2: int, j2: int|
        0 <= i1 < a.len() && 0 <= j1 < a[i1]@.len() && 0 <= i2 < b.len() && 0 <= j2
            < b[i2]@.len() ==> #[trigger] a[i1]@[j1].0@ != #[trigger] b[i2]@[j2].0@
}

/// Whether distinct entry positions of `bs` always carry distinct key views.
pub(crate) open spec fn globally_distinct<K: TableKey, V>(bs: Seq<Vec<(K, V)>>) -> bool {
    forall|i1: int, j1: int, i2: int, j2: int|
        0 <= i1 < bs.len() && 0 <= j1 < bs[i1]@.len() && 0 <= i2 < bs.len() && 0 <= j2
            < bs[i2]@.len() && (i1 != i2 || j1 != j2) ==> #[trigger] bs[i1]@[j1].0@
            != #[trigger] bs[i2]@[j2].0@
}

/// Whether every key the map `m` holds occurs in an entry of `a` or of `b`.
pub(crate) open spec fn covered_by<K: TableKey, V>(
    m: Map<K::V, V>,
    a: Seq<Vec<(K, V)>>,
    b: Seq<Vec<(K, V)>>,
) -> bool {
    forall|vk: K::V| #[trigger] m.contains_key(vk) ==> table_has(a, vk) || table_has(b, vk)
}

/// A bucket whose entries carry pairwise distinct key views holds the view
/// `vk` exactly at position `j`, so the value stored under `vk` is `b[j].1`.
proof fn lemma_bucket_value_at<K: TableKey, V>(b: Seq<(K, V)>, vk: K::V, j: int)
    requires
        bucket_distinct(b),
        0 <= j < b.len(),
        b[j].0@ == vk,
    ensures
        bucket_has(b, vk),
        bucket_value(b, vk) == b[j].1,
{
    assert(bucket_has(b, vk));
    let jj = choose|jj: int| 0 <= jj < b.len() && b[jj].0@ == vk;
    if jj < j {
        assert(b[jj].0@ != b[j].0@);
    } else if j < jj {
        assert(b[j].0@ != b[jj].0@);
    }
}

/// A bucket array with no entries at all has only empty buckets.
proof fn lemma_total_len_zero<K, V>(bs: Seq<Vec<(K, V)>>)
    requires
        total_len(bs) == 0,
    ensures
        forall|i: int| 0 <= i < bs.len() ==> bs[i]@.len() == 0,
    decreases bs.len(),
{
    if bs.len() > 0 {
        lemma_total_len_zero(bs.drop_first());
        assert forall|i: int| 0 <= i < bs.len() implies bs[i]@.len() == 0 by {
            if i > 0 {
                assert(bs.drop_first()[i - 1] == bs[i]);
            }
        }
    }
}

/// Replacing the bucket at index `i` changes the total entry count by the
/// difference of the two bucket lengths.
proof fn lemma_total_len_update<K, V>(bs: Seq<Vec<(K, V)>>, i: int, b: Vec<(K, V)>)
    requires
        0 <= i < bs.len(),
    ensures
        total_len(bs.update(i, b)) + bs[i]@.len() == total_len(bs) + b@.len(),
    decreases bs.len(),
{
    if i == 0 {
        assert(bs.update(0, b).drop_first() =~= bs.drop_first());
    } else {
        lemma_total_len_update(bs.drop_first(), i - 1, b);
        assert(bs.update(i, b).drop_first() =~= bs.drop_first().update(i - 1, b));
    }
}

/// The total entry count is at least the length of any single bucket.
proof fn lemma_total_len_ge<K, V>(bs: Seq<Vec<(K, V)>>, i: int)
    requires
        0 <= i < bs.len(),
    ensures
        total_len(bs) >= bs[i]@.len(),
    decreases bs.len(),
{
    if i > 0 {
        lemma_total_len_ge(bs.drop_first(), i - 1);
        assert(bs.drop_first()[i - 1] == bs[i]);
    }
}

/// A bucket array all of whose buckets are empty has no entries.
proof fn lemma_total_len_all_empty<K, V>(bs: Seq<Vec<(K, V)>>)
    requires
        forall|i: int| 0 <= i < bs.len() ==> bs[i]@.len() == 0,
    ensures
        total_len(bs) == 0,
    decreases bs.len(),
{
    if bs.len() > 0 {
        assert forall|i: int| 0 <= i < bs.drop_first().len() implies bs.drop_first()[i]@.len()
            == 0 by {
            assert(bs.drop_first()[i] == bs[i + 1]);
        }
        lemma_total_len_all_empty(bs.drop_first());
    }
}

/// The key views of all entries of `bs`, bucket by bucket.
pub(crate) open spec fn keys_of<K: TableKey, V>(bs: Seq<Vec<(K, V)>>) -> Seq<K::V>
    decreases bs.len(),
{
    if bs.len() == 0 {
        Seq::empty()
    } else {
        bs[0]@.map_values(|e: (K, V)| e.0@) + keys_of(bs.drop_first())
    }
}

/// There are as many key views as entries.
proof fn lemma_keys_of_len<K: TableKey, V>(bs: Seq<Vec<(K, V)>>)
    ensures
        keys_of(bs).len() == total_len(bs),
    decreases bs.len(),
{
    if bs.len() > 0 {
        lemma_keys_of_len(bs.drop_first());
    }
}

/// A view occurs among the key views exactly when some entry carries it.
proof fn lemma_keys_of_membership<K: TableKey, V>(bs: Seq<Vec<(K, V)>>, vk: K::V)
    ensures
        keys_of(bs).contains(vk) == table_has(bs, vk),
    decreases bs.len(),
{
    if bs.len() > 0 {
        let head = bs[0]@.map_values(|e: (K, V)| e.0@);
        let tail = bs.drop_first();
        lemma_keys_of_membership(tail, vk);
        if table_has(bs, vk) {
            let t = choose|t: int| 0 <= t < bs.len() && bucket_has(bs[t]@, vk);
            if t == 0 {
                let j = choose|j: int| 0 <= j < bs[0]@.len() && bs[0]@[j].0@ == vk;
                assert(keys_of(bs)[j] == head[j]);
                assert(keys_of(bs).contains(vk));
            } else {
                assert(tail[t - 1] == bs[t]);
                assert(table_has(tail, vk));
                let p = choose|p: int|
                    0 <= p < keys_of(tail).len() && keys_of(tail)[p] == vk;
                assert(keys_of(bs)[head.len() + p] == keys_of(tail)[p]);
                assert(keys_of(bs).contains(vk));
            }
        }
        if keys_of(bs).contains(vk) {
            let p = choose|p: int| 0 <= p < keys_of(bs).len() && keys_of(bs)[p] == vk;
            if p < head.len() {
                assert(bs[0]@[p].0@ == vk);
                assert(bucket_has(bs[0]@, vk));
                assert(table_has(bs, vk));
            } else {
                assert(keys_of(bs)[p] == keys_of(tail)[p - head.len()]);
                assert(keys_of(tail).contains(vk));
                let t = choose|t: int| 0 <= t < tail.len() && bucket_has(tail[t]@, vk);
                assert(tail[t] == bs[t + 1]);
                assert(bucket_has(bs[t + 1]@, vk));
                assert(table_has(bs, vk));
            }
        }
    }
}

/// When distinct entry positions always carry distinct key views, the
/// sequence of key views has no duplicates.
proof fn lemma_keys_of_distinct<K: TableKey, V>(bs: Seq<Vec<(K, V)>>)
    requires
        globally_distinct(bs),
    ensures
        keys_of(bs).no_duplicates(),
    decreases bs.len(),
{
    if bs.len() > 0 {
        let head = bs[0]@.map_values(|e: (K, V)| e.0@);
        let tail = bs.drop_first();
        assert(globally_distinct(tail)) by {
            assert forall|i1: int, j1: int, i2: int, j2: int|
                0 <= i1 < tail.len() && 0 <= j1 < tail[i1]@.len() && 0 <= i2 < tail.len() && 0
                    <= j2 < tail[i2]@.len() && (i1 != i2 || j1 != j2)
                implies #[trigger] tail[i1]@[j1].0@ != #[trigger] tail[i2]@[j2].0@ by {
                assert(tail[i1] == bs[i1 + 1] && tail[i2] == bs[i2 + 1]);
            }
        }
        lemma_keys_of_distinct(tail);
        assert(head.no_duplicates()) by {
            assert forall|p1: int, p2: int| 0 <= p1 < head.len() && 0 <= p2 < head.len() && p1
                != p2 implies head[p1] != head[p2] by {
                assert(head[p1] == bs[0]@[p1].0@ && head[p2] == bs[0]@[p2].0@);
            }
        }
        assert forall|p1: int, p2: int|
            0 <= p1 < head.len() && 0 <= p2 < keys_of(tail).len() implies head[p1] != keys_of(
            tail,
        )[p2] by {
            lemma_keys_of_flat_entry(tail, p2);
            let (t, j) = choose|t: int, j: int|
                0 <= t < tail.len() && 0 <= j < tail[t]@.len() && keys_of(tail)[p2]
                    == tail[t]@[j].0@;
            assert(tail[t] == bs[t + 1]);
            assert(bs[0]@[p1].0@ != bs[t + 1]@[j].0@);
        }
        vstd::seq_lib::lemma_no_dup_in_concat(head, keys_of(tail));
    }
}

/// Every position of the key-view sequence comes from some entry.
proof fn lemma_keys_of_flat_entry<K: TableKey, V>(bs: Seq<Vec<(K, V)>>, p: int)
    requires
        0 <= p < keys_of(bs).len(),
    ensures
        exists|t: int, j: int|
            0 <= t < bs.len() && 0 <= j < bs[t]@.len() && keys_of(bs)[p] == bs[t]@[j].0@,
    decreases bs.len(),
{
    let head = bs[0]@.map_values(|e: (K, V)| e.0@);
    if p < head.len() {
        assert(keys_of(bs)[p] == bs[0]@[p].0@);
    } else {
        let tail = bs.drop_first();
        lemma_keys_of_flat_entry(tail, p - head.len());
        let (t, j) = choose|t: int, j: int|
            0 <= t < tail.len() && 0 <= j < tail[t]@.len() && keys_of(tail)[p - head.len()]
                == tail[t]@[j].0@;
        assert(tail[t] == bs[t + 1]);
        assert(keys_of(bs)[p] == bs[t + 1]@[j].0@);
    }
}

/// Placement plus per-bucket distinctness makes key views pairwise distinct
/// across the whole table: two entries with equal views would sit in the
/// same bucket.
proof fn lemma_globally_distinct<K: TableKey, V>(bs: Seq<Vec<(K, V)>>)
    requires
        placed_in(bs),
        all_distinct(bs),
    ensures
        globally_distinct(bs),
{
    assert forall|i1: int, j1: int, i2: int, j2: int|
        0 <= i1 < bs.len() && 0 <= j1 < bs[i1]@.len() && 0 <= i2 < bs.len() && 0 <= j2
            < bs[i2]@.len() && (i1 != i2 || j1 != j2) implies #[trigger] bs[i1]@[j1].0@
        != #[trigger] bs[i2]@[j2].0@ by {
        if bs[i1]@[j1].0@ == bs[i2]@[j2].0@ {
            assert(slot_of::<K>(bs[i1]@[j1].0@, bs.len() as nat) == i1 as nat);
            assert(slot_of::<K>(bs[i2]@[j2].0@, bs.len() as nat) == i2 as nat);
            assert(i1 == i2 && j1 != j2);
            assert(bucket_distinct(bs[i1]@));
        }
    }
}

/// Doubling a power of two, or growing no buckets to one, yields a power of
/// two.
proof fn lemma_pow2_grown(c: nat)
    requires
        c == 0 || is_pow2(c),
    ensures
        is_pow2(grown_capacity(c)),
{
    if c != 0 {
        assert(2 * c / 2 == c);
    }
}

/// A power of two at least four is divisible by four.
proof fn lemma_pow2_div4(c: nat)
    requires
        is_pow2(c),
        c >= 4,
    ensures
        c % 4 == 0,
{
    assert(c % 2 == 0 && is_pow2(c / 2));
    assert(c / 2 >= 2);
    if c / 2 > 2 {
        assert(c / 2 % 2 == 0);
    }
    assert(c % 4 == 0) by (nonlinear_arith)
        requires
            c % 2 == 0,
            (c / 2) % 2 == 0,
    ;
}

/// On a capacity that is zero or a power of two, the overflow-free load test
/// `count > cap / 2 + cap / 4` agrees with the three-quarters threshold, and
/// a positive count within the threshold leaves the table short of full.
proof fn lemma_load_threshold(cap: nat)
    requires
        cap == 0 || is_pow2(cap),
    ensures
        cap / 2 + cap / 4 == 3 * cap / 4,
        cap > 0 ==> 3 * cap / 4 + 1 <= cap,
{
    if cap >= 4 {
        lemma_pow2_div4(cap);
        let q = cap / 4;
        vstd::arithmetic::div_mod::lemma_fundamental_div_mod(cap as int, 4);
        assert(cap == 4 * q);
        assert(cap / 2 == 2 * q && cap / 4 == q && 3 * cap / 4 == 3 * q) by (nonlinear_arith)
            requires
                cap == 4 * q,
        ;
    }
}

/// Detaching the entry at position `j` of bucket `b0` by swapping the last
/// entry into its place: the result `b2` keeps every other entry, under the
/// same key views and values, and no longer holds `b0[j]`'s key view.
proof fn lemma_bucket_detach<K: TableKey, V>(b0: Seq<(K, V)>, b2: Seq<(K, V)>, j: int)
    requires
        bucket_distinct(b0),
        0 <= j < b0.len(),
        b2 == b0.update(j, b0.last()).drop_last(),
    ensures
        b2.len() + 1 == b0.len(),
        bucket_distinct(b2),
        !bucket_has(b2, b0[j].0@),
        forall|m: int| 0 <= m < b2.len() ==> exists|p: int| 0 <= p < b0.len() && #[trigger] b2[m] == b0[p],
        forall|vk: K::V|
            vk != b0[j].0@ ==> #[trigger] bucket_has(b2, vk) == bucket_has(b0, vk),
        forall|vk: K::V|
            vk != b0[j].0@ && bucket_has(b2, vk) ==> #[trigger] bucket_value(b2, vk)
                == bucket_value(b0, vk),
{
    let last = b0.len() - 1;
    assert(forall|m: int|
        0 <= m < b2.len() ==> #[trigger] b2[m] == (if m == j {
            b0[last]
        } else {
            b0[m]
        }));
    assert forall|m: int| 0 <= m < b2.len() implies exists|p: int|
        0 <= p < b0.len() && #[trigger] b2[m] == b0[p] by {
        let p = if m == j { last } else { m };
        assert(b2[m] == b0[p]);
    }
    assert forall|m1: int, m2: int| 0 <= m1 < m2 < b2.len() implies b2[m1].0@ != b2[m2].0@ by {
        let p1 = if m1 == j { last } else { m1 };
        let p2 = if m2 == j { last } else { m2 };
        if p1 < p2 {
            assert(b0[p1].0@ != b0[p2].0@);
        } else {
            assert(b0[p2].0@ != b0[p1].0@);
        }
    }
    assert forall|m: int| 0 <= m < b2.len() implies b2[m].0@ != b0[j].0@ by {
        let p = if m == j { last } else { m };
        if p != j {
            if p < j {
                assert(b0[p].0@ != b0[j].0@);
            } else {
                assert(b0[j].0@ != b0[p].0@);
            }
        }
    }
    assert forall|vk: K::V| vk != b0[j].0@ implies #[trigger] bucket_has(b2, vk) == bucket_has(
        b0,
        vk,
    ) by {
        if bucket_has(b0, vk) {
            let p = choose|p: int| 0 <= p < b0.len() && b0[p].0@ == vk;
            let m = if p == last { j } else { p };
            if m < b2.len() {
                assert(b2[m] == b0[p]);
                assert(bucket_has(b2, vk));
            } else {
                // then j == last and p == last, so vk would be b0[j]'s view
                assert(false);
            }
        }
        if bucket_has(b2, vk) {
            let m = choose|m: int| 0 <= m < b2.len() && b2[m].0@ == vk;
            let p = if m == j { last } else { m };
            assert(b2[m] == b0[p]);
            assert(bucket_has(b0, vk));
        }
    }
    assert forall|vk: K::V| vk != b0[j].0@ && bucket_has(b2, vk) implies #[trigger] bucket_value(
        b2,
        vk,
    ) == bucket_value(b0, vk) by {
        let m = choose|m: int| 0 <= m < b2.len() && b2[m].0@ == vk;
        let p = if m == j { last } else { m };
        assert(b2[m] == b0[p]);
        lemma_bucket_value_at(b2, vk, m);
        lemma_bucket_value_at(b0, vk, p);
    }
}

/// Appending an entry with a fresh key view to bucket `b0`: the result holds
/// the new view with the new value, keeps every other view and value, and
/// keeps its key views pairwise distinct.
proof fn lemma_bucket_append<K: TableKey, V>(b0: Seq<(K, V)>, k: K, v: V)
    requires
        bucket_distinct(b0),
        !bucket_has(b0, k@),
    ensures
        bucket_distinct(b0.push((k, v))),
        bucket_has(b0.push((k, v)), k@),
        bucket_value(b0.push((k, v)), k@) == v,
        forall|vk: K::V|
            vk != k@ ==> #[trigger] bucket_has(b0.push((k, v)), vk) == bucket_has(b0, vk),
        forall|vk: K::V|
            vk != k@ && bucket_has(b0, vk) ==> #[trigger] bucket_value(b0.push((k, v)), vk)
                == bucket_value(b0, vk),
{
    let b2 = b0.push((k, v));
    assert(b2[b0.len() as int] == (k, v));
    assert(forall|m: int| 0 <= m < b0.len() ==> #[trigger] b2[m] == b0[m]);
    assert forall|m1: int, m2: int| 0 <= m1 < m2 < b2.len() implies b2[m1].0@ != b2[m2].0@ by {
        if m2 == b0.len() {
            assert(b2[m1] == b0[m1]);
        }
    }
    lemma_bucket_value_at(b2, k@, b0.len() as int);
    assert forall|vk: K::V| vk != k@ implies #[trigger] bucket_has(b2, vk) == bucket_has(
        b0,
        vk,
    ) by {
        if bucket_has(b0, vk) {
            let p = choose|p: int| 0 <= p < b0.len() && b0[p].0@ == vk;
            assert(b2[p] == b0[p]);
        }
        if bucket_has(b2, vk) {
            let m = choose|m: int| 0 <= m < b2.len() && b2[m].0@ == vk;
            assert(m < b0.len() && b2[m] == b0[m]);
        }
    }
    assert forall|vk: K::V| vk != k@ && bucket_has(b0, vk) implies #[trigger] bucket_value(
        b2,
        vk,
    ) == bucket_value(b0, vk) by {
        let p = choose|p: int| 0 <= p < b0.len() && b0[p].0@ == vk;
        assert(b2[p] == b0[p]);
        lemma_bucket_value_at(b2, vk, p);
        lemma_bucket_value_at(b0, vk, p);
    }
}

/// One step of redistribution: moving the last entry of bucket `i` of the
/// drained array `r0` into bucket `idx` of the rebuilt array `n0` — the
/// bucket the entry's hash selects there — preserves every property of the
/// split state: placement and distinctness on the rebuilt side, agreement of
/// all entries with the abstract map `m`, distinctness and disjointness
/// across the two sides, coverage of `m`, and the total entry count.
proof fn lemma_transfer_step<K: TableKey, V>(
    n0: Seq<Vec<(K, V)>>,
    r0: Seq<Vec<(K, V)>>,
    n1: Seq<Vec<(K, V)>>,
    r1: Seq<Vec<(K, V)>>,
    m: Map<K::V, V>,
    i: int,
    idx: int,
    k: K,
    v: V,
)
    requires
        0 <= i < r0.len(),
        r0[i]@.len() > 0,
        (k, v) == r0[i]@.last(),
        0 <= idx < n0.len(),
        slot_of::<K>(k@, n0.len() as nat) == idx as nat,
        r1.len() == r0.len(),
        r1[i]@ == r0[i]@.subrange(0, r0[i]@.len() - 1),
        forall|t: int| 0 <= t < r0.len() && t != i ==> r1[t] == r0[t],
        n1.len() == n0.len(),
        n1[idx]@ == n0[idx]@.push((k, v)),
        forall|t: int| 0 <= t < n0.len() && t != idx ==> n1[t] == n0[t],
        placed_in(n0),
        all_distinct(n0),
        entries_match(n0, m),
        entries_match(r0, m),
        globally_distinct(r0),
        tables_disjoint(n0, r0),
        covered_by(m, n0, r0),
    ensures
        placed_in(n1),
        all_distinct(n1),
        entries_match(n1, m),
        entries_match(r1, m),
        globally_distinct(r1),
        tables_disjoint(n1, r1),
        covered_by(m, n1, r1),
        total_len(n1) + total_len(r1) == total_len(n0) + total_len(r0),
{
    let vk = k@;
    let last: int = r0[i]@.len() - 1;
    let grown: int = n0[idx]@.len() as int;
    assert(placed_in(n1)) by {
        assert forall|t: int, j: int| 0 <= t < n1.len() && 0 <= j < n1[t]@.len()
            implies slot_of::<K>(#[trigger] n1[t]@[j].0@, n1.len() as nat) == t as nat by {
            if t == idx && j == grown {
                assert(n1[t]@[j] == (k, v));
            } else {
                assert(n1[t]@[j] == n0[t]@[j]);
            }
        }
    }
    assert(all_distinct(n1)) by {
        assert forall|t: int| 0 <= t < n1.len() implies bucket_distinct(#[trigger] n1[t]@) by {
            if t == idx {
                assert forall|j1: int, j2: int| 0 <= j1 < j2 < n1[t]@.len()
                    implies n1[t]@[j1].0@ != n1[t]@[j2].0@ by {
                    if j2 == grown {
                        // the new entry's view came from the drained side, so
                        // it collides with nothing already rebuilt
                        assert(n0[t]@[j1].0@ != r0[i]@[last].0@);
                        assert(n1[t]@[j1] == n0[t]@[j1]);
                    } else {
                        assert(n1[t]@[j1] == n0[t]@[j1]);
                        assert(n1[t]@[j2] == n0[t]@[j2]);
                        assert(bucket_distinct(n0[t]@));
                    }
                }
            } else {
                assert(n1[t] == n0[t]);
                assert(bucket_distinct(n0[t]@));
            }
        }
    }
    assert(entries_match(n1, m)) by {
        assert forall|t: int, j: int| 0 <= t < n1.len() && 0 <= j < n1[t]@.len()
            implies m.contains_key(#[trigger] n1[t]@[j].0@) && m[n1[t]@[j].0@]
            == n1[t]@[j].1 by {
            if t == idx && j == grown {
                assert(r0[i]@[last] == (k, v));
                assert(m.contains_key(r0[i]@[last].0@));
            } else {
                assert(n1[t]@[j] == n0[t]@[j]);
            }
        }
    }
    assert(entries_match(r1, m)) by {
        assert forall|t: int, j: int| 0 <= t < r1.len() && 0 <= j < r1[t]@.len()
            implies m.contains_key(#[trigger] r1[t]@[j].0@) && m[r1[t]@[j].0@]
            == r1[t]@[j].1 by {
            assert(r1[t]@[j] == r0[t]@[j]);
        }
    }
    assert(globally_distinct(r1)) by {
        assert forall|i1: int, j1: int, i2: int, j2: int|
            0 <= i1 < r1.len() && 0 <= j1 < r1[i1]@.len() && 0 <= i2 < r1.len() && 0 <= j2
                < r1[i2]@.len() && (i1 != i2 || j1 != j2) implies #[trigger] r1[i1]@[j1].0@
            != #[trigger] r1[i2]@[j2].0@ by {
            assert(r1[i1]@[j1] == r0[i1]@[j1]);
            assert(r1[i2]@[j2] == r0[i2]@[j2]);
        }
    }
    assert(tables_disjoint(n1, r1)) by {
        assert forall|i1: int, j1: int, i2: int, j2: int|
            0 <= i1 < n1.len() && 0 <= j1 < n1[i1]@.len() && 0 <= i2 < r1.len() && 0 <= j2
                < r1[i2]@.len() implies #[trigger] n1[i1]@[j1].0@ != #[trigger] r1[i2]@[j2].0@ by {
            assert(r1[i2]@[j2] == r0[i2]@[j2]);
            if i1 == idx && j1 == grown {
                // the moved entry's view occurred only at the popped position
                assert(n1[i1]@[j1] == (k, v));
                assert(r0[i]@[last].0@ != r0[i2]@[j2].0@);
            } else {
                assert(n1[i1]@[j1] == n0[i1]@[j1]);
            }
        }
    }
    assert(covered_by(m, n1, r1)) by {
        assert forall|vq: K::V| #[trigger] m.contains_key(vq) implies table_has(n1, vq)
            || table_has(r1, vq) by {
            if table_has(n0, vq) {
                let t = choose|t: int| 0 <= t < n0.len() && bucket_has(n0[t]@, vq);
                let j = choose|j: int| 0 <= j < n0[t]@.len() && n0[t]@[j].0@ == vq;
                if t == idx {
                    assert(n1[t]@[j] == n0[t]@[j]);
                } else {
                    assert(n1[t] == n0[t]);
                }
                assert(bucket_has(n1[t]@, vq));
            } else {
                let t = choose|t: int| 0 <= t < r0.len() && bucket_has(r0[t]@, vq);
                let j = choose|j: int| 0 <= j < r0[t]@.len() && r0[t]@[j].0@ == vq;
                if t == i && j == last {
                    assert(n1[idx]@[grown].0@ == vq);
                    assert(bucket_has(n1[idx]@, vq));
                } else {
                    assert(r1[t]@[j] == r0[t]@[j]);
                    assert(bucket_has(r1[t]@, vq));
                }
            }
        }
    }
    assert(r1 =~= r0.update(i, r1[i]));
    lemma_total_len_update(r0, i, r1[i]);
    assert(n1 =~= n0.update(idx, n1[idx]));
    lemma_total_len_update(n0, idx, n1[idx]);
}

/// Scans `bucket` linearly for an entry whose key has the view of `key`.
fn find_in_bucket<K: TableKey, V>(bucket: &Vec<(K, V)>, key: &K) -> (r: Option<usize>)
    ensures
        match r {
            Some(j) => j < bucket@.len() && bucket@[j as int].0@ == key@,
            None => !bucket_has(bucket@, key@),
        },
{
    let mut j: usize = 0;
    while j < bucket.len()
        invariant
            j <= bucket@.len(),
            forall|jj: int| 0 <= jj < j ==> bucket@[jj].0@ != key@,
        decreases bucket@.len() - j,
    {
        if bucket[j].0.key_eq(key) {
            return Some(j);
        }
        j += 1;
    }
    None
}

impl<K: TableKey, V> HashMap<K, V> {
    /// The table's capacity: the number of buckets.
    pub closed spec fn spec_capacity(&self) -> nat {
        self.buckets@.len()
    }

    /// The table's count of live entries.
    pub closed spec fn spec_count(&self) -> nat {
        self.items as nat
    }

    /// The table's structural invariant: capacity zero or a power of two,
    /// an exact entry count no greater than the capacity, pairwise distinct
    /// keys within each bucket, and every entry in the bucket its hash
    /// selects.
    pub closed spec fn well_formed(&self) -> bool {
        &&& self.buckets@.len() == 0 || is_pow2(self.buckets@.len() as nat)
        &&& self.items as nat == total_len(self.buckets@)
        &&& self.items as nat <= self.buckets@.len()
        &&& all_distinct(self.buckets@)
        &&& placed_in(self.buckets@)
    }

    /// Whether the table holds an entry for the key view `vk`.
    spec fn has_key(&self, vk: K::V) -> bool {
        self.buckets@.len() > 0 && bucket_has(
            self.buckets@[slot_of::<K>(vk, self.buckets@.len() as nat) as int]@,
            vk,
        )
    }

    /// The value the table holds for the key view `vk`.
    spec fn value_of(&self, vk: K::V) -> V
        recommends
            self.has_key(vk),
    {
        bucket_value(self.buckets@[slot_of::<K>(vk, self.buckets@.len() as nat) as int]@, vk)
    }

    /// Creates a new, empty table: no buckets, no entries.
    pub fn new() -> (t: Self)
        ensures
            t.well_formed(),
            t@ == Map::<K::V, V>::empty(),
            t.spec_count() == 0,
            t.spec_capacity() == 0,
    {
        let t = Self { buckets: Vec::new(), items: 0 };
        proof {
            assert(t@ =~= Map::<K::V, V>::empty());
        }
        t
    }

    /// Whether the table holds no entries.
    fn empty(&self) -> (b: bool)
        ensures
            b == (self.spec_count() == 0),
    {
        self.items == 0
    }

    /// The bucket index for `key` under the current capacity: the key's
    /// hash, reduced modulo the number of buckets.
    fn get_bucket_idx(&self, key: &K) -> (idx: usize)
        requires
            self.spec_capacity() > 0,
        ensures
            idx as nat == slot_of::<K>(key@, self.spec_capacity()),
            idx < self.spec_capacity(),
    {
        let h = key.key_hash();
        (h % (self.buckets.len() as u64)) as usize
    }

    /// Looks the key up: a reference to the stored value, or nothing when no
    /// entry with an equal key is present. Never mutates the table.
    pub fn get(&self, key: K) -> (r: Option<&V>)
        requires
            self.well_formed(),
        ensures
            r is Some <==> self@.contains_key(key@),
            r matches Some(v) ==> *v == self@[key@],
    {
        if self.empty() {
            proof {
                lemma_total_len_zero(self.buckets@);
            }
            return None;
        }
        proof {
            if self.buckets@.len() == 0 {
                assert(total_len(self.buckets@) == 0);
            }
        }
        let bucket_idx = self.get_bucket_idx(&key);
        match find_in_bucket(&self.buckets[bucket_idx], &key) {
            Some(j) => {
                proof {
                    lemma_bucket_value_at(self.buckets@[bucket_idx as int]@, key@, j as int);
                }
                Some(&self.buckets[bucket_idx][j].1)
            },
            None => None,
        }
    }

    /// When exactly the bucket that `vk` hashes to changes, and it changes
    /// by now holding `vk` with value `v` while keeping every other key view
    /// and its value, the table's abstract contents change by exactly one
    /// map insertion.
    proof fn lemma_view_insert(mid: Self, post: Self, vk: K::V, v: V, bi: int)
        requires
            mid.buckets@.len() > 0,
            post.buckets@.len() == mid.buckets@.len(),
            bi == slot_of::<K>(vk, mid.buckets@.len() as nat) as int,
            forall|t: int|
                0 <= t < mid.buckets@.len() && t != bi ==> post.buckets@[t] == mid.buckets@[t],
            bucket_has(post.buckets@[bi]@, vk),
            bucket_value(post.buckets@[bi]@, vk) == v,
            forall|vq: K::V|
                vq != vk ==> #[trigger] bucket_has(post.buckets@[bi]@, vq) == bucket_has(
                    mid.buckets@[bi]@,
                    vq,
                ),
            forall|vq: K::V|
                vq != vk && bucket_has(mid.buckets@[bi]@, vq) ==> #[trigger] bucket_value(
                    post.buckets@[bi]@,
                    vq,
                ) == bucket_value(mid.buckets@[bi]@, vq),
        ensures
            post@ == mid@.insert(vk, v),
    {
        let cap = mid.buckets@.len() as nat;
        assert forall|vq: K::V| #[trigger] post.has_key(vq) == (vq == vk || mid.has_key(vq))
            && (post.has_key(vq) ==> post.value_of(vq) == (if vq == vk {
            v
        } else {
            mid.value_of(vq)
        })) by {
            let s = slot_of::<K>(vq, cap) as int;
            if s != bi {
                assert(post.buckets@[s] == mid.buckets@[s]);
            }
        }
        assert(post@ =~= mid@.insert(vk, v));
    }

    /// When exactly the bucket that `vk` hashes to changes, and it changes
    /// by no longer holding `vk` while keeping every other key view and its
    /// value, the table's abstract contents change by exactly one map
    /// removal.
    proof fn lemma_view_remove(mid: Self, post: Self, vk: K::V, bi: int)
        requires
            mid.buckets@.len() > 0,
            post.buckets@.len() == mid.buckets@.len(),
            bi == slot_of::<K>(vk, mid.buckets@.len() as nat) as int,
            forall|t: int|
                0 <= t < mid.buckets@.len() && t != bi ==> post.buckets@[t] == mid.buckets@[t],
            !bucket_has(post.buckets@[bi]@, vk),
            forall|vq: K::V|
                vq != vk ==> #[trigger] bucket_has(post.buckets@[bi]@, vq) == bucket_has(
                    mid.buckets@[bi]@,
                    vq,
                ),
            forall|vq: K::V|
                vq != vk && bucket_has(post.buckets@[bi]@, vq) ==> #[trigger] bucket_value(
                    post.buckets@[bi]@,
                    vq,
                ) == bucket_value(mid.buckets@[bi]@, vq),
        ensures
            post@ == mid@.remove(vk),
    {
        let cap = mid.buckets@.len() as nat;
        assert forall|vq: K::V| #[trigger] post.has_key(vq) == (vq != vk && mid.has_key(vq))
            && (post.has_key(vq) ==> post.value_of(vq) == mid.value_of(vq)) by {
            let s = slot_of::<K>(vq, cap) as int;
            if s != bi {
                assert(post.buckets@[s] == mid.buckets@[s]);
            }
        }
        assert(post@ =~= mid@.remove(vk));
    }

    /// Grows the bucket array — to one bucket from none, else to double —
    /// and redistributes every existing entry into the bucket its hash
    /// selects under the new capacity. No entry is dropped, duplicated, or
    /// left under a stale index: the abstract contents are unchanged.
    fn rehash(&mut self)
        requires
            old(self).well_formed(),
            2 * old(self).spec_capacity() <= usize::MAX,
        ensures
            final(self).well_formed(),
            final(self)@ == old(self)@,
            final(self).spec_count() == old(self).spec_count(),
            final(self).spec_capacity() == grown_capacity(old(self).spec_capacity()),
    {
        let ghost m0 = old(self)@;
        let ghost g = old(self).buckets@;
        let ghost oc = g.len() as nat;

        let size = if self.buckets.len() == 0 {
            1
        } else {
            self.buckets.len() * 2
        };
        let ghost nc = size as nat;

        let mut fresh: Vec<Vec<(K, V)>> = Vec::new();
        while fresh.len() < size
            invariant
                fresh@.len() <= size,
                forall|t: int| 0 <= t < fresh@.len() ==> fresh@[t]@.len() == 0,
            decreases size - fresh@.len(),
        {
            fresh.push(Vec::new());
        }
        core::mem::swap(&mut self.buckets, &mut fresh);
        let mut rest = fresh;

        proof {
            lemma_globally_distinct(g);
            lemma_total_len_all_empty(self.buckets@);
            assert(entries_match(g, m0)) by {
                assert forall|t: int, j: int| 0 <= t < g.len() && 0 <= j < g[t]@.len()
                    implies m0.contains_key(#[trigger] g[t]@[j].0@) && m0[g[t]@[j].0@]
                    == g[t]@[j].1 by {
                    let vk = g[t]@[j].0@;
                    assert(slot_of::<K>(vk, oc) == t as nat);
                    lemma_bucket_value_at(g[t]@, vk, j);
                    assert(old(self).has_key(vk));
                }
            }
            assert(covered_by(m0, self.buckets@, rest@)) by {
                assert forall|vk: K::V| #[trigger] m0.contains_key(vk) implies table_has(
                    self.buckets@,
                    vk,
                ) || table_has(rest@, vk) by {
                    assert(old(self).has_key(vk));
                    let s = slot_of::<K>(vk, oc) as int;
                    assert(0 <= s < g.len() && bucket_has(g[s]@, vk));
                }
            }
        }

        let mut i: usize = 0;
        while i < rest.len()
            invariant
                i <= rest@.len(),
                rest@.len() == g.len(),
                self.buckets@.len() == nc,
                nc == grown_capacity(oc),
                oc == g.len(),
                forall|t: int| 0 <= t < i ==> rest@[t]@.len() == 0,
                placed_in(self.buckets@),
                all_distinct(self.buckets@),
                entries_match(self.buckets@, m0),
                entries_match(rest@, m0),
                globally_distinct(rest@),
                tables_disjoint(self.buckets@, rest@),
                covered_by(m0, self.buckets@, rest@),
                total_len(self.buckets@) + total_len(rest@) == old(self).items,
                self.items == old(self).items,
            decreases rest@.len() - i,
        {
            while rest[i].len() > 0
                invariant
                    i < rest@.len(),
                    rest@.len() == g.len(),
                    self.buckets@.len() == nc,
                    nc == grown_capacity(oc),
                    oc == g.len(),
                    forall|t: int| 0 <= t < i ==> rest@[t]@.len() == 0,
                    placed_in(self.buckets@),
                    all_distinct(self.buckets@),
                    entries_match(self.buckets@, m0),
                    entries_match(rest@, m0),
                    globally_distinct(rest@),
                    tables_disjoint(self.buckets@, rest@),
                    covered_by(m0, self.buckets@, rest@),
                    total_len(self.buckets@) + total_len(rest@) == old(self).items,
                    self.items == old(self).items,
                decreases rest@[i as int]@.len(),
            {
                let ghost r0 = rest@;
                let ghost n0 = self.buckets@;
                let b = &mut rest[i];
                let e = b.pop();
                match e {
                    Some((k, v)) => {
                        let idx = self.get_bucket_idx(&k);
                        let nb = &mut self.buckets[idx];
                        nb.push((k, v));
                        proof {
                            lemma_transfer_step(
                                n0,
                                r0,
                                self.buckets@,
                                rest@,
                                m0,
                                i as int,
                                idx as int,
                                k,
                                v,
                            );
                            assert forall|t: int| 0 <= t < i implies rest@[t]@.len() == 0 by {
                                assert(rest@[t] == r0[t]);
                            }
                        }
                    },
                    None => {},
                }
            }
            i += 1;
        }

        proof {
            lemma_total_len_all_empty(rest@);
            lemma_pow2_grown(oc);
            assert(self.items as nat <= nc) by {
                if oc == 0 {
                    assert(total_len(g) == 0);
                }
            }
            assert(self.items as nat == total_len(self.buckets@));
            assert(self@ =~= m0) by {
                assert forall|vk: K::V| #[trigger] m0.contains_key(vk) implies self.has_key(vk)
                    && self.value_of(vk) == m0[vk] by {
                    assert(table_has(self.buckets@, vk));
                    let t = choose|t: int|
                        0 <= t < self.buckets@.len() && bucket_has(self.buckets@[t]@, vk);
                    let j = choose|j: int|
                        0 <= j < self.buckets@[t]@.len() && self.buckets@[t]@[j].0@ == vk;
                    assert(slot_of::<K>(vk, nc) == t as nat);
                    lemma_bucket_value_at(self.buckets@[t]@, vk, j);
                }
                assert forall|vk: K::V| #[trigger] self.has_key(vk) implies m0.contains_key(
                    vk,
                ) by {
                    let s = slot_of::<K>(vk, nc) as int;
                    let j = choose|j: int|
                        0 <= j < self.buckets@[s]@.len() && self.buckets@[s]@[j].0@ == vk;
                    assert(m0.contains_key(self.buckets@[s]@[j].0@));
                }
            }
        }
    }

    /// Inserts `key` with `value`. When an entry with an equal key is
    /// already present, its value is replaced and the previous value
    /// returned; otherwise a new entry is appended and nothing is returned.
    /// Before the bucket is located, the table grows — to one bucket from
    /// none, else to double — exactly when it holds no entries (so on the
    /// very first insert) or when its count exceeds three quarters of its
    /// capacity. The capacity never shrinks.
    pub fn insert(&mut self, key: K, value: V) -> (prev: Option<V>)
        requires
            old(self).well_formed(),
            2 * old(self).spec_capacity() <= usize::MAX,
        ensures
            final(self).well_formed(),
            final(self)@ == old(self)@.insert(key@, value),
            prev == (if old(self)@.contains_key(key@) {
                Some(old(self)@[key@])
            } else {
                None::<V>
            }),
            final(self).spec_count() == old(self).spec_count() + (if old(self)@.contains_key(
                key@,
            ) {
                0int
            } else {
                1int
            }),
            final(self).spec_capacity() == (if grow_needed(
                old(self).spec_count(),
                old(self).spec_capacity(),
            ) {
                grown_capacity(old(self).spec_capacity())
            } else {
                old(self).spec_capacity()
            }),
            final(self).spec_capacity() >= old(self).spec_capacity(),
    {
        proof {
            lemma_load_threshold(old(self).spec_capacity());
        }
        let threshold = self.buckets.len() / 2 + self.buckets.len() / 4;
        if self.empty() || self.items > threshold {
            self.rehash();
        }
        let ghost mid = *self;
        proof {
            assert(mid.spec_capacity() > 0) by {
                if mid.buckets@.len() == 0 {
                    assert(total_len(mid.buckets@) == 0);
                }
            }
            lemma_load_threshold(mid.spec_capacity());
            assert(mid@ == old(self)@);
        }
        let bucket_idx = self.get_bucket_idx(&key);
        let ghost bi = bucket_idx as int;
        let ghost b0 = mid.buckets@[bi]@;
        match find_in_bucket(&self.buckets[bucket_idx], &key) {
            Some(j) => {
                let bucket = &mut self.buckets[bucket_idx];
                let old_entry = bucket.swap_remove(j);
                bucket.push((key, value));
                proof {
                    let b1 = b0.update(j as int, b0.last()).drop_last();
                    let b2 = self.buckets@[bi]@;
                    assert(b2 == b1.push((key, value)));
                    lemma_bucket_value_at(b0, key@, j as int);
                    lemma_bucket_detach(b0, b1, j as int);
                    lemma_bucket_append(b1, key, value);
                    assert(mid.has_key(key@) && mid.value_of(key@) == old_entry.1);
                    // the bucket keeps its length, so the count is unchanged
                    lemma_total_len_update(mid.buckets@, bi, self.buckets@[bi]);
                    // every entry of the new bucket is placed: it is either
                    // the fresh entry or one carried over from the old bucket
                    assert forall|t: int, m: int|
                        0 <= t < self.buckets@.len() && 0 <= m < self.buckets@[t]@.len()
                        implies slot_of::<K>(
                        #[trigger] self.buckets@[t]@[m].0@,
                        self.buckets@.len() as nat,
                    ) == t as nat by {
                        if t == bi {
                            if m < b1.len() {
                                let p = choose|p: int| 0 <= p < b0.len() && b1[m] == b0[p];
                                assert(b2[m] == b0[p]);
                            } else {
                                assert(b2[m] == (key, value));
                            }
                        } else {
                            assert(self.buckets@[t] == mid.buckets@[t]);
                        }
                    }
                    assert forall|t: int| 0 <= t < self.buckets@.len() implies bucket_distinct(
                        #[trigger] self.buckets@[t]@,
                    ) by {
                        if t != bi {
                            assert(self.buckets@[t] == mid.buckets@[t]);
                        }
                    }
                    Self::lemma_view_insert(mid, *self, key@, value, bi);
                }
                Some(old_entry.1)
            },
            None => {
                let bucket = &mut self.buckets[bucket_idx];
                bucket.push((key, value));
                proof {
                    let b2 = self.buckets@[bi]@;
                    assert(b2 == b0.push((key, value)));
                    lemma_bucket_append(b0, key, value);
                    lemma_total_len_update(mid.buckets@, bi, self.buckets@[bi]);
                    assert(!mid.has_key(key@));
                    assert forall|t: int, m: int|
                        0 <= t < self.buckets@.len() && 0 <= m < self.buckets@[t]@.len()
                        implies slot_of::<K>(
                        #[trigger] self.buckets@[t]@[m].0@,
                        self.buckets@.len() as nat,
                    ) == t as nat by {
                        if t == bi {
                            if m < b0.len() {
                                assert(b2[m] == b0[m]);
                            } else {
                                assert(b2[m] == (key, value));
                            }
                        } else {
                            assert(self.buckets@[t] == mid.buckets@[t]);
                        }
                    }
                    assert forall|t: int| 0 <= t < self.buckets@.len() implies bucket_distinct(
                        #[trigger] self.buckets@[t]@,
                    ) by {
                        if t != bi {
                            assert(self.buckets@[t] == mid.buckets@[t]);
                        }
                    }
                    // room for one more entry: after a grow the count is at
                    // most half the capacity; otherwise it is within the
                    // three-quarters threshold
                    assert(mid.items as nat + 1 <= mid.buckets@.len());
                }
                self.items = self.items + 1;
                proof {
                    Self::lemma_view_insert(mid, *self, key@, value, bi);
                }
                None
            },
        }
    }

    /// Removes the entry whose key equals `key` and returns its value, or
    /// returns nothing when no such entry is present — removing an absent
    /// key changes no observable state. The bucket may be reordered by the
    /// detachment; removal never changes the capacity.
    pub fn remove(&mut self, key: K) -> (removed: Option<V>)
        requires
            old(self).well_formed(),
        ensures
            final(self).well_formed(),
            final(self)@ == old(self)@.remove(key@),
            removed == (if old(self)@.contains_key(key@) {
                Some(old(self)@[key@])
            } else {
                None::<V>
            }),
            final(self).spec_count() == old(self).spec_count() - (if old(self)@.contains_key(
                key@,
            ) {
                1int
            } else {
                0int
            }),
            final(self).spec_capacity() == old(self).spec_capacity(),
    {
        if self.buckets.len() == 0 {
            proof {
                assert(old(self)@.remove(key@) =~= old(self)@);
            }
            return None;
        }
        let bucket_idx = self.get_bucket_idx(&key);
        let ghost bi = bucket_idx as int;
        let ghost b0 = old(self).buckets@[bi]@;
        match find_in_bucket(&self.buckets[bucket_idx], &key) {
            Some(j) => {
                proof {
                    lemma_total_len_ge(self.buckets@, bi);
                }
                self.items = self.items - 1;
                let bucket = &mut self.buckets[bucket_idx];
                let entry = bucket.swap_remove(j);
                proof {
                    let b2 = self.buckets@[bi]@;
                    assert(b2 == b0.update(j as int, b0.last()).drop_last());
                    lemma_bucket_value_at(b0, key@, j as int);
                    lemma_bucket_detach(b0, b2, j as int);
                    lemma_total_len_update(old(self).buckets@, bi, self.buckets@[bi]);
                    assert(old(self).has_key(key@) && old(self).value_of(key@) == entry.1);
                    // every carried-over entry keeps its placement
                    assert forall|t: int, m: int|
                        0 <= t < self.buckets@.len() && 0 <= m < self.buckets@[t]@.len()
                        implies slot_of::<K>(
                        #[trigger] self.buckets@[t]@[m].0@,
                        self.buckets@.len() as nat,
                    ) == t as nat by {
                        if t == bi {
                            let p = choose|p: int| 0 <= p < b0.len() && b2[m] == b0[p];
                            assert(self.buckets@[t]@[m] == b0[p]);
                        } else {
                            assert(self.buckets@[t] == old(self).buckets@[t]);
                        }
                    }
                    assert forall|t: int| 0 <= t < self.buckets@.len() implies bucket_distinct(
                        #[trigger] self.buckets@[t]@,
                    ) by {
                        if t != bi {
                            assert(self.buckets@[t] == old(self).buckets@[t]);
                        }
                    }
                    Self::lemma_view_remove(*old(self), *self, key@, bi);
                }
                Some(entry.1)
            },
            None => {
                proof {
                    assert(!old(self).has_key(key@));
                    assert(old(self)@.remove(key@) =~= old(self)@);
                }
                None
            },
        }
    }

    /// The number of live entries the table holds.
    pub fn count(&self) -> (n: usize)
        ensures
            n as nat == self.spec_count(),
    {
        self.items
    }

    /// The table's capacity: the number of buckets currently allocated.
    pub fn capacity(&self) -> (n: usize)
        ensures
            n as nat == self.spec_capacity(),
    {
        self.buckets.len()
    }

    /// The capacity of a well-formed table is zero — before the first
    /// insert — or a power of two; each operation's contract shows it never
    /// decreases, so over a table's lifetime it runs through 0, 1, 2, 4, ….
    pub proof fn lemma_capacity_pow2(&self)
        requires
            self.well_formed(),
        ensures
            self.spec_capacity() == 0 || is_pow2(self.spec_capacity()),
    {
    }

    /// The count of live entries equals the number of distinct keys in the
    /// table's abstract contents. Together with each operation's count
    /// clause, the count after any sequence of operations is the number of
    /// distinct keys inserted and not since removed.
    pub proof fn lemma_count_is_key_count(&self)
        requires
            self.well_formed(),
        ensures
            self.spec_count() == self@.dom().len(),
    {
        let bs = self.buckets@;
        lemma_globally_distinct(bs);
        lemma_keys_of_len(bs);
        lemma_keys_of_distinct(bs);
        assert(self@.dom() =~= keys_of(bs).to_set()) by {
            assert forall|vk: K::V| #[trigger] keys_of(bs).contains(vk) implies self.has_key(
                vk,
            ) by {
                lemma_keys_of_membership(bs, vk);
                let t = choose|t: int| 0 <= t < bs.len() && bucket_has(bs[t]@, vk);
                let j = choose|j: int| 0 <= j < bs[t]@.len() && bs[t]@[j].0@ == vk;
                assert(slot_of::<K>(vk, bs.len() as nat) == t as nat);
            }
            assert forall|vk: K::V| #[trigger] self.has_key(vk) implies keys_of(bs).contains(
                vk,
            ) by {
                lemma_keys_of_membership(bs, vk);
                let s = slot_of::<K>(vk, bs.len() as nat) as int;
                assert(0 <= s < bs.len() && bucket_has(bs[s]@, vk));
            }
        }
        keys_of(bs).unique_seq_to_set();
    }

    /// After `insert(key, value)`, and with no intervening insert or remove
    /// of an equal key, `get(key)` reports presence and returns exactly
    /// `value`: the state after the insert holds the key with that value,
    /// and a lookup reports exactly what the state holds.
    pub proof fn lemma_insert_then_get(pre: Self, post: Self, vk: K::V, v: V)
        requires
            post@ == pre@.insert(vk, v),
        ensures
            post@.contains_key(vk),
            post@[vk] == v,
    {
    }

    /// An insert disturbs no other key: every previously present key is
    /// still present with its value, and no absent key appears — also when
    /// the insert grew the table and every entry was redistributed, since
    /// the contract's map update is the same either way.
    pub proof fn lemma_insert_preserves_others(pre: Self, post: Self, vk: K::V, v: V, other: K::V)
        requires
            post@ == pre@.insert(vk, v),
            other != vk,
        ensures
            post@.contains_key(other) == pre@.contains_key(other),
            pre@.contains_key(other) ==> post@[other] == pre@[other],
    {
    }

    /// After `remove(key)`, a lookup of that key reports absence, every
    /// other key keeps its presence and value, and removing an absent key
    /// changes no observable state at all.
    pub proof fn lemma_remove_then_get(pre: Self, post: Self, vk: K::V)
        requires
            post@ == pre@.remove(vk),
        ensures
            !post@.contains_key(vk),
            forall|other: K::V|
                other != vk ==> post@.contains_key(other) == #[trigger] pre@.contains_key(other),
            forall|other: K::V|
                other != vk && pre@.contains_key(other) ==> post@[other] == #[trigger] pre@[other],
            !pre@.contains_key(vk) ==> post@ == pre@,
    {
        if !pre@.contains_key(vk) {
            assert(post@ =~= pre@);
        }
    }
}

impl<K: TableKey, V> View for HashMap<K, V> {
    type V = Map<K::V, V>;

    /// The abstract contents of the table: the map from each present key
    /// view to its stored value.
    closed spec fn view(&self) -> Map<K::V, V> {
        Map::new(|vk: K::V| self.has_key(vk), |vk: K::V| self.value_of(vk))
    }
}

} // verus!
