//! Ordered maps seen as sequences of entries sorted by key.
//!
//! The search trees of this crate describe what they hold as the sequence of
//! their entries from the least key to the greatest. This module relates such
//! a sequence to the finite map with the same entries.

use crate::order::{lt, strict_total_order};
use vstd::prelude::*;

verus! {

/// The keys of `s` grow strictly from each entry to every later one.
pub open spec fn increasing<K: PartialOrd, V>(s: Seq<(K, V)>) -> bool {
    forall|i: int, j: int| #![trigger s[i], s[j]] 0 <= i < j < s.len() ==> lt(s[i].0, s[j].0)
}

/// Some entry of `s` has the key `key`.
pub open spec fn has_key<K, V>(s: Seq<(K, V)>, key: K) -> bool {
    exists|i: int| 0 <= i < s.len() && (#[trigger] s[i]).0 == key
}

/// The map that holds the entries of `s`; of two entries with one key the
/// later one counts.
pub open spec fn entries_map<K, V>(s: Seq<(K, V)>) -> Map<K, V>
    decreases s.len(),
{
    if s.len() == 0 {
        Map::empty()
    } else {
        entries_map(s.drop_last()).insert(s.last().0, s.last().1)
    }
}

/// How many entries of `s` have a key strictly below `key`.
pub open spec fn rank_of<K: PartialOrd, V>(s: Seq<(K, V)>, key: K) -> nat
    decreases s.len(),
{
    if s.len() == 0 {
        0
    } else {
        rank_of(s.drop_last(), key) + if lt(s.last().0, key) {
            1nat
        } else {
            0nat
        }
    }
}

/// `k` is the greatest key of `m` that is not above `key`.
pub open spec fn greatest_up_to<K: PartialOrd, V>(m: Map<K, V>, key: K, k: K) -> bool {
    &&& m.contains_key(k)
    &&& !lt(key, k)
    &&& forall|x: K| #[trigger] m.contains_key(x) && !lt(key, x) ==> !lt(k, x)
}

/// `k` is the least key of `m` that is not below `key`.
pub open spec fn least_from<K: PartialOrd, V>(m: Map<K, V>, key: K, k: K) -> bool {
    &&& m.contains_key(k)
    &&& !lt(k, key)
    &&& forall|x: K| #[trigger] m.contains_key(x) && !lt(x, key) ==> !lt(x, k)
}

/// The keys of the map of `s` are the keys of the entries of `s`, and there
/// are finitely many.
pub proof fn lemma_map_keys<K, V>(s: Seq<(K, V)>)
    ensures
        entries_map(s).dom().finite(),
        forall|k: K| #[trigger] entries_map(s).contains_key(k) <==> has_key(s, k),
    decreases s.len(),
{
    if s.len() > 0 {
        let t = s.drop_last();
        lemma_map_keys(t);
        assert forall|k: K| #[trigger] entries_map(s).contains_key(k) <==> has_key(s, k) by {
            if has_key(s, k) {
                let i = choose|i: int| 0 <= i < s.len() && (#[trigger] s[i]).0 == k;
                if i < s.len() - 1 {
                    assert(t[i].0 == k);
                    assert(has_key(t, k));
                }
            }
            if entries_map(s).contains_key(k) {
                if k == s.last().0 {
                    assert(s[s.len() - 1].0 == k);
                } else {
                    assert(has_key(t, k));
                    let i = choose|i: int| 0 <= i < t.len() && (#[trigger] t[i]).0 == k;
                    assert(s[i].0 == k);
                }
            }
        }
    }
}

/// In a sequence with increasing keys, each entry is what the map holds
/// under its key.
pub proof fn lemma_map_entry<K: PartialOrd, V>(s: Seq<(K, V)>, i: int)
    requires
        strict_total_order::<K>(),
        increasing(s),
        0 <= i < s.len(),
    ensures
        entries_map(s).contains_key(s[i].0),
        entries_map(s)[s[i].0] == s[i].1,
    decreases s.len(),
{
    let t = s.drop_last();
    if i < s.len() - 1 {
        assert(increasing(t)) by {
            assert forall|a: int, b: int| #![trigger t[a], t[b]] 0 <= a < b < t.len() implies lt(
                t[a].0,
                t[b].0,
            ) by {
                assert(lt(s[a].0, s[b].0));
            }
        }
        lemma_map_entry(t, i);
        assert(t[i] == s[i]);
        assert(lt(s[i].0, s[s.len() - 1].0));
    }
}

/// A sequence with increasing keys is as long as its map is large.
pub proof fn lemma_map_len<K: PartialOrd, V>(s: Seq<(K, V)>)
    requires
        strict_total_order::<K>(),
        increasing(s),
    ensures
        entries_map(s).dom().finite(),
        entries_map(s).len() == s.len(),
    decreases s.len(),
{
    lemma_map_keys(s);
    if s.len() > 0 {
        let t = s.drop_last();
        assert(increasing(t)) by {
            assert forall|a: int, b: int| #![trigger t[a], t[b]] 0 <= a < b < t.len() implies lt(
                t[a].0,
                t[b].0,
            ) by {
                assert(lt(s[a].0, s[b].0));
            }
        }
        lemma_map_len(t);
        lemma_map_keys(t);
        if entries_map(t).contains_key(s.last().0) {
            let i = choose|i: int| 0 <= i < t.len() && (#[trigger] t[i]).0 == s.last().0;
            assert(lt(s[i].0, s[s.len() - 1].0));
        }
    }
}

/// The map of a concatenation is the union of the two maps, in which the
/// second sequence counts where both hold a key.
pub proof fn lemma_map_concat<K, V>(a: Seq<(K, V)>, b: Seq<(K, V)>)
    ensures
        entries_map(a + b) == entries_map(a).union_prefer_right(entries_map(b)),
    decreases b.len(),
{
    if b.len() == 0 {
        assert(a + b =~= a);
        assert(entries_map(a) =~= entries_map(a).union_prefer_right(entries_map(b)));
    } else {
        assert((a + b).drop_last() =~= a + b.drop_last());
        lemma_map_concat(a, b.drop_last());
        assert(entries_map(a + b) =~= entries_map(a).union_prefer_right(entries_map(b)));
    }
}

/// What it means for the entries `a`, then `x`, then the entries `b` to have
/// increasing keys: both parts have, every key of `a` is below that of `x`
/// and every key of `b` above it. The map of the whole is then the two maps
/// and `x` together.
pub proof fn lemma_split<K: PartialOrd, V>(a: Seq<(K, V)>, x: (K, V), b: Seq<(K, V)>)
    requires
        strict_total_order::<K>(),
        increasing(a.push(x) + b),
    ensures
        increasing(a),
        increasing(b),
        forall|k: K| #[trigger] entries_map(a).contains_key(k) ==> lt(k, x.0),
        forall|k: K| #[trigger] entries_map(b).contains_key(k) ==> lt(x.0, k),
        forall|i: int| 0 <= i < a.len() ==> lt((#[trigger] a[i]).0, x.0),
        forall|i: int| 0 <= i < b.len() ==> lt(x.0, (#[trigger] b[i]).0),
        entries_map(a.push(x) + b) == entries_map(a).union_prefer_right(entries_map(b)).insert(
            x.0,
            x.1,
        ),
        !entries_map(a).contains_key(x.0),
        !entries_map(b).contains_key(x.0),
{
    let s = a.push(x) + b;
    let n = a.len() as int;
    assert(s[n] == x);
    assert forall|i: int, j: int| #![trigger a[i], a[j]] 0 <= i < j < a.len() implies lt(
        a[i].0,
        a[j].0,
    ) by {
        assert(s[i] == a[i] && s[j] == a[j]);
    }
    assert forall|i: int, j: int| #![trigger b[i], b[j]] 0 <= i < j < b.len() implies lt(
        b[i].0,
        b[j].0,
    ) by {
        assert(s[n + 1 + i] == b[i] && s[n + 1 + j] == b[j]);
    }
    assert forall|i: int| 0 <= i < a.len() implies lt((#[trigger] a[i]).0, x.0) by {
        assert(s[i] == a[i]);
        assert(lt(s[i].0, s[n].0));
    }
    assert forall|i: int| 0 <= i < b.len() implies lt(x.0, (#[trigger] b[i]).0) by {
        assert(s[n + 1 + i] == b[i]);
        assert(lt(s[n].0, s[n + 1 + i].0));
    }
    lemma_map_keys(a);
    lemma_map_keys(b);
    lemma_map_concat(a.push(x), b);
    assert(a.push(x).drop_last() =~= a);
    assert(entries_map(a.push(x)) == entries_map(a).insert(x.0, x.1));
    assert(entries_map(s) =~= entries_map(a).union_prefer_right(entries_map(b)).insert(x.0, x.1));
}

/// The two parts of a sequence with increasing keys have increasing keys.
pub proof fn lemma_parts_increasing<K: PartialOrd, V>(a: Seq<(K, V)>, x: (K, V), b: Seq<(K, V)>)
    requires
        increasing(a.push(x) + b),
    ensures
        increasing(a),
        increasing(b),
{
    let s = a.push(x) + b;
    let n = a.len() as int;
    assert forall|i: int, j: int| #![trigger a[i], a[j]] 0 <= i < j < a.len() implies lt(
        a[i].0,
        a[j].0,
    ) by {
        assert(s[i] == a[i] && s[j] == a[j]);
    }
    assert forall|i: int, j: int| #![trigger b[i], b[j]] 0 <= i < j < b.len() implies lt(
        b[i].0,
        b[j].0,
    ) by {
        assert(s[n + 1 + i] == b[i] && s[n + 1 + j] == b[j]);
    }
}

/// The converse of `lemma_split`: parts with increasing keys that lie on
/// their sides of `x` make a whole with increasing keys.
pub proof fn lemma_join<K: PartialOrd, V>(a: Seq<(K, V)>, x: (K, V), b: Seq<(K, V)>)
    requires
        strict_total_order::<K>(),
        increasing(a),
        increasing(b),
        forall|k: K| #[trigger] entries_map(a).contains_key(k) ==> lt(k, x.0),
        forall|k: K| #[trigger] entries_map(b).contains_key(k) ==> lt(x.0, k),
    ensures
        increasing(a.push(x) + b),
{
    let s = a.push(x) + b;
    let n = a.len() as int;
    lemma_map_keys(a);
    lemma_map_keys(b);
    assert forall|i: int, j: int| #![trigger s[i], s[j]] 0 <= i < j < s.len() implies lt(
        s[i].0,
        s[j].0,
    ) by {
        if i < n {
            assert(s[i] == a[i]);
            assert(has_key(a, a[i].0));
            assert(entries_map(a).contains_key(a[i].0));
            assert(lt(s[i].0, x.0));
        }
        if j > n {
            assert(s[j] == b[j - n - 1]);
            assert(has_key(b, b[j - n - 1].0));
            assert(entries_map(b).contains_key(b[j - n - 1].0));
            assert(lt(x.0, s[j].0));
        }
        if i < n && j < n {
            assert(s[j] == a[j]);
        }
        if i > n {
            assert(s[i] == b[i - n - 1]);
        }
    }
}

/// The rank of a key in a concatenation is the sum of its ranks in the parts.
pub proof fn lemma_rank_concat<K: PartialOrd, V>(a: Seq<(K, V)>, b: Seq<(K, V)>, key: K)
    ensures
        rank_of(a + b, key) == rank_of(a, key) + rank_of(b, key),
    decreases b.len(),
{
    if b.len() == 0 {
        assert(a + b =~= a);
    } else {
        assert((a + b).drop_last() =~= a + b.drop_last());
        lemma_rank_concat(a, b.drop_last(), key);
    }
}

/// A key above every key of `s` has all of `s` below it.
pub proof fn lemma_rank_all<K: PartialOrd, V>(s: Seq<(K, V)>, key: K)
    requires
        forall|i: int| 0 <= i < s.len() ==> lt((#[trigger] s[i]).0, key),
    ensures
        rank_of(s, key) == s.len(),
    decreases s.len(),
{
    if s.len() > 0 {
        let t = s.drop_last();
        assert forall|i: int| 0 <= i < t.len() implies lt((#[trigger] t[i]).0, key) by {
            assert(t[i] == s[i]);
        }
        lemma_rank_all(t, key);
        assert(lt(s[s.len() - 1].0, key));
    }
}

/// A key with no key of `s` below it has rank zero.
pub proof fn lemma_rank_none<K: PartialOrd, V>(s: Seq<(K, V)>, key: K)
    requires
        forall|i: int| 0 <= i < s.len() ==> !lt((#[trigger] s[i]).0, key),
    ensures
        rank_of(s, key) == 0,
    decreases s.len(),
{
    if s.len() > 0 {
        let t = s.drop_last();
        assert forall|i: int| 0 <= i < t.len() implies !lt((#[trigger] t[i]).0, key) by {
            assert(t[i] == s[i]);
        }
        lemma_rank_none(t, key);
        assert(!lt(s[s.len() - 1].0, key));
    }
}

/// The rank of a key in `a`, then `x`, then `b`.
pub proof fn lemma_rank_node<K: PartialOrd, V>(a: Seq<(K, V)>, x: (K, V), b: Seq<(K, V)>, key: K)
    ensures
        rank_of(a.push(x) + b, key) == rank_of(a, key) + rank_of(b, key) + if lt(x.0, key) {
            1nat
        } else {
            0nat
        },
{
    lemma_rank_concat(a.push(x), b, key);
    assert(a.push(x).drop_last() =~= a);
}

/// In a sequence with increasing keys, the rank of the key at position `i`
/// is `i`.
pub proof fn lemma_rank_of_entry<K: PartialOrd, V>(s: Seq<(K, V)>, i: int)
    requires
        strict_total_order::<K>(),
        increasing(s),
        0 <= i < s.len(),
    ensures
        rank_of(s, s[i].0) == i,
{
    let a = s.take(i);
    let b = s.skip(i + 1);
    let key = s[i].0;
    assert(s =~= a.push(s[i]) + b);
    lemma_rank_node(a, s[i], b, key);
    assert forall|j: int| 0 <= j < a.len() implies lt((#[trigger] a[j]).0, key) by {
        assert(a[j] == s[j]);
    }
    assert forall|j: int| 0 <= j < b.len() implies !lt((#[trigger] b[j]).0, key) by {
        assert(b[j] == s[i + 1 + j]);
        assert(lt(s[i].0, s[i + 1 + j].0));
    }
    lemma_rank_all(a, key);
    lemma_rank_none(b, key);
}

/// No more entries are below a key than there are entries.
pub proof fn lemma_rank_bound<K: PartialOrd, V>(s: Seq<(K, V)>, key: K)
    ensures
        rank_of(s, key) <= s.len(),
    decreases s.len(),
{
    if s.len() > 0 {
        lemma_rank_bound(s.drop_last(), key);
    }
}

/// A sequence with increasing keys without the entry at `i`: the keys still
/// increase, and the map has lost the key of that entry and nothing else.
pub proof fn lemma_remove_at<K: PartialOrd, V>(s: Seq<(K, V)>, i: int)
    requires
        strict_total_order::<K>(),
        increasing(s),
        0 <= i < s.len(),
    ensures
        increasing(s.remove(i)),
        entries_map(s.remove(i)) == entries_map(s).remove(s[i].0),
        entries_map(s).contains_key(s[i].0),
{
    let a = s.take(i);
    let b = s.skip(i + 1);
    let t = s.remove(i);
    assert(s =~= a.push(s[i]) + b);
    assert(t =~= a + b);
    lemma_split(a, s[i], b);
    lemma_map_concat(a, b);
    assert forall|p: int, q: int| #![trigger t[p], t[q]] 0 <= p < q < t.len() implies lt(
        t[p].0,
        t[q].0,
    ) by {
        let from = if p < i {
            p
        } else {
            p + 1
        };
        let to = if q < i {
            q
        } else {
            q + 1
        };
        assert(t[p] == s[from] && t[q] == s[to]);
    }
    assert(entries_map(t) =~= entries_map(s).remove(s[i].0));
}

/// What the removal of `key` from the entries before `x` does to the
/// whole, where `key` is below the key of `x`.
pub proof fn lemma_removed_left<K: PartialOrd, V>(
    a: Seq<(K, V)>,
    a2: Seq<(K, V)>,
    x: (K, V),
    b: Seq<(K, V)>,
    key: K,
)
    requires
        strict_total_order::<K>(),
        increasing(a.push(x) + b),
        increasing(a2),
        entries_map(a2) == entries_map(a).remove(key),
        lt(key, x.0),
    ensures
        increasing(a2.push(x) + b),
        entries_map(a2.push(x) + b) == entries_map(a.push(x) + b).remove(key),
        entries_map(a.push(x) + b).contains_key(key) == entries_map(a).contains_key(key),
{
    lemma_split(a, x, b);
    lemma_join(a2, x, b);
    lemma_split(a2, x, b);
    assert(!entries_map(b).contains_key(key)) by {
        if entries_map(b).contains_key(key) {
            assert(lt(x.0, key));
        }
    }
    assert(entries_map(a2.push(x) + b) =~= entries_map(a.push(x) + b).remove(key));
}

/// What the removal of `key` from the entries behind `x` does to the
/// whole, where `key` is above the key of `x`.
pub proof fn lemma_removed_right<K: PartialOrd, V>(
    a: Seq<(K, V)>,
    x: (K, V),
    b: Seq<(K, V)>,
    b2: Seq<(K, V)>,
    key: K,
)
    requires
        strict_total_order::<K>(),
        increasing(a.push(x) + b),
        increasing(b2),
        entries_map(b2) == entries_map(b).remove(key),
        lt(x.0, key),
    ensures
        increasing(a.push(x) + b2),
        entries_map(a.push(x) + b2) == entries_map(a.push(x) + b).remove(key),
        entries_map(a.push(x) + b).contains_key(key) == entries_map(b).contains_key(key),
{
    lemma_split(a, x, b);
    lemma_join(a, x, b2);
    lemma_split(a, x, b2);
    assert(!entries_map(a).contains_key(key)) by {
        if entries_map(a).contains_key(key) {
            assert(lt(key, x.0));
        }
    }
    assert(entries_map(a.push(x) + b2) =~= entries_map(a.push(x) + b).remove(key));
}

/// A key that is below the key of `x` and not among the entries before `x`,
/// or above it and not among those behind, is not among the whole.
pub proof fn lemma_absent<K: PartialOrd, V>(a: Seq<(K, V)>, x: (K, V), b: Seq<(K, V)>, key: K)
    requires
        strict_total_order::<K>(),
        increasing(a.push(x) + b),
        (lt(key, x.0) && a.len() == 0) || (lt(x.0, key) && b.len() == 0),
    ensures
        !entries_map(a.push(x) + b).contains_key(key),
        entries_map(a.push(x) + b).remove(key) == entries_map(a.push(x) + b),
{
    lemma_split(a, x, b);
    lemma_map_keys(a);
    lemma_map_keys(b);
    if entries_map(a).contains_key(key) {
        assert(has_key(a, key));
        assert(lt(key, x.0));
    }
    if entries_map(b).contains_key(key) {
        assert(has_key(b, key));
        assert(lt(x.0, key));
    }
    assert(entries_map(a.push(x) + b).remove(key) =~= entries_map(a.push(x) + b));
}

/// The key of `x` is above the keys before it and below those behind it.
pub proof fn lemma_root_bounds<K: PartialOrd, V>(a: Seq<(K, V)>, x: (K, V), b: Seq<(K, V)>, k: K)
    requires
        strict_total_order::<K>(),
        increasing(a.push(x) + b),
        has_key(a, k) || has_key(b, k),
    ensures
        has_key(a, k) ==> lt(k, x.0),
        has_key(b, k) ==> lt(x.0, k),
{
    lemma_split(a, x, b);
    lemma_map_keys(a);
    lemma_map_keys(b);
    if has_key(a, k) {
        assert(entries_map(a).contains_key(k));
    }
    if has_key(b, k) {
        assert(entries_map(b).contains_key(k));
    }
}

/// Two sequences with increasing keys that make the same map are the same
/// sequence: the entries of an ordered map in key order are determined by
/// the map.
pub proof fn lemma_same_map_same_entries<K: PartialOrd, V>(a: Seq<(K, V)>, b: Seq<(K, V)>)
    requires
        strict_total_order::<K>(),
        increasing(a),
        increasing(b),
        entries_map(a) == entries_map(b),
    ensures
        a == b,
    decreases a.len(),
{
    lemma_map_len(a);
    lemma_map_len(b);
    if a.len() > 0 {
        let n = a.len() - 1;
        lemma_map_keys(a);
        lemma_map_keys(b);
        lemma_map_entry(a, n);
        lemma_map_entry(b, n);
        // the last key of each sequence is a key of the other, and not below it
        assert(has_key(b, a[n].0));
        let i = choose|i: int| 0 <= i < b.len() && (#[trigger] b[i]).0 == a[n].0;
        assert(has_key(a, b[n].0));
        let j = choose|j: int| 0 <= j < a.len() && (#[trigger] a[j]).0 == b[n].0;
        if i < n {
            assert(lt(b[i].0, b[n].0));
            if j < n {
                assert(lt(a[j].0, a[n].0));
            }
        }
        assert(a[n].0 == b[n].0);
        assert(a[n] == b[n]);
        lemma_remove_at(a, n);
        lemma_remove_at(b, n);
        assert(a.remove(n) =~= a.drop_last());
        assert(b.remove(n) =~= b.drop_last());
        lemma_same_map_same_entries(a.drop_last(), b.drop_last());
        assert(a =~= a.drop_last().push(a[n]));
        assert(b =~= b.drop_last().push(b[n]));
    } else {
        assert(a =~= b);
    }
}

/// The map after the entries of `puts` have been inserted into `m` one
/// after the other.
pub open spec fn insert_all<K, V>(m: Map<K, V>, puts: Seq<(K, V)>) -> Map<K, V>
    decreases puts.len(),
{
    if puts.len() == 0 {
        m
    } else {
        insert_all(m, puts.drop_last()).insert(puts.last().0, puts.last().1)
    }
}

/// The map after the keys of `keys` have been removed from `m` one after
/// the other.
pub open spec fn remove_all<K, V>(m: Map<K, V>, keys: Seq<K>) -> Map<K, V>
    decreases keys.len(),
{
    if keys.len() == 0 {
        m
    } else {
        remove_all(m, keys.drop_last()).remove(keys.last())
    }
}

/// The keys of `insert_all(m, puts)` are those of `m` and those of `puts`.
pub proof fn lemma_insert_all_keys<K, V>(m: Map<K, V>, puts: Seq<(K, V)>)
    requires
        m.dom().finite(),
    ensures
        insert_all(m, puts).dom().finite(),
        forall|k: K| #[trigger]
            insert_all(m, puts).contains_key(k) <==> m.contains_key(k) || has_key(puts, k),
    decreases puts.len(),
{
    if puts.len() > 0 {
        let t = puts.drop_last();
        lemma_insert_all_keys(m, t);
        assert forall|k: K| #[trigger]
            insert_all(m, puts).contains_key(k) <==> m.contains_key(k) || has_key(puts, k) by {
            if has_key(puts, k) {
                let i = choose|i: int| 0 <= i < puts.len() && (#[trigger] puts[i]).0 == k;
                if i < puts.len() - 1 {
                    assert(t[i].0 == k);
                    assert(has_key(t, k));
                }
            }
            if insert_all(m, puts).contains_key(k) && !m.contains_key(k) {
                if k == puts.last().0 {
                    assert(puts[puts.len() - 1].0 == k);
                } else {
                    assert(has_key(t, k));
                    let i = choose|i: int| 0 <= i < t.len() && (#[trigger] t[i]).0 == k;
                    assert(puts[i].0 == k);
                }
            }
        }
    }
}

/// The keys of `remove_all(m, keys)` are those of `m` that are not in `keys`.
pub proof fn lemma_remove_all_keys<K, V>(m: Map<K, V>, keys: Seq<K>)
    requires
        m.dom().finite(),
    ensures
        remove_all(m, keys).dom().finite(),
        forall|k: K| #[trigger]
            remove_all(m, keys).contains_key(k) <==> m.contains_key(k) && !keys.contains(k),
    decreases keys.len(),
{
    if keys.len() > 0 {
        let t = keys.drop_last();
        lemma_remove_all_keys(m, t);
        assert forall|k: K| #[trigger]
            remove_all(m, keys).contains_key(k) <==> m.contains_key(k) && !keys.contains(k) by {
            if keys.contains(k) && k != keys.last() {
                let i = choose|i: int| 0 <= i < keys.len() && keys[i] == k;
                assert(t[i] == k);
            }
            if t.contains(k) {
                let i = choose|i: int| 0 <= i < t.len() && t[i] == k;
                assert(keys[i] == k);
            }
            assert(keys[keys.len() - 1] == keys.last());
        }
    }
}

/// The keys of `puts` differ from one another.
pub open spec fn distinct_keys<K, V>(puts: Seq<(K, V)>) -> bool {
    forall|i: int, j: int|
        #![trigger puts[i], puts[j]]
        0 <= i < j < puts.len() ==> puts[i].0 != puts[j].0
}

/// Entries with distinct keys, inserted into the empty map, make a map of as
/// many keys.
pub proof fn lemma_insert_all_len<K, V>(puts: Seq<(K, V)>)
    requires
        distinct_keys(puts),
    ensures
        insert_all(Map::<K, V>::empty(), puts).dom().finite(),
        insert_all(Map::<K, V>::empty(), puts).len() == puts.len(),
    decreases puts.len(),
{
    let e = Map::<K, V>::empty();
    lemma_insert_all_keys(e, puts);
    if puts.len() > 0 {
        let t = puts.drop_last();
        assert(distinct_keys(t)) by {
            assert forall|i: int, j: int| #![trigger t[i], t[j]] 0 <= i < j < t.len() implies t[i].0
                != t[j].0 by {
                assert(puts[i].0 != puts[j].0);
            }
        }
        lemma_insert_all_len(t);
        lemma_insert_all_keys(e, t);
        if insert_all(e, t).contains_key(puts.last().0) {
            let i = choose|i: int| 0 <= i < t.len() && (#[trigger] t[i]).0 == puts.last().0;
            assert(puts[i].0 != puts[puts.len() - 1].0);
        }
    }
}

/// Distinct keys of a finite map, removed from it, leave that many keys
/// fewer.
pub proof fn lemma_remove_all_len<K, V>(m: Map<K, V>, keys: Seq<K>)
    requires
        m.dom().finite(),
        keys.no_duplicates(),
        forall|i: int| 0 <= i < keys.len() ==> m.contains_key(#[trigger] keys[i]),
    ensures
        remove_all(m, keys).dom().finite(),
        remove_all(m, keys).len() == m.len() - keys.len(),
    decreases keys.len(),
{
    lemma_remove_all_keys(m, keys);
    if keys.len() > 0 {
        let t = keys.drop_last();
        assert(t.no_duplicates()) by {
            assert forall|i: int, j: int| 0 <= i < t.len() && 0 <= j < t.len() && i != j implies t[i]
                != t[j] by {
                assert(keys[i] != keys[j]);
            }
        }
        assert forall|i: int| 0 <= i < t.len() implies m.contains_key(#[trigger] t[i]) by {
            assert(t[i] == keys[i]);
        }
        lemma_remove_all_len(m, t);
        lemma_remove_all_keys(m, t);
        if t.contains(keys.last()) {
            let i = choose|i: int| 0 <= i < t.len() && t[i] == keys.last();
            assert(keys[i] != keys[keys.len() - 1]);
        }
        assert(m.contains_key(keys[keys.len() - 1]));
        assert(remove_all(m, t).contains_key(keys.last()));
    }
}

} // verus!
