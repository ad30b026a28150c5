//! Sort keys. Everything the resolver orders (files by size and identity,
//! runs by sample hash, runs by content hash) is ordered through one key
//! shape whose last component makes every key of a sequence distinct, so
//! that the sorted order is unique.

use vstd::prelude::*;

verus! {

/// Two ordering components, then the position or index being ordered.
pub type Key = (u128, u128, usize);

/// The lexicographic order on keys, as `<=`.
pub open spec fn key_le(a: Key, b: Key) -> bool {
    a.0 < b.0 || (a.0 == b.0 && (a.1 < b.1 || (a.1 == b.1 && a.2 <= b.2)))
}

/// The lexicographic order on keys, as `<`.
pub open spec fn key_lt(a: Key, b: Key) -> bool {
    a.0 < b.0 || (a.0 == b.0 && (a.1 < b.1 || (a.1 == b.1 && a.2 < b.2)))
}

/// No key is greater than a later one.
pub open spec fn sorted(keys: Seq<Key>) -> bool {
    forall|i: int, j: int| 0 <= i <= j < keys.len() ==> key_le(keys[i], keys[j])
}

/// Every key is less than every later one.
pub open spec fn ascending(keys: Seq<Key>) -> bool {
    forall|i: int, j: int| 0 <= i < j < keys.len() ==> key_lt(keys[i], keys[j])
}

/// No two keys of the sequence share their last component.
pub open spec fn distinct_tags(keys: Seq<Key>) -> bool {
    forall|i: int, j: int| 0 <= i < j < keys.len() ==> keys[i].2 != keys[j].2
}

/// How often `key` occurs among the first `upto` keys.
spec fn count_in(keys: Seq<Key>, upto: int, key: Key) -> nat {
    keys.subrange(0, upto).to_multiset().count(key)
}

/// Taking one more key into account counts that key once more.
proof fn lemma_count_next(keys: Seq<Key>, upto: int)
    requires
        0 <= upto < keys.len(),
    ensures
        forall|key: Key| #[trigger]
            count_in(keys, upto + 1, key) == count_in(keys, upto, key) + if key == keys[upto] {
                1nat
            } else {
                0nat
            },
{
    broadcast use vstd::multiset::group_multiset_axioms, vstd::seq_lib::to_multiset_build;

    assert(keys.subrange(0, upto + 1) =~= keys.subrange(0, upto).push(keys[upto]));
}

/// One step of a merge. `out` holds the first `i` keys of `taken` and the
/// first `j` keys of `other`, sorted, and none of them is greater than the
/// next key of either. If the next key of `taken` is not greater than the
/// next of `other`, then all that holds again once that key is appended.
proof fn lemma_merge_step(out: Seq<Key>, taken: Seq<Key>, i: int, other: Seq<Key>, j: int)
    requires
        sorted(taken),
        sorted(other),
        sorted(out),
        0 <= i < taken.len(),
        0 <= j <= other.len(),
        forall|k: int| 0 <= k < out.len() ==> key_le(#[trigger] out[k], taken[i]),
        forall|k: int| 0 <= k < out.len() && j < other.len() ==> key_le(#[trigger] out[k], other[j]),
        j < other.len() ==> key_le(taken[i], other[j]),
        forall|key: Key| #[trigger]
            out.to_multiset().count(key) == count_in(taken, i, key) + count_in(other, j, key),
    ensures
        sorted(out.push(taken[i])),
        forall|k: int|
            0 <= k <= out.len() && i + 1 < taken.len() ==> key_le(
                #[trigger] out.push(taken[i])[k],
                taken[i + 1],
            ),
        forall|k: int|
            0 <= k <= out.len() && j < other.len() ==> key_le(
                #[trigger] out.push(taken[i])[k],
                other[j],
            ),
        forall|key: Key| #[trigger]
            out.push(taken[i]).to_multiset().count(key) == count_in(taken, i + 1, key) + count_in(
                other,
                j,
                key,
            ),
{
    broadcast use vstd::multiset::group_multiset_axioms;

    let next = out.push(taken[i]);
    lemma_count_next(taken, i);
    vstd::seq_lib::to_multiset_build(out, taken[i]);
    assert forall|x: int, y: int| 0 <= x <= y < next.len() implies key_le(next[x], next[y]) by {
        if y < out.len() {
            assert(key_le(out[x], out[y]));
        } else if x < out.len() {
            assert(key_le(out[x], taken[i]));
        }
    }
    assert forall|k: int| 0 <= k <= out.len() && i + 1 < taken.len() implies key_le(
        #[trigger] next[k],
        taken[i + 1],
    ) by {
        assert(key_le(taken[i], taken[i + 1]));
        if k < out.len() {
            assert(key_le(out[k], taken[i]));
        }
    }
    assert forall|k: int| 0 <= k <= out.len() && j < other.len() implies key_le(
        #[trigger] next[k],
        other[j],
    ) by {
        if k < out.len() {
            assert(key_le(out[k], other[j]));
        }
    }
    assert forall|key: Key| #[trigger]
        next.to_multiset().count(key) == count_in(taken, i + 1, key) + count_in(other, j, key) by {
        assert(out.to_multiset().count(key) == count_in(taken, i, key) + count_in(other, j, key));
    }
}

/// Merges two sorted vectors into one.
fn merge_sorted(left: &Vec<Key>, right: &Vec<Key>) -> (out: Vec<Key>)
    requires
        sorted(left@),
        sorted(right@),
    ensures
        sorted(out@),
        out@.to_multiset() == left@.to_multiset().add(right@.to_multiset()),
{
    broadcast use vstd::multiset::group_multiset_axioms;

    let mut out: Vec<Key> = Vec::new();
    let mut i: usize = 0;
    let mut j: usize = 0;
    proof {
        let none = Seq::<Key>::empty();
        none.to_multiset_ensures();
        vstd::multiset::lemma_multiset_empty_len(none.to_multiset());
        assert(left@.subrange(0, 0) =~= none);
        assert(right@.subrange(0, 0) =~= none);
    }
    while i < left.len() || j < right.len()
        invariant
            i <= left@.len(),
            j <= right@.len(),
            sorted(left@),
            sorted(right@),
            sorted(out@),
            forall|k: int|
                0 <= k < out@.len() && i < left@.len() ==> key_le(#[trigger] out@[k], left@[i as int]),
            forall|k: int|
                0 <= k < out@.len() && j < right@.len() ==> key_le(
                    #[trigger] out@[k],
                    right@[j as int],
                ),
            forall|key: Key| #[trigger]
                out@.to_multiset().count(key) == count_in(left@, i as int, key) + count_in(
                    right@,
                    j as int,
                    key,
                ),
        decreases left@.len() - i + right@.len() - j,
    {
        let ghost before = out@;
        let take_left = if i < left.len() && j < right.len() {
            let a = left[i];
            let b = right[j];
            a.0 < b.0 || (a.0 == b.0 && (a.1 < b.1 || (a.1 == b.1 && a.2 <= b.2)))
        } else {
            i < left.len()
        };
        if take_left {
            proof {
                lemma_merge_step(before, left@, i as int, right@, j as int);
            }
            out.push(left[i]);
            i += 1;
        } else {
            proof {
                lemma_merge_step(before, right@, j as int, left@, i as int);
            }
            out.push(right[j]);
            j += 1;
        }
    }
    proof {
        assert(left@.subrange(0, i as int) =~= left@);
        assert(right@.subrange(0, j as int) =~= right@);
        assert(out@.to_multiset() =~= left@.to_multiset().add(right@.to_multiset()));
    }
    out
}

/// Sorts the keys from `from` up to `upto` into a new vector.
fn sort_range(keys: &Vec<Key>, from: usize, upto: usize) -> (out: Vec<Key>)
    requires
        from <= upto <= keys@.len(),
    ensures
        sorted(out@),
        out@.to_multiset() == keys@.subrange(from as int, upto as int).to_multiset(),
    decreases upto - from,
{
    broadcast use vstd::multiset::group_multiset_axioms, vstd::seq_lib::to_multiset_build;

    if upto - from <= 1 {
        let mut out: Vec<Key> = Vec::new();
        if upto - from == 1 {
            out.push(keys[from]);
            assert(keys@.subrange(from as int, upto as int) =~= Seq::<Key>::empty().push(
                keys@[from as int],
            ));
        } else {
            assert(keys@.subrange(from as int, upto as int) =~= Seq::<Key>::empty());
        }
        out
    } else {
        let middle = from + (upto - from) / 2;
        let left = sort_range(keys, from, middle);
        let right = sort_range(keys, middle, upto);
        proof {
            let a = keys@.subrange(from as int, middle as int);
            let b = keys@.subrange(middle as int, upto as int);
            assert(keys@.subrange(from as int, upto as int) =~= a + b);
            vstd::seq_lib::lemma_multiset_commutative(a, b);
        }
        merge_sorted(&left, &right)
    }
}

/// Sorts the keys: afterwards they stand in ascending order, the same keys
/// as before, each as often as before.
fn merge_sort(keys: &mut Vec<Key>)
    ensures
        sorted(final(keys)@),
        final(keys)@.to_multiset() == old(keys)@.to_multiset(),
{
    let total = keys.len();
    let out = sort_range(keys, 0, total);
    assert(keys@.subrange(0, total as int) =~= keys@);
    *keys = out;
}

/// A rearrangement of keys with distinct tags keeps the tags distinct.
proof fn lemma_rearranged(before: Seq<Key>, after: Seq<Key>)
    requires
        distinct_tags(before),
        after.to_multiset() == before.to_multiset(),
    ensures
        distinct_tags(after),
        after.len() == before.len(),
        forall|k: Key| after.contains(k) <==> before.contains(k),
{
    before.to_multiset_ensures();
    after.to_multiset_ensures();
    assert(before.no_duplicates());
    before.lemma_multiset_has_no_duplicates();
    after.lemma_multiset_has_no_duplicates_conv();
    assert forall|k: Key| after.contains(k) <==> before.contains(k) by {
        assert(after.contains(k) <==> after.to_multiset().count(k) > 0);
        assert(before.contains(k) <==> before.to_multiset().count(k) > 0);
    }
    assert forall|i: int, j: int| 0 <= i < j < after.len() implies after[i].2 != after[j].2 by {
        assert(after.contains(after[i]));
        assert(after.contains(after[j]));
        let a = choose|a: int| 0 <= a < before.len() && before[a] == after[i];
        let b = choose|b: int| 0 <= b < before.len() && before[b] == after[j];
        if a == b {
            assert(after[i] == after[j]);
        }
    }
}

/// Sorts keys whose tags are distinct. The result is the one ascending
/// arrangement of the same keys.
pub fn sort_keys(keys: &mut Vec<Key>)
    requires
        distinct_tags(old(keys)@),
    ensures
        ascending(final(keys)@),
        distinct_tags(final(keys)@),
        final(keys)@.len() == old(keys)@.len(),
        forall|k: Key| final(keys)@.contains(k) <==> old(keys)@.contains(k),
{
    let ghost before = keys@;
    merge_sort(keys);
    proof {
        lemma_rearranged(before, keys@);
        assert forall|i: int, j: int| 0 <= i < j < keys@.len() implies key_lt(
            keys@[i],
            keys@[j],
        ) by {
            assert(key_le(keys@[i], keys@[j]));
        }
    }
}

/// Two ascending sequences with the same keys are the same sequence.
pub proof fn lemma_ascending_unique(a: Seq<Key>, b: Seq<Key>)
    requires
        ascending(a),
        ascending(b),
        forall|k: Key| a.contains(k) <==> b.contains(k),
    ensures
        a == b,
    decreases a.len(),
{
    if a.len() == 0 {
        if b.len() > 0 {
            assert(b.contains(b[0]));
        }
        assert(a =~= b);
    } else {
        assert(a.contains(a[0]));
        assert(b.len() > 0);
        assert(b.contains(b[0]));
        let p = choose|p: int| 0 <= p < b.len() && b[p] == a[0];
        let q = choose|q: int| 0 <= q < a.len() && a[q] == b[0];
        assert(a[0] == b[0]) by {
            if p > 0 {
                assert(key_lt(b[0], b[p]));
            }
            if q > 0 {
                assert(key_lt(a[0], a[q]));
            }
        }
        let ta = a.drop_first();
        let tb = b.drop_first();
        assert forall|k: Key| ta.contains(k) <==> tb.contains(k) by {
            if ta.contains(k) {
                let i = choose|i: int| 0 <= i < ta.len() && ta[i] == k;
                assert(a[i + 1] == k);
                assert(key_lt(a[0], a[i + 1]));
                assert(a.contains(k));
                let j = choose|j: int| 0 <= j < b.len() && b[j] == k;
                assert(j != 0);
                assert(tb[j - 1] == k);
            }
            if tb.contains(k) {
                let i = choose|i: int| 0 <= i < tb.len() && tb[i] == k;
                assert(b[i + 1] == k);
                assert(key_lt(b[0], b[i + 1]));
                assert(b.contains(k));
                let j = choose|j: int| 0 <= j < a.len() && a[j] == k;
                assert(j != 0);
                assert(ta[j - 1] == k);
            }
        }
        assert(ascending(ta)) by {
            assert forall|i: int, j: int| 0 <= i < j < ta.len() implies key_lt(ta[i], ta[j]) by {
                assert(key_lt(a[i + 1], a[j + 1]));
            }
        }
        assert(ascending(tb)) by {
            assert forall|i: int, j: int| 0 <= i < j < tb.len() implies key_lt(tb[i], tb[j]) by {
                assert(key_lt(b[i + 1], b[j + 1]));
            }
        }
        lemma_ascending_unique(ta, tb);
        assert(a =~= seq![a[0]] + ta);
        assert(b =~= seq![b[0]] + tb);
    }
}

/// `order` arranges the entries of `wanted` that are present: it holds one
/// key for each of them, made of the entry's two components and its
/// position, and it is ascending.
pub open spec fn arrangement(wanted: Seq<Option<(u128, u128)>>, order: Seq<Key>) -> bool {
    &&& ascending(order)
    &&& forall|k: Key| #[trigger]
        order.contains(k) <==> (k.2 < wanted.len() && wanted[k.2 as int] == Some((k.0, k.1)))
}

/// The arrangement of `wanted`; there is exactly one.
pub open spec fn arranged(wanted: Seq<Option<(u128, u128)>>) -> Seq<Key> {
    choose|order: Seq<Key>| arrangement(wanted, order)
}

/// Any arrangement of `wanted` is the arrangement of `wanted`.
pub proof fn lemma_arranged(wanted: Seq<Option<(u128, u128)>>, order: Seq<Key>)
    requires
        arrangement(wanted, order),
    ensures
        order == arranged(wanted),
{
    let chosen = arranged(wanted);
    assert(arrangement(wanted, chosen));
    assert forall|k: Key| order.contains(k) <==> chosen.contains(k) by {}
    lemma_ascending_unique(order, chosen);
}

/// Orders the positions of `wanted` whose entry is present by that entry,
/// and positions with equal entries by position.
pub fn arrange(wanted: &Vec<Option<(u128, u128)>>) -> (order: Vec<Key>)
    ensures
        arrangement(wanted@, order@),
        order@ == arranged(wanted@),
        order@.len() <= wanted@.len(),
        distinct_tags(order@),
        forall|j: int| 0 <= j < order@.len() ==> (#[trigger] order@[j]).2 < wanted@.len(),
{
    let mut order: Vec<Key> = Vec::new();
    let mut p: usize = 0;
    while p < wanted.len()
        invariant
            p <= wanted@.len(),
            order@.len() <= p,
            distinct_tags(order@),
            forall|j: int| 0 <= j < order@.len() ==> (#[trigger] order@[j]).2 < p,
            forall|j: int|
                0 <= j < order@.len() ==> wanted@[(#[trigger] order@[j]).2 as int] == Some(
                    (order@[j].0, order@[j].1),
                ),
            forall|q: int|
                0 <= q < p && (#[trigger] wanted@[q]) is Some ==> exists|j: int|
                    0 <= j < order@.len() && order@[j].2 == q,
        decreases wanted@.len() - p,
    {
        let ghost before = order@;
        match wanted[p] {
            Some(pair) => {
                order.push((pair.0, pair.1, p));
                proof {
                    assert forall|q: int|
                        0 <= q < p + 1 && (#[trigger] wanted@[q]) is Some implies exists|j: int|
                        0 <= j < order@.len() && order@[j].2 == q by {
                        if q < p {
                            let j = choose|j: int| 0 <= j < before.len() && before[j].2 == q;
                            assert(order@[j].2 == q);
                        } else {
                            assert(order@[before.len() as int].2 == q);
                        }
                    }
                }
            },
            None => {},
        }
        p += 1;
    }
    let ghost unsorted = order@;
    sort_keys(&mut order);
    proof {
        assert forall|k: Key| #[trigger]
            order@.contains(k) <==> (k.2 < wanted@.len() && wanted@[k.2 as int] == Some(
                (k.0, k.1),
            )) by {
            if order@.contains(k) {
                assert(unsorted.contains(k));
                let j = choose|j: int| 0 <= j < unsorted.len() && unsorted[j] == k;
                assert(unsorted[j].2 < p);
            }
            if k.2 < wanted@.len() && wanted@[k.2 as int] == Some((k.0, k.1)) {
                let q = k.2 as int;
                assert(wanted@[q] is Some);
                let j = choose|j: int| 0 <= j < unsorted.len() && unsorted[j].2 == q;
                assert(unsorted[j] == k);
                assert(unsorted.contains(k));
            }
        }
        lemma_arranged(wanted@, order@);
        assert forall|j: int| 0 <= j < order@.len() implies (#[trigger] order@[j]).2
            < wanted@.len() by {
            assert(order@.contains(order@[j]));
        }
    }
    order
}

/// Every sequence of wanted entries has an arrangement, and `arranged`
/// names it.
pub proof fn lemma_arrangement_exists(wanted: Seq<Option<(u128, u128)>>)
    requires
        wanted.len() <= usize::MAX,
    ensures
        arrangement(wanted, arranged(wanted)),
    decreases wanted.len(),
{
    if wanted.len() == 0 {
        assert(arrangement(wanted, Seq::<Key>::empty()));
    } else {
        let shorter = wanted.drop_last();
        lemma_arrangement_exists(shorter);
        let base = arranged(shorter);
        let last = (wanted.len() - 1) as int;
        match wanted[last] {
            None => {
                assert forall|k: Key| #[trigger]
                    base.contains(k) <==> (k.2 < wanted.len() && wanted[k.2 as int] == Some(
                        (k.0, k.1),
                    )) by {
                    if k.2 < shorter.len() {
                        assert(shorter[k.2 as int] == wanted[k.2 as int]);
                    }
                }
                assert(arrangement(wanted, base));
            },
            Some(pair) => {
                let key: Key = (pair.0, pair.1, last as usize);
                lemma_insert_arranged(wanted, base, key);
            },
        }
    }
}

/// A key can be put into an ascending sequence that lacks it.
proof fn lemma_insert_arranged(wanted: Seq<Option<(u128, u128)>>, base: Seq<Key>, key: Key)
    requires
        1 <= wanted.len() <= usize::MAX,
        arrangement(wanted.drop_last(), base),
        key.2 == wanted.len() - 1,
        wanted.last() == Some((key.0, key.1)),
    ensures
        arrangement(wanted, arranged(wanted)),
{
    let shorter = wanted.drop_last();
    // The place of the key: after all smaller keys.
    let place = below(base, key, base.len() as int);
    assert forall|i: int| 0 <= i < base.len() implies (#[trigger] base[i]).2 != key.2 by {
        assert(base.contains(base[i]));
    }
    lemma_below(base, key, base.len() as int);
    let longer = base.insert(place, key);
    assert forall|i: int, j: int| 0 <= i < j < longer.len() implies key_lt(
        longer[i],
        longer[j],
    ) by {
        if j < place {
            assert(longer[i] == base[i] && longer[j] == base[j]);
        } else if j == place {
            assert(longer[i] == base[i]);
        } else if i < place {
            assert(longer[i] == base[i] && longer[j] == base[j - 1]);
        } else if i == place {
            assert(longer[j] == base[j - 1]);
            assert(base.contains(base[j - 1]));
            assert(base[j - 1].2 < shorter.len());
        } else {
            assert(longer[i] == base[i - 1] && longer[j] == base[j - 1]);
        }
    }
    assert forall|k: Key| #[trigger]
        longer.contains(k) <==> (k.2 < wanted.len() && wanted[k.2 as int] == Some((k.0, k.1))) by {
        if longer.contains(k) {
            let i = choose|i: int| 0 <= i < longer.len() && longer[i] == k;
            if i < place {
                assert(base[i] == k);
                assert(base.contains(k));
                assert(shorter[k.2 as int] == wanted[k.2 as int]);
            } else if i > place {
                assert(base[i - 1] == k);
                assert(base.contains(k));
                assert(shorter[k.2 as int] == wanted[k.2 as int]);
            }
        }
        if k.2 < wanted.len() && wanted[k.2 as int] == Some((k.0, k.1)) {
            if k.2 == wanted.len() - 1 {
                assert(longer[place] == k);
            } else {
                assert(shorter[k.2 as int] == wanted[k.2 as int]);
                assert(base.contains(k));
                let i = choose|i: int| 0 <= i < base.len() && base[i] == k;
                if i < place {
                    assert(longer[i] == k);
                } else {
                    assert(longer[i + 1] == k);
                }
            }
        }
    }
    assert(arrangement(wanted, longer));
}

/// The number of keys among the first `upto` of `base` that are less than
/// `key`.
spec fn below(base: Seq<Key>, key: Key, upto: int) -> int
    decreases upto,
{
    if upto <= 0 {
        0
    } else if key_lt(base[upto - 1], key) {
        upto
    } else {
        below(base, key, upto - 1)
    }
}

proof fn lemma_below(base: Seq<Key>, key: Key, upto: int)
    requires
        0 <= upto <= base.len(),
        forall|i: int, j: int| 0 <= i < j < base.len() ==> key_lt(base[i], base[j]),
        forall|i: int| 0 <= i < base.len() ==> (#[trigger] base[i]).2 != key.2,
    ensures
        0 <= below(base, key, upto) <= upto,
        forall|i: int| 0 <= i < below(base, key, upto) ==> key_lt(#[trigger] base[i], key),
        forall|i: int| below(base, key, upto) <= i < upto ==> key_lt(key, #[trigger] base[i]),
    decreases upto,
{
    if upto > 0 {
        if key_lt(base[upto - 1], key) {
            assert forall|i: int| 0 <= i < upto implies key_lt(#[trigger] base[i], key) by {
                if i < upto - 1 {
                    assert(key_lt(base[i], base[upto - 1]));
                }
            }
        } else {
            lemma_below(base, key, upto - 1);
        }
    }
}

} // verus!
