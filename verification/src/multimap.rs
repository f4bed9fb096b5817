//! The mathematical model of the query parameters: a sequence of entries, each
//! a key with its values, in which no key stands twice.

use vstd::prelude::*;

verus! {

/// A key and a value.
pub type Pair = (Seq<char>, Seq<char>);

/// A key and its values, oldest first.
pub type Entry = (Seq<char>, Seq<Seq<char>>);

/// The entries, in the order in which their keys were first seen.
pub type Entries = Seq<Entry>;

pub open spec fn no_entries() -> Entries {
    Seq::<Entry>::empty()
}

/// No key stands in two entries.
pub open spec fn distinct_keys(e: Entries) -> bool {
    forall|i: int, j: int| 0 <= i < j < e.len() ==> (#[trigger] e[i]).0 != (#[trigger] e[j]).0
}

pub open spec fn has_key(e: Entries, key: Seq<char>) -> bool {
    exists|i: int| 0 <= i < e.len() && (#[trigger] e[i]).0 == key
}

/// The position of the entry of `key`, where it has one.
pub open spec fn key_index(e: Entries, key: Seq<char>) -> int {
    choose|i: int| 0 <= i < e.len() && (#[trigger] e[i]).0 == key
}

/// The values of `key`; none where it has no entry.
pub open spec fn values_of(e: Entries, key: Seq<char>) -> Seq<Seq<char>> {
    if has_key(e, key) {
        e[key_index(e, key)].1
    } else {
        Seq::<Seq<char>>::empty()
    }
}

pub open spec fn keys_of(e: Entries) -> Seq<Seq<char>> {
    Seq::new(e.len(), |i: int| e[i].0)
}

/// Gives `key` the values `values`: in place where it has an entry, in a new
/// last entry where it has none.
pub open spec fn insert_spec(e: Entries, key: Seq<char>, values: Seq<Seq<char>>) -> Entries {
    if has_key(e, key) {
        e.update(key_index(e, key), (key, values))
    } else {
        e.push((key, values))
    }
}

/// Adds `value` after the values of `key`, in a new last entry where it has none.
pub open spec fn append_spec(e: Entries, key: Seq<char>, value: Seq<char>) -> Entries {
    if has_key(e, key) {
        e.update(key_index(e, key), (key, e[key_index(e, key)].1.push(value)))
    } else {
        e.push((key, seq![value]))
    }
}

/// Takes out the entry of `key`; the others keep their order.
pub open spec fn remove_spec(e: Entries, key: Seq<char>) -> Entries {
    if has_key(e, key) {
        e.remove(key_index(e, key))
    } else {
        e
    }
}

/// Inserts the entries of `other` one by one, in their order.
pub open spec fn extend_spec(e: Entries, other: Entries) -> Entries
    decreases other.len(),
{
    if other.len() == 0 {
        e
    } else {
        insert_spec(extend_spec(e, other.drop_last()), other.last().0, other.last().1)
    }
}

/// The entries that arise when the pairs are added one by one.
pub open spec fn build_spec(pairs: Seq<Pair>) -> Entries
    decreases pairs.len(),
{
    if pairs.len() == 0 {
        no_entries()
    } else {
        append_spec(build_spec(pairs.drop_last()), pairs.last().0, pairs.last().1)
    }
}

/// The pairs of one entry: its key with each of its values.
pub open spec fn pairs_of(entry: Entry) -> Seq<Pair> {
    Seq::new(entry.1.len(), |j: int| (entry.0, entry.1[j]))
}

/// Every pair of every entry, entry by entry.
pub open spec fn multi_items_spec(e: Entries) -> Seq<Pair>
    decreases e.len(),
{
    if e.len() == 0 {
        Seq::<Pair>::empty()
    } else {
        multi_items_spec(e.drop_last()) + pairs_of(e.last())
    }
}

/// Each key that has a value, with its first value.
pub open spec fn items_spec(e: Entries) -> Seq<Pair>
    decreases e.len(),
{
    if e.len() == 0 {
        Seq::<Pair>::empty()
    } else if e.last().1.len() == 0 {
        items_spec(e.drop_last())
    } else {
        items_spec(e.drop_last()).push((e.last().0, e.last().1[0]))
    }
}

/// The first value of each key that has one.
pub open spec fn first_values_spec(e: Entries) -> Seq<Seq<char>> {
    Seq::new(items_spec(e).len(), |i: int| items_spec(e)[i].1)
}

/// Every key has at least one value.
pub open spec fn all_have_values(e: Entries) -> bool {
    forall|i: int| 0 <= i < e.len() ==> (#[trigger] e[i]).1.len() > 0
}

/// What holds of all query parameters: no key stands twice, and every key has
/// at least one value.
pub open spec fn well_formed(e: Entries) -> bool {
    distinct_keys(e) && all_have_values(e)
}

/// Where the keys are distinct, the entry of a key is the one that holds it.
pub proof fn lemma_key_index(e: Entries, i: int)
    requires
        distinct_keys(e),
        0 <= i < e.len(),
    ensures
        has_key(e, e[i].0),
        key_index(e, e[i].0) == i,
        values_of(e, e[i].0) == e[i].1,
{
    let k = key_index(e, e[i].0);
    if k < i {
        assert(e[k].0 != e[i].0);
    } else if i < k {
        assert(e[i].0 != e[k].0);
    }
}

/// Inserting keeps the keys distinct and gives `key` exactly `values`.
pub proof fn lemma_insert(e: Entries, key: Seq<char>, values: Seq<Seq<char>>)
    requires
        distinct_keys(e),
    ensures
        distinct_keys(insert_spec(e, key, values)),
        has_key(insert_spec(e, key, values), key),
        values_of(insert_spec(e, key, values), key) == values,
        insert_spec(e, key, values).len() == if has_key(e, key) {
            e.len()
        } else {
            e.len() + 1
        },
        all_have_values(e) && values.len() > 0 ==> all_have_values(insert_spec(e, key, values)),
{
    let r = insert_spec(e, key, values);
    let at = if has_key(e, key) {
        key_index(e, key)
    } else {
        e.len() as int
    };
    assert(r[at] == (key, values));
    assert forall|i: int, j: int| 0 <= i < j < r.len() implies (#[trigger] r[i]).0 != (#[trigger] r[j]).0 by {
        if i != at && j != at {
            assert(e[i].0 != e[j].0);
        } else if i == at && has_key(e, key) {
            assert(e[i].0 != e[j].0);
        } else if j == at && has_key(e, key) {
            assert(e[i].0 != e[j].0);
        } else if j == at {
            assert(e[i].0 != key);
        }
    }
    lemma_key_index(r, at);
    if all_have_values(e) && values.len() > 0 {
        assert forall|i: int| 0 <= i < r.len() implies (#[trigger] r[i]).1.len() > 0 by {
            if i != at {
                assert(r[i] == e[i]);
            }
        }
    }
}

/// Inserting leaves every other key as it was.
pub proof fn lemma_insert_other(e: Entries, key: Seq<char>, values: Seq<Seq<char>>, other: Seq<char>)
    requires
        distinct_keys(e),
        other != key,
    ensures
        has_key(insert_spec(e, key, values), other) == has_key(e, other),
        values_of(insert_spec(e, key, values), other) == values_of(e, other),
{
    let r = insert_spec(e, key, values);
    let at = if has_key(e, key) {
        key_index(e, key)
    } else {
        e.len() as int
    };
    lemma_insert(e, key, values);
    assert(r[at] == (key, values));
    if has_key(e, other) {
        let k = key_index(e, other);
        assert(r[k] == e[k]);
        lemma_key_index(e, k);
        lemma_key_index(r, k);
    }
    if has_key(r, other) {
        let k = key_index(r, other);
        assert(k != at);
        assert(e[k] == r[k]);
    }
}

/// Adding a value is inserting the old values with the new one behind them.
pub proof fn lemma_append(e: Entries, key: Seq<char>, value: Seq<char>)
    requires
        distinct_keys(e),
    ensures
        distinct_keys(append_spec(e, key, value)),
        append_spec(e, key, value) == insert_spec(e, key, values_of(e, key).push(value)),
        all_have_values(e) ==> all_have_values(append_spec(e, key, value)),
{
    lemma_insert(e, key, values_of(e, key).push(value));
    let r = append_spec(e, key, value);
    if !has_key(e, key) {
        assert(Seq::<Seq<char>>::empty().push(value) =~= seq![value]);
    }
    if all_have_values(e) {
        assert forall|i: int| 0 <= i < r.len() implies (#[trigger] r[i]).1.len() > 0 by {
            if has_key(e, key) && i == key_index(e, key) {
            } else if i < e.len() {
                assert(r[i] == e[i]);
            }
        }
    }
}

/// Removing keeps the keys distinct and leaves `key` without an entry.
pub proof fn lemma_remove(e: Entries, key: Seq<char>)
    requires
        distinct_keys(e),
    ensures
        distinct_keys(remove_spec(e, key)),
        !has_key(remove_spec(e, key), key),
        all_have_values(e) ==> all_have_values(remove_spec(e, key)),
{
    let r = remove_spec(e, key);
    if has_key(e, key) {
        let at = key_index(e, key);
        assert forall|i: int, j: int| 0 <= i < j < r.len() implies (#[trigger] r[i]).0 != (#[trigger] r[j]).0 by {
            let a = if i < at { i } else { i + 1 };
            let b = if j < at { j } else { j + 1 };
            assert(r[i] == e[a]);
            assert(r[j] == e[b]);
            assert(e[a].0 != e[b].0);
        }
        if has_key(r, key) {
            let k = key_index(r, key);
            let a = if k < at { k } else { k + 1 };
            assert(r[k] == e[a]);
            if a < at {
                assert(e[a].0 != e[at].0);
            } else {
                assert(e[at].0 != e[a].0);
            }
        }
        if all_have_values(e) {
            assert forall|i: int| 0 <= i < r.len() implies (#[trigger] r[i]).1.len() > 0 by {
                let a = if i < at { i } else { i + 1 };
                assert(r[i] == e[a]);
            }
        }
    }
}

/// Extending keeps the keys distinct.
pub proof fn lemma_extend(e: Entries, other: Entries)
    requires
        distinct_keys(e),
    ensures
        distinct_keys(extend_spec(e, other)),
        all_have_values(e) && all_have_values(other) ==> all_have_values(extend_spec(e, other)),
    decreases other.len(),
{
    if other.len() > 0 {
        let front = other.drop_last();
        lemma_extend(e, front);
        lemma_insert(extend_spec(e, front), other.last().0, other.last().1);
        if all_have_values(e) && all_have_values(other) {
            assert forall|i: int| 0 <= i < front.len() implies (#[trigger] front[i]).1.len() > 0 by {
                assert(front[i] == other[i]);
            }
        }
    }
}

/// Extending overwrites: afterwards a key of `other` has exactly the values
/// it has there, whatever it had before, and any other key has the values it
/// had before.
pub proof fn extend_overwrites(e: Entries, other: Entries, key: Seq<char>)
    requires
        distinct_keys(e),
        distinct_keys(other),
    ensures
        has_key(extend_spec(e, other), key) == (has_key(e, key) || has_key(other, key)),
        values_of(extend_spec(e, other), key) == if has_key(other, key) {
            values_of(other, key)
        } else {
            values_of(e, key)
        },
    decreases other.len(),
{
    if other.len() > 0 {
        let front = other.drop_last();
        let last = other.last();
        assert forall|i: int, j: int| 0 <= i < j < front.len() implies (#[trigger] front[i]).0 != (
        #[trigger] front[j]).0 by {
            assert(front[i] == other[i]);
            assert(front[j] == other[j]);
            assert(other[i].0 != other[j].0);
        }
        extend_overwrites(e, front, key);
        lemma_extend(e, front);
        let mid = extend_spec(e, front);
        lemma_insert(mid, last.0, last.1);
        lemma_key_index(other, other.len() - 1);
        if key != last.0 {
            lemma_insert_other(mid, last.0, last.1, key);
            if has_key(front, key) {
                let k = key_index(front, key);
                assert(other[k] == front[k]);
                lemma_key_index(front, k);
                lemma_key_index(other, k);
            }
            if has_key(other, key) {
                let k = key_index(other, key);
                assert(k < front.len());
                assert(front[k] == other[k]);
            }
        }
    }
}

pub proof fn lemma_build(pairs: Seq<Pair>)
    ensures
        distinct_keys(build_spec(pairs)),
        all_have_values(build_spec(pairs)),
    decreases pairs.len(),
{
    if pairs.len() > 0 {
        lemma_build(pairs.drop_last());
        lemma_append(build_spec(pairs.drop_last()), pairs.last().0, pairs.last().1);
    }
}

/// The pairs of entries laid end to end are the pairs of the first, then
/// those of the second.
pub proof fn lemma_multi_items_concat(a: Entries, b: Entries)
    ensures
        multi_items_spec(a + b) == multi_items_spec(a) + multi_items_spec(b),
    decreases b.len(),
{
    if b.len() == 0 {
        assert(a + b =~= a);
        assert(multi_items_spec(a) + multi_items_spec(b) =~= multi_items_spec(a));
    } else {
        assert((a + b).drop_last() =~= a + b.drop_last());
        assert((a + b).last() == b.last());
        lemma_multi_items_concat(a, b.drop_last());
        assert(multi_items_spec(a + b) =~= multi_items_spec(a) + multi_items_spec(b));
    }
}

pub proof fn lemma_multi_items_one(entry: Entry)
    ensures
        multi_items_spec(seq![entry]) == pairs_of(entry),
{
    let one = seq![entry];
    assert(one.drop_last() =~= no_entries());
    assert(one.last() == entry);
    assert(multi_items_spec(one.drop_last()) =~= Seq::<Pair>::empty());
    assert(multi_items_spec(one) == multi_items_spec(one.drop_last()) + pairs_of(one.last()));
    assert(multi_items_spec(one) =~= pairs_of(entry));
}

/// Adding a value adds one pair, and takes none away.
pub proof fn lemma_append_adds_pair(e: Entries, key: Seq<char>, value: Seq<char>)
    ensures
        multi_items_spec(append_spec(e, key, value)).to_multiset() == multi_items_spec(e).to_multiset().insert(
            (key, value),
        ),
{
    broadcast use vstd::multiset::group_multiset_axioms;

    let r = append_spec(e, key, value);
    if has_key(e, key) {
        let i = key_index(e, key);
        let old_entry = e[i];
        let new_entry = (key, old_entry.1.push(value));
        let front = e.take(i);
        let back = e.skip(i + 1);
        assert(e =~= front + seq![old_entry] + back);
        assert(r =~= front + seq![new_entry] + back);
        lemma_multi_items_concat(front, seq![old_entry]);
        lemma_multi_items_concat(front + seq![old_entry], back);
        lemma_multi_items_concat(front, seq![new_entry]);
        lemma_multi_items_concat(front + seq![new_entry], back);
        lemma_multi_items_one(old_entry);
        lemma_multi_items_one(new_entry);
        assert(pairs_of(new_entry) =~= pairs_of(old_entry).push((key, value)));
        let head = multi_items_spec(front);
        let tail = multi_items_spec(back);
        let mid = pairs_of(old_entry);
        vstd::seq_lib::lemma_multiset_commutative(head + mid, tail);
        vstd::seq_lib::lemma_multiset_commutative(head + mid.push((key, value)), tail);
        assert(head + mid.push((key, value)) =~= (head + mid).push((key, value)));
        vstd::seq_lib::to_multiset_build(head + mid, (key, value));
        assert(multi_items_spec(r).to_multiset() =~= multi_items_spec(e).to_multiset().insert((key, value)));
    } else {
        assert(r.drop_last() =~= e);
        assert(pairs_of(r.last()) =~= seq![(key, value)]);
        assert(multi_items_spec(r) =~= multi_items_spec(e).push((key, value)));
        vstd::seq_lib::to_multiset_build(multi_items_spec(e), (key, value));
    }
}

/// Parameters built from pairs hold exactly those pairs, each as often as it
/// was given; only their order may differ, since the pairs of one key stand
/// together.
pub proof fn build_keeps_pairs(pairs: Seq<Pair>)
    ensures
        multi_items_spec(build_spec(pairs)).to_multiset() == pairs.to_multiset(),
    decreases pairs.len(),
{
    if pairs.len() == 0 {
        assert(multi_items_spec(build_spec(pairs)) =~= pairs);
    } else {
        let front = pairs.drop_last();
        build_keeps_pairs(front);
        lemma_append_adds_pair(build_spec(front), pairs.last().0, pairs.last().1);
        assert(pairs =~= front.push(pairs.last()));
        vstd::seq_lib::to_multiset_build(front, pairs.last());
    }
}

/// Equality does not depend on the order: parameters built from the same
/// pairs in any two orders hold the same multiset of pairs, which is what
/// equality compares.
pub proof fn build_ignores_order(first: Seq<Pair>, second: Seq<Pair>)
    requires
        first.to_multiset() == second.to_multiset(),
    ensures
        multi_items_spec(build_spec(first)).to_multiset() == multi_items_spec(build_spec(second)).to_multiset(),
{
    build_keeps_pairs(first);
    build_keeps_pairs(second);
}

/// Where every key has a value, every key has an item: its first value.
pub proof fn lemma_items_of_all(e: Entries)
    requires
        all_have_values(e),
    ensures
        items_spec(e).len() == e.len(),
        first_values_spec(e).len() == e.len(),
        forall|i: int| 0 <= i < e.len() ==> #[trigger] items_spec(e)[i] == (e[i].0, e[i].1[0]),
    decreases e.len(),
{
    if e.len() > 0 {
        let front = e.drop_last();
        assert forall|i: int| 0 <= i < front.len() implies (#[trigger] front[i]).1.len() > 0 by {
            assert(front[i] == e[i]);
        }
        lemma_items_of_all(front);
        assert(e.last().1.len() > 0);
        assert forall|i: int| 0 <= i < e.len() implies #[trigger] items_spec(e)[i] == (e[i].0, e[i].1[0]) by {
            if i < front.len() {
                assert(items_spec(e)[i] == items_spec(front)[i]);
                assert(front[i] == e[i]);
            }
        }
    }
}

} // verus!
