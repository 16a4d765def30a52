//! What holds of the order of keys.
use vstd::prelude::*;

use crate::laws::viewing::how_a_table_is_enumerated;
use crate::value::{
    enumerates, keys_of, lists_in_order, ordered, parts_at, precedes, precedes_is_strict, TableView,
};

verus! {

/// Of two different texts one comes before the other.
pub proof fn precedes_is_total(a: Seq<char>, b: Seq<char>)
    ensures
        a == b || precedes(a, b) || precedes(b, a),
{
    lemma_compare_from(a, b, 0);
}

proof fn lemma_compare_from(a: Seq<char>, b: Seq<char>, at: int)
    requires
        0 <= at <= a.len(),
        at <= b.len(),
        forall|i: int| 0 <= i < at ==> a[i] == b[i],
    ensures
        a == b || precedes(a, b) || precedes(b, a),
    decreases a.len() - at,
{
    if at == a.len() && at == b.len() {
        assert(a =~= b);
    } else if at == a.len() {
        assert(parts_at(a, b, at));
    } else if at == b.len() {
        assert(parts_at(b, a, at));
    } else if a[at] == b[at] {
        lemma_compare_from(a, b, at + 1);
    } else if (a[at] as int) < (b[at] as int) {
        assert(parts_at(a, b, at));
    } else {
        assert(parts_at(b, a, at));
    }
}

/// What comes before a text comes before everything that this comes before.
pub proof fn precedes_is_transitive(a: Seq<char>, b: Seq<char>, c: Seq<char>)
    requires
        precedes(a, b),
        precedes(b, c),
    ensures
        precedes(a, c),
{
    let n = choose|at: int| parts_at(a, b, at);
    let m = choose|at: int| parts_at(b, c, at);
    if n <= m {
        assert(parts_at(a, c, n));
    } else {
        assert(parts_at(a, c, m));
    }
}

proof fn lemma_listing_with(keys: Seq<Seq<char>>, all: Set<Seq<char>>, key: Seq<char>) -> (longer:
    Seq<Seq<char>>)
    requires
        lists_in_order(keys, all),
        !all.contains(key),
    ensures
        lists_in_order(longer, all.insert(key)),
    decreases keys.len(),
{
    if keys.len() == 0 {
        let longer = seq![key];
        assert(longer[0] == key);
        assert forall|k: Seq<char>| all.insert(key).contains(k) implies longer.contains(k) by {
            if k != key {
                assert(keys.contains(k));
            }
        }
        longer
    } else {
        let last = keys.last();
        assert(all.contains(keys[keys.len() - 1]));
        precedes_is_total(last, key);
        if precedes(last, key) {
            let longer = keys.push(key);
            assert forall|i: int, j: int| 0 <= i < j < longer.len() implies precedes(
                longer[i],
                longer[j],
            ) by {
                if j == keys.len() && i < keys.len() - 1 {
                    precedes_is_transitive(keys[i], last, key);
                }
            }
            assert forall|k: Seq<char>| all.insert(key).contains(k) implies longer.contains(k) by {
                if k == key {
                    assert(longer[keys.len() as int] == key);
                } else {
                    let i = choose|i: int| 0 <= i < keys.len() && keys[i] == k;
                    assert(longer[i] == k);
                }
            }
            longer
        } else {
            let rest = keys.drop_last();
            let fewer = all.remove(last);
            assert forall|i: int| 0 <= i < rest.len() implies fewer.contains(#[trigger] rest[i]) by {
                assert(all.contains(keys[i]));
                assert(precedes(keys[i], last));
                precedes_is_strict(last, last);
            }
            assert forall|k: Seq<char>| fewer.contains(k) implies rest.contains(k) by {
                let i = choose|i: int| 0 <= i < keys.len() && keys[i] == k;
                assert(rest[i] == k);
            }
            assert(lists_in_order(rest, fewer));
            let inner = lemma_listing_with(rest, fewer, key);
            let longer = inner.push(last);
            assert forall|i: int, j: int| 0 <= i < j < longer.len() implies precedes(
                longer[i],
                longer[j],
            ) by {
                if j == inner.len() {
                    assert(fewer.insert(key).contains(inner[i]));
                    if inner[i] != key {
                        assert(rest.contains(inner[i]));
                        let k = choose|k: int| 0 <= k < rest.len() && rest[k] == inner[i];
                        assert(precedes(keys[k], last));
                    }
                }
            }
            assert forall|i: int| 0 <= i < longer.len() implies all.insert(key).contains(
                #[trigger] longer[i],
            ) by {
                if i < inner.len() {
                    assert(fewer.insert(key).contains(inner[i]));
                }
            }
            assert forall|k: Seq<char>| all.insert(key).contains(k) implies longer.contains(k) by {
                if k == last {
                    assert(longer[inner.len() as int] == last);
                } else {
                    assert(fewer.insert(key).contains(k));
                    let i = choose|i: int| 0 <= i < inner.len() && inner[i] == k;
                    assert(longer[i] == k);
                }
            }
            longer
        }
    }
}

/// The keys of a finite set can be listed in order.
pub proof fn finite_sets_can_be_listed(all: Set<Seq<char>>) -> (keys: Seq<Seq<char>>)
    requires
        all.finite(),
    ensures
        lists_in_order(keys, all),
    decreases all.len(),
{
    if all.len() == 0 {
        let keys: Seq<Seq<char>> = seq![];
        assert(all =~= Set::empty());
        keys
    } else {
        let key = all.choose();
        let rest = all.remove(key);
        let keys = finite_sets_can_be_listed(rest);
        assert(rest.insert(key) =~= all);
        lemma_listing_with(keys, rest, key)
    }
}

/// The entries of a finite table can be listed in the order of its keys, so that `ordered` is
/// the list of them.
pub proof fn ordered_lists_the_entries(table: TableView)
    requires
        table.dom().finite(),
    ensures
        enumerates(ordered(table), table),
{
    let keys = finite_sets_can_be_listed(table.dom());
    let entries = keys.map_values(|key: Seq<char>| (key, table[key]));
    assert(keys_of(entries) =~= keys);
    assert(enumerates(entries, table));
}

/// Texts are ordered by the first character in which they differ, and a text comes before every
/// longer one that begins with it.
pub proof fn texts_are_ordered_by_their_first_difference(
    start: Seq<char>,
    a: char,
    b: char,
    x: Seq<char>,
    y: Seq<char>,
)
    ensures
        (a as int) < (b as int) ==> precedes(start + seq![a] + x, start + seq![b] + y) && !precedes(
            start + seq![b] + y,
            start + seq![a] + x,
        ),
        precedes(start, start + seq![a] + x) && !precedes(start + seq![a] + x, start),
{
    let (p, q) = (start + seq![a] + x, start + seq![b] + y);
    if (a as int) < (b as int) {
        assert(parts_at(p, q, start.len() as int));
        precedes_is_strict(p, q);
    }
    assert(parts_at(start, p, start.len() as int));
    precedes_is_strict(start, p);
}

/// The entries of a table in order: each of its keys once, each before those that come after it,
/// and each with its value.
pub proof fn ordered_entries_one_by_one(table: TableView)
    requires
        table.dom().finite(),
    ensures
        forall|i: int, j: int|
            0 <= i < j < ordered(table).len() ==> precedes(
                (#[trigger] ordered(table)[i]).0,
                (#[trigger] ordered(table)[j]).0,
            ),
        forall|i: int|
            0 <= i < ordered(table).len() ==> table.contains_key((#[trigger] ordered(table)[i]).0)
                && table[ordered(table)[i].0] == ordered(table)[i].1,
        forall|key: Seq<char>| #[trigger]
            table.contains_key(key) ==> exists|i: int|
                0 <= i < ordered(table).len() && (#[trigger] ordered(table)[i]).0 == key,
{
    ordered_lists_the_entries(table);
    how_a_table_is_enumerated(ordered(table), table);
}

} // verus!
