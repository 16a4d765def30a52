//! Merging one table into another.
use vstd::prelude::*;

use crate::value::{
    entry_ref_views, entry_views, enumerates, keys_of, lemma_array_view, listed_is_finite,
    listing_is_unique, precedes_is_strict, trees, ConfigValue, Table, TableView, Tree,
};

verus! {

/// The 64-bit float with these bits is not a number.
pub open spec fn is_nan(bits: u64) -> bool {
    bits % 0x8000_0000_0000_0000 > 0x7ff0_0000_0000_0000
}

/// The 64-bit float with these bits is zero, of either sign.
pub open spec fn is_zero(bits: u64) -> bool {
    bits % 0x8000_0000_0000_0000 == 0
}

/// The two 64-bit floats compare equal: no NaN equals anything, and the two zeros are equal.
pub open spec fn same_float(a: u64, b: u64) -> bool {
    &&& !is_nan(a)
    &&& !is_nan(b)
    &&& a == b || (is_zero(a) && is_zero(b))
}

/// The two values compare equal: they are of one kind, and equal in every part.
pub open spec fn same(a: Tree, b: Tree) -> bool
    decreases a,
{
    match (a, b) {
        (Tree::Text(x), Tree::Text(y)) => x == y,
        (Tree::Integer(x), Tree::Integer(y)) => x == y,
        (Tree::Float(x), Tree::Float(y)) => same_float(x, y),
        (Tree::Boolean(x), Tree::Boolean(y)) => x == y,
        (Tree::Datetime(x), Tree::Datetime(y)) => x == y,
        (Tree::Array(x), Tree::Array(y)) => {
            &&& x.len() == y.len()
            &&& forall|i: int| 0 <= i < x.len() ==> same(#[trigger] x[i], y[i])
        },
        (Tree::Table(x), Tree::Table(y)) => {
            &&& x.dom() == y.dom()
            &&& forall|key: Seq<char>| x.contains_key(key) ==> same(#[trigger] x[key], y[key])
        },
        _ => false,
    }
}

/// Some item of `items` compares equal to `item`.
pub open spec fn has_same(items: Seq<Tree>, item: Tree) -> bool {
    exists|i: int| 0 <= i < items.len() && same(#[trigger] items[i], item)
}

/// The items without those that compare equal to one before them, in their order.
pub open spec fn distinct(items: Seq<Tree>) -> Seq<Tree>
    decreases items.len(),
{
    if items.len() == 0 {
        items
    } else {
        let before = distinct(items.drop_last());
        if has_same(before, items.last()) {
            before
        } else {
            before.push(items.last())
        }
    }
}

/// Two lists under one key: the items of `base` and then those of `new`, without duplicates.
pub open spec fn joined(base: Seq<Tree>, new: Seq<Tree>) -> Seq<Tree> {
    distinct(base + new)
}

/// What a key holds after merging, where it held `base` before and `new` is merged into it.
///
/// Two tables are merged key by key, two arrays are joined, and else `new` replaces `base`.
pub open spec fn merged_value(base: Tree, new: Tree) -> Tree
    decreases new,
{
    match (base, new) {
        (Tree::Table(b), Tree::Table(n)) => Tree::Table(
            Map::new(
                |key: Seq<char>| b.contains_key(key) || n.contains_key(key),
                |key: Seq<char>|
                    if !n.contains_key(key) {
                        b[key]
                    } else if !b.contains_key(key) {
                        n[key]
                    } else {
                        merged_value(b[key], n[key])
                    },
            ),
        ),
        (Tree::Array(b), Tree::Array(n)) => Tree::Array(joined(b, n)),
        _ => new,
    }
}

/// `base` with `new` merged into it.
pub open spec fn merged(base: TableView, new: TableView) -> TableView {
    merged_value(Tree::Table(base), Tree::Table(new))->Table_0
}

/// Whether the floats with these bits compare equal.
fn same_bits(a: u64, b: u64) -> (yes: bool)
    ensures
        yes == same_float(a, b),
{
    let x: u64 = a % 0x8000_0000_0000_0000;
    let y: u64 = b % 0x8000_0000_0000_0000;
    x <= 0x7ff0_0000_0000_0000 && y <= 0x7ff0_0000_0000_0000 && (a == b || (x == 0 && y == 0))
}

/// Whether two lists of values compare equal.
fn same_items(a: &Vec<ConfigValue>, b: &Vec<ConfigValue>) -> (yes: bool)
    ensures
        yes == same(Tree::Array(trees(a@)), Tree::Array(trees(b@))),
    decreases trees(a@),
{
    if a.len() != b.len() {
        return false;
    }
    let ghost x = trees(a@);
    let ghost y = trees(b@);
    let mut i: usize = 0;
    while i < a.len()
        invariant
            i <= a.len(),
            a.len() == b.len(),
            x == trees(a@),
            y == trees(b@),
            forall|j: int| 0 <= j < i ==> same(#[trigger] x[j], y[j]),
        decreases a.len() - i,
    {
        assert(x[i as int] == a@[i as int]@ && y[i as int] == b@[i as int]@);
        if !same_value(&a[i], &b[i]) {
            return false;
        }
        i = i + 1;
    }
    true
}

/// Whether two tables compare equal.
fn same_tables(a: &Table, b: &Table) -> (yes: bool)
    ensures
        yes == same(Tree::Table(a@), Tree::Table(b@)),
    decreases a@,
{
    let left = a.entries();
    let right = b.entries();
    let ghost x = entry_ref_views(left@);
    let ghost y = entry_ref_views(right@);
    proof {
        listed_is_finite(keys_of(x), a@.dom());
        if a@.dom() == b@.dom() {
            listing_is_unique(keys_of(x), keys_of(y), a@.dom());
            assert(keys_of(x).len() == keys_of(y).len());
        }
    }
    if left.len() != right.len() {
        return false;
    }
    let mut i: usize = 0;
    while i < left.len()
        invariant
            i <= left.len(),
            left.len() == right.len(),
            x == entry_ref_views(left@),
            y == entry_ref_views(right@),
            enumerates(x, a@),
            enumerates(y, b@),
            a@.dom().finite(),
            a@.dom() == b@.dom() ==> keys_of(x) == keys_of(y),
            forall|j: int| 0 <= j < i ==> (#[trigger] x[j]).0 == y[j].0 && same(x[j].1, y[j].1),
        decreases left.len() - i,
    {
        let (left_key, left_value) = left[i];
        let (right_key, right_value) = right[i];
        assert(x[i as int] == (left_key@, left_value@));
        assert(y[i as int] == (right_key@, right_value@));
        assert(keys_of(x)[i as int] == left_key@);
        assert(keys_of(y)[i as int] == right_key@);
        if *left_key != *right_key {
            return false;
        }
        assert(a@.contains_key(left_key@) && a@[left_key@] == left_value@);
        assert(b@.contains_key(right_key@) && b@[right_key@] == right_value@);
        assert(decreases_to!(a@ => a@[left_key@]));
        if !same_value(left_value, right_value) {
            return false;
        }
        i = i + 1;
    }
    proof {
        assert(keys_of(x) =~= keys_of(y)) by {
            assert forall|j: int| 0 <= j < x.len() implies keys_of(x)[j] == keys_of(y)[j] by {
                assert(x[j].0 == y[j].0);
            }
        }
        assert(a@.dom() =~= b@.dom());
        assert forall|key: Seq<char>| a@.contains_key(key) implies same(
            #[trigger] a@[key],
            b@[key],
        ) by {
            let j = choose|j: int| 0 <= j < keys_of(x).len() && keys_of(x)[j] == key;
            assert(x[j].0 == key && y[j].0 == key);
            assert(a@[x[j].0] == x[j].1);
            assert(b@[y[j].0] == y[j].1);
        }
    }
    true
}

/// Whether two values compare equal.
fn same_value(a: &ConfigValue, b: &ConfigValue) -> (yes: bool)
    ensures
        yes == same(a@, b@),
    decreases a@,
{
    match (a, b) {
        (ConfigValue::Text(x), ConfigValue::Text(y)) => *x == *y,
        (ConfigValue::Integer(x), ConfigValue::Integer(y)) => *x == *y,
        (ConfigValue::Float(x), ConfigValue::Float(y)) => same_bits(*x, *y),
        (ConfigValue::Boolean(x), ConfigValue::Boolean(y)) => *x == *y,
        (ConfigValue::Datetime(x), ConfigValue::Datetime(y)) => *x == *y,
        (ConfigValue::Array(x), ConfigValue::Array(y)) => {
            proof {
                lemma_array_view(*a);
                lemma_array_view(*b);
                assert(decreases_to!(a@ => a@->Array_0));
            }
            same_items(x, y)
        },
        (ConfigValue::Table(x), ConfigValue::Table(y)) => {
            assert(decreases_to!(a@ => a@->Table_0));
            same_tables(x, y)
        },
        _ => false,
    }
}

/// Appends `item` to `items`, unless something there compares equal to it.
fn push_distinct(items: &mut Vec<ConfigValue>, item: ConfigValue)
    ensures
        trees(final(items)@) == (if has_same(trees(old(items)@), item@) {
            trees(old(items)@)
        } else {
            trees(old(items)@).push(item@)
        }),
{
    let ghost there = trees(items@);
    let mut j: usize = 0;
    while j < items.len()
        invariant
            j <= items.len(),
            there == trees(items@),
            items@ == old(items)@,
            forall|k: int| 0 <= k < j ==> !same(#[trigger] there[k], item@),
        decreases items.len() - j,
    {
        assert(there[j as int] == items@[j as int]@);
        if same_value(&items[j], &item) {
            return;
        }
        j = j + 1;
    }
    items.push(item);
    assert(trees(items@) =~= there.push(item@));
}

/// Appends the items of `more` to `items`, of which `done` is what went in before, without
/// duplicates.
fn push_all_distinct(items: &mut Vec<ConfigValue>, more: Vec<ConfigValue>, Ghost(done): Ghost<Seq<Tree>>)
    requires
        trees(old(items)@) == distinct(done),
    ensures
        trees(final(items)@) == distinct(done + trees(more@)),
{
    let ghost list = more@;
    assert(done + trees(list).take(0) =~= done);
    for item in it: more
        invariant
            it.seq() == list,
            trees(items@) == distinct(done + trees(list).take(it.index())),
    {
        let ghost i = it.index();
        let ghost next = done + trees(list).take(i + 1);
        assert(next.drop_last() =~= done + trees(list).take(i));
        assert(next.last() == item@);
        push_distinct(items, item);
    }
    assert(trees(list).take(list.len() as int) =~= trees(list));
}

/// Puts the items of `new` behind those of `base`, and drops the duplicates among all of them.
pub fn join_items(base: &mut Vec<ConfigValue>, new: Vec<ConfigValue>)
    ensures
        trees(final(base)@) == joined(trees(old(base)@), trees(new@)),
{
    let mut items: Vec<ConfigValue> = Vec::new();
    std::mem::swap(&mut items, base);
    let ghost first = trees(items@);
    assert(trees(base@) =~= distinct(Seq::<Tree>::empty()));
    push_all_distinct(base, items, Ghost(Seq::<Tree>::empty()));
    assert(Seq::<Tree>::empty() + first =~= first);
    push_all_distinct(base, new, Ghost(first));
}

/// What a key holds once `new` is merged into the `base` that it held.
pub fn merge_value(base: ConfigValue, new: ConfigValue) -> (value: ConfigValue)
    ensures
        value@ == merged_value(base@, new@),
    decreases new@,
{
    proof {
        lemma_array_view(base);
        lemma_array_view(new);
    }
    match (base, new) {
        (ConfigValue::Table(mut b), ConfigValue::Table(n)) => {
            assert(decreases_to!(new@ => new@->Table_0));
            merge_table(&mut b, n);
            ConfigValue::Table(b)
        },
        (ConfigValue::Array(mut b), ConfigValue::Array(n)) => {
            join_items(&mut b, n);
            proof {
                lemma_array_view(ConfigValue::Array(b));
            }
            ConfigValue::Array(b)
        },
        (_, new) => new,
    }
}

/// Merges `new` into `base`: tables key by key, arrays by putting one behind the other and dropping
/// duplicates, and anything else by replacing it.
pub fn merge_table(base: &mut Table, new: Table)
    ensures
        final(base)@ == merged(old(base)@, new@),
    decreases new@,
{
    let ghost before = base@;
    let ghost table = new@;
    let entries = new.into_entries();
    let ghost list = entry_views(entries@);
    let ghost raw = entries@;
    proof {
        listed_is_finite(keys_of(list), table.dom());
    }
    for entry in it: entries
        invariant
            it.seq() == raw,
            list == entry_views(raw),
            enumerates(list, table),
            table.dom().finite(),
            table == new@,
            forall|key: Seq<char>| #[trigger]
                base@.contains_key(key) <==> before.contains_key(key) || keys_of(list).take(
                    it.index(),
                ).contains(key),
            forall|key: Seq<char>| #[trigger]
                base@.contains_key(key) && !keys_of(list).take(it.index()).contains(key)
                    ==> base@[key] == before[key],
            forall|j: int|
                0 <= j < it.index() ==> base@[(#[trigger] list[j]).0] == (if before.contains_key(
                    list[j].0,
                ) {
                    merged_value(before[list[j].0], list[j].1)
                } else {
                    list[j].1
                }),
    {
        let ghost i = it.index();
        let (key, value) = entry;
        let ghost held = base@;
        let ghost done = keys_of(list).take(i);
        proof {
            assert(list[i] == (key@, value@));
            assert(keys_of(list)[i] == key@);
            assert(table.contains_key(key@) && table[key@] == value@);
            assert(decreases_to!(table => table[key@]));
            if done.contains(key@) {
                let j = choose|j: int| 0 <= j < done.len() && done[j] == key@;
                assert(keys_of(list)[j] == key@);
                precedes_is_strict(key@, key@);
            }
            assert(keys_of(list).take(i + 1) =~= done.push(key@));
        }
        let ghost name = key@;
        match base.remove(key.as_str()) {
            None => {
                base.insert(key, value);
            },
            Some(old_value) => {
                let new_value = merge_value(old_value, value);
                base.insert(key, new_value);
            },
        }
        assert forall|k: Seq<char>| done.push(name).contains(k) <==> done.contains(k) || k
            == name by {
            if done.contains(k) {
                let j = choose|j: int| 0 <= j < done.len() && done[j] == k;
                assert(done.push(name)[j] == k);
            }
            assert(done.push(name)[done.len() as int] == name);
        }
        assert forall|j: int| 0 <= j < i implies (#[trigger] list[j]).0 != name by {
            assert(done[j] == list[j].0);
        }
    }
    proof {
        let all = keys_of(list);
        assert(all.take(all.len() as int) =~= all);
        assert forall|key: Seq<char>| table.contains_key(key) implies base@[key] == (
        if before.contains_key(key) {
            merged_value(before[key], table[key])
        } else {
            table[key]
        }) by {
            let j = choose|j: int| 0 <= j < all.len() && all[j] == key;
            assert(list[j].0 == key);
        }
        assert(base@ =~= merged(before, table));
    }
}

// What merging keeps, adds and replaces.

/// Merging into an empty table gives what was merged in, and merging an empty table changes
/// nothing.
pub proof fn merging_with_nothing(table: TableView)
    ensures
        merged(TableView::empty(), table) == table,
        merged(table, TableView::empty()) == table,
{
    assert(merged(TableView::empty(), table) =~= table);
    assert(merged(table, TableView::empty()) =~= table);
}

/// A merged table has the keys of both tables and no others; a key of one of them has the value
/// that it has there.
pub proof fn merging_keeps_every_key(base: TableView, new: TableView, key: Seq<char>)
    ensures
        merged(base, new).contains_key(key) <==> (base.contains_key(key) || new.contains_key(key)),
        base.contains_key(key) && !new.contains_key(key) ==> merged(base, new)[key] == base[key],
        !base.contains_key(key) && new.contains_key(key) ==> merged(base, new)[key] == new[key],
{
}

/// Where both tables have a key, two tables under it are merged, two arrays are joined, and
/// otherwise the value that is merged in wins.
pub proof fn merging_a_common_key(base: TableView, new: TableView, key: Seq<char>)
    requires
        base.contains_key(key),
        new.contains_key(key),
    ensures
        base[key] is Table && new[key] is Table ==> merged(base, new)[key] == Tree::Table(
            merged(base[key]->Table_0, new[key]->Table_0),
        ),
        base[key] is Array && new[key] is Array ==> merged(base, new)[key] == Tree::Array(
            joined(base[key]->Array_0, new[key]->Array_0),
        ),
        !(base[key] is Table && new[key] is Table) && !(base[key] is Array && new[key] is Array)
            ==> merged(base, new)[key] == new[key],
{
    reveal_with_fuel(merged_value, 2);
}

/// Without duplicates, no item compares equal to one before it.
pub proof fn distinct_has_no_duplicates(items: Seq<Tree>, j: int)
    requires
        0 <= j < distinct(items).len(),
    ensures
        !has_same(distinct(items).take(j), distinct(items)[j]),
    decreases items.len(),
{
    let before = distinct(items.drop_last());
    let after = distinct(items);
    if j < before.len() {
        distinct_has_no_duplicates(items.drop_last(), j);
        assert(after.take(j) =~= before.take(j));
    } else {
        assert(after.take(j) =~= before);
    }
}

/// Dropping duplicates loses nothing: each item is there itself, or one that compares equal to it.
pub proof fn distinct_loses_nothing(items: Seq<Tree>, i: int)
    requires
        0 <= i < items.len(),
    ensures
        distinct(items).contains(items[i]) || has_same(distinct(items), items[i]),
    decreases items.len(),
{
    let before = distinct(items.drop_last());
    let after = distinct(items);
    if i < items.len() - 1 {
        distinct_loses_nothing(items.drop_last(), i);
        if before.contains(items[i]) {
            let j = choose|j: int| 0 <= j < before.len() && before[j] == items[i];
            assert(after[j] == items[i]);
        } else {
            let j = choose|j: int| 0 <= j < before.len() && same(#[trigger] before[j], items[i]);
            assert(same(after[j], items[i]));
        }
    } else if !has_same(before, items.last()) {
        assert(after[before.len() as int] == items[i]);
    }
}

/// The items at these places of `items`, which come in order, are those of `some`.
pub open spec fn picks(items: Seq<Tree>, places: Seq<int>, some: Seq<Tree>) -> bool {
    &&& places.len() == some.len()
    &&& forall|j: int|
        0 <= j < places.len() ==> 0 <= #[trigger] places[j] < items.len() && items[places[j]]
            == some[j]
    &&& forall|j: int, k: int| 0 <= j < k < places.len() ==> places[j] < places[k]
}

/// Dropping duplicates adds nothing and keeps the order of what stays.
pub proof fn distinct_keeps_the_order(items: Seq<Tree>) -> (places: Seq<int>)
    ensures
        picks(items, places, distinct(items)),
    decreases items.len(),
{
    if items.len() == 0 {
        seq![]
    } else {
        let earlier = distinct_keeps_the_order(items.drop_last());
        assert forall|j: int| 0 <= j < earlier.len() implies items[#[trigger] earlier[j]]
            == items.drop_last()[earlier[j]] by {}
        if has_same(distinct(items.drop_last()), items.last()) {
            earlier
        } else {
            earlier.push(items.len() - 1)
        }
    }
}

proof fn lemma_distinct_in_turn(first: Seq<Tree>, second: Seq<Tree>)
    ensures
        distinct(distinct(first) + second) == distinct(first + second),
    decreases second.len(),
{
    if second.len() == 0 {
        assert(first + second =~= first);
        assert(distinct(first) + second =~= distinct(first));
        distinct_twice(first);
    } else {
        lemma_distinct_in_turn(first, second.drop_last());
        assert((first + second).drop_last() =~= first + second.drop_last());
        assert((distinct(first) + second).drop_last() =~= distinct(first) + second.drop_last());
    }
}

/// Where there are no duplicates any more, dropping them changes nothing.
pub proof fn distinct_twice(items: Seq<Tree>)
    ensures
        distinct(distinct(items)) == distinct(items),
    decreases items.len(),
{
    if items.len() > 0 {
        let before = distinct(items.drop_last());
        distinct_twice(items.drop_last());
        if !has_same(before, items.last()) {
            assert(before.push(items.last()).drop_last() =~= before);
        }
    }
}

/// Joining lists one after the other is dropping the duplicates of all of them together.
pub proof fn joining_in_turn(base: Seq<Tree>, first: Seq<Tree>, second: Seq<Tree>)
    ensures
        joined(joined(base, first), second) == distinct(base + first + second),
{
    lemma_distinct_in_turn(base + first, second);
}

/// The value, or one below it, is a float that is not a number.
pub open spec fn has_nan(tree: Tree) -> bool
    decreases tree,
{
    match tree {
        Tree::Float(bits) => is_nan(bits),
        Tree::Array(items) => exists|i: int| 0 <= i < items.len() && has_nan(#[trigger] items[i]),
        Tree::Table(table) => exists|key: Seq<char>|
            table.contains_key(key) && has_nan(#[trigger] table[key]),
        _ => false,
    }
}

/// A value compares equal to itself just where there is no NaN in it.
pub proof fn only_nan_differs_from_itself(tree: Tree)
    ensures
        same(tree, tree) <==> !has_nan(tree),
    decreases tree,
{
    match tree {
        Tree::Array(items) => {
            assert forall|i: int| 0 <= i < items.len() implies same(#[trigger] items[i], items[i])
                == !has_nan(items[i]) by {
                only_nan_differs_from_itself(items[i]);
            }
        },
        Tree::Table(table) => {
            assert forall|key: Seq<char>| table.contains_key(key) implies same(
                #[trigger] table[key],
                table[key],
            ) == !has_nan(table[key]) by {
                only_nan_differs_from_itself(table[key]);
            }
        },
        _ => {},
    }
}

proof fn lemma_distinct_of_what_is_there(base: Seq<Tree>, new: Seq<Tree>)
    requires
        distinct(base) == base,
        forall|i: int| 0 <= i < new.len() ==> has_same(base, #[trigger] new[i]),
    ensures
        distinct(base + new) == base,
    decreases new.len(),
{
    if new.len() == 0 {
        assert(base + new =~= base);
    } else {
        assert forall|i: int| 0 <= i < new.drop_last().len() implies has_same(
            base,
            #[trigger] new.drop_last()[i],
        ) by {
            assert(has_same(base, new[i]));
        }
        lemma_distinct_of_what_is_there(base, new.drop_last());
        assert((base + new).drop_last() =~= base + new.drop_last());
        assert(has_same(base, new[new.len() - 1]));
    }
}

proof fn lemma_same_has_no_nan(a: Tree, b: Tree)
    requires
        same(a, b),
    ensures
        !has_nan(b),
    decreases a,
{
    match (a, b) {
        (Tree::Array(x), Tree::Array(y)) => {
            assert forall|i: int| 0 <= i < y.len() implies !has_nan(#[trigger] y[i]) by {
                assert(same(x[i], y[i]));
                lemma_same_has_no_nan(x[i], y[i]);
            }
        },
        (Tree::Table(x), Tree::Table(y)) => {
            assert forall|key: Seq<char>| y.contains_key(key) implies !has_nan(
                #[trigger] y[key],
            ) by {
                assert(x.contains_key(key));
                assert(same(x[key], y[key]));
                lemma_same_has_no_nan(x[key], y[key]);
            }
        },
        _ => {},
    }
}

proof fn lemma_distinct_keeps_the_front(base: Seq<Tree>, new: Seq<Tree>)
    requires
        distinct(base) == base,
    ensures
        base.is_prefix_of(distinct(base + new)),
    decreases new.len(),
{
    if new.len() == 0 {
        assert(base + new =~= base);
    } else {
        lemma_distinct_keeps_the_front(base, new.drop_last());
        assert((base + new).drop_last() =~= base + new.drop_last());
        assert(distinct(base + new).take(base.len() as int) =~= base);
    }
}

proof fn lemma_nothing_was_added(base: Seq<Tree>, new: Seq<Tree>, i: int)
    requires
        distinct(base) == base,
        distinct(base + new) == base,
        0 <= i < new.len(),
    ensures
        has_same(base, new[i]),
    decreases new.len(),
{
    let before = distinct(base + new.drop_last());
    assert((base + new).drop_last() =~= base + new.drop_last());
    lemma_distinct_keeps_the_front(base, new.drop_last());
    assert(before =~= base);
    if i < new.len() - 1 {
        lemma_nothing_was_added(base, new.drop_last(), i);
    }
}

/// What `base` holds under a key, where it is a table and has it.
pub open spec fn under(base: Option<Tree>, key: Seq<char>) -> Option<Tree> {
    match base {
        Some(Tree::Table(table)) => if table.contains_key(key) {
            Some(table[key])
        } else {
            None
        },
        _ => None,
    }
}

/// No list in `new` has an item with a NaN, and one that is not joined with a list of `base` has
/// no duplicates.
pub open spec fn repeatable(base: Option<Tree>, new: Tree) -> bool
    decreases new,
{
    match new {
        Tree::Array(items) => {
            &&& forall|i: int| 0 <= i < items.len() ==> !has_nan(#[trigger] items[i])
            &&& (base is Some && base->0 is Array) || distinct(items) == items
        },
        Tree::Table(table) => forall|key: Seq<char>|
            table.contains_key(key) ==> repeatable(under(base, key), #[trigger] table[key]),
        _ => true,
    }
}

/// What is there once `new` has been merged, into nothing or into a value.
pub open spec fn put(base: Option<Tree>, new: Tree) -> Tree {
    match base {
        Some(base) => merged_value(base, new),
        None => new,
    }
}

proof fn lemma_merging_a_value_again(base: Option<Tree>, new: Tree)
    requires
        repeatable(base, new),
    ensures
        merged_value(put(base, new), new) == put(base, new),
    decreases new,
{
    let once = put(base, new);
    match new {
        Tree::Array(items) => {
            let there = once->Array_0;
            if let Some(Tree::Array(b)) = base {
                distinct_twice(b + items);
                assert forall|i: int| 0 <= i < items.len() implies has_same(
                    there,
                    #[trigger] items[i],
                ) by {
                    assert((b + items)[b.len() + i] == items[i]);
                    distinct_loses_nothing(b + items, b.len() + i);
                    only_nan_differs_from_itself(items[i]);
                    if there.contains(items[i]) {
                        let j = choose|j: int| 0 <= j < there.len() && there[j] == items[i];
                        assert(same(there[j], items[i]));
                    }
                }
            } else {
                assert(there == items);
                assert forall|i: int| 0 <= i < items.len() implies has_same(
                    there,
                    #[trigger] items[i],
                ) by {
                    only_nan_differs_from_itself(items[i]);
                    assert(same(there[i], items[i]));
                }
            }
            lemma_distinct_of_what_is_there(there, items);
        },
        Tree::Table(table) => {
            let there = once->Table_0;
            let again = merged(there, table);
            assert forall|key: Seq<char>| #[trigger] there.contains_key(key) implies again[key]
                == there[key] by {
                if table.contains_key(key) {
                    assert(repeatable(under(base, key), table[key]));
                    lemma_merging_a_value_again(under(base, key), table[key]);
                    assert(there[key] == put(under(base, key), table[key]));
                    assert(again[key] == merged_value(there[key], table[key]));
                }
            }
            assert(again =~= there);
        },
        _ => {},
    }
}

proof fn lemma_merging_a_value_changes(base: Option<Tree>, new: Tree)
    requires
        merged_value(put(base, new), new) == put(base, new),
    ensures
        repeatable(base, new),
    decreases new,
{
    let once = put(base, new);
    match new {
        Tree::Array(items) => {
            let there = once->Array_0;
            distinct_twice(there + items);
            assert forall|i: int| 0 <= i < items.len() implies !has_nan(#[trigger] items[i]) by {
                lemma_nothing_was_added(there, items, i);
                let j = choose|j: int| 0 <= j < there.len() && same(#[trigger] there[j], items[i]);
                lemma_same_has_no_nan(there[j], items[i]);
            }
        },
        Tree::Table(table) => {
            let there = once->Table_0;
            assert(merged_value(once, new)->Table_0 == there);
            assert forall|key: Seq<char>| table.contains_key(key) implies repeatable(
                under(base, key),
                #[trigger] table[key],
            ) by {
                assert(there[key] == put(under(base, key), table[key]));
                assert(merged(there, table)[key] == merged_value(there[key], table[key]));
                lemma_merging_a_value_changes(under(base, key), table[key]);
            }
        },
        _ => {},
    }
}

/// Merging a table a second time changes nothing, unless a list in it has an item with a NaN,
/// which is added again, or is taken over with its duplicates, which only go the second time.
pub proof fn merging_again_changes_nothing(base: TableView, new: TableView)
    ensures
        merged(merged(base, new), new) == merged(base, new) <==> repeatable(
            Some(Tree::Table(base)),
            Tree::Table(new),
        ),
{
    let (b, n) = (Some(Tree::Table(base)), Tree::Table(new));
    if repeatable(b, n) {
        lemma_merging_a_value_again(b, n);
    }
    if merged(merged(base, new), new) == merged(base, new) {
        lemma_merging_a_value_changes(b, n);
    }
}

/// What compares equal: texts, integers, booleans and dates that are the same; floats that are the
/// same number, so that the two zeros do and a NaN does not; lists of one length whose items do in
/// turn; tables of the same keys whose values do; and nothing of different kinds.
pub proof fn what_compares_equal(a: Tree, b: Tree)
    ensures
        match (a, b) {
            (Tree::Text(x), Tree::Text(y)) => same(a, b) <==> x == y,
            (Tree::Integer(x), Tree::Integer(y)) => same(a, b) <==> x == y,
            (Tree::Boolean(x), Tree::Boolean(y)) => same(a, b) <==> x == y,
            (Tree::Datetime(x), Tree::Datetime(y)) => same(a, b) <==> x == y,
            (Tree::Float(x), Tree::Float(y)) => same(a, b) <==> {
                ||| x == y && (x <= 0x7ff0_0000_0000_0000 || 0x8000_0000_0000_0000 <= x
                    <= 0xfff0_0000_0000_0000)
                ||| (x == 0 || x == 0x8000_0000_0000_0000) && (y == 0 || y
                    == 0x8000_0000_0000_0000)
            },
            (Tree::Array(x), Tree::Array(y)) => same(a, b) <==> {
                &&& x.len() == y.len()
                &&& forall|i: int| 0 <= i < x.len() ==> same(#[trigger] x[i], y[i])
            },
            (Tree::Table(x), Tree::Table(y)) => same(a, b) <==> {
                &&& forall|key: Seq<char>| #[trigger] x.contains_key(key) <==> y.contains_key(key)
                &&& forall|key: Seq<char>| x.contains_key(key) ==> same(#[trigger] x[key], y[key])
            },
            _ => !same(a, b),
        },
{
    if let (Tree::Table(x), Tree::Table(y)) = (a, b) {
        if forall|key: Seq<char>| #[trigger] x.contains_key(key) <==> y.contains_key(key) {
            assert(x.dom() =~= y.dom());
        }
    }
}

/// The value, or one below it, is a float.
pub open spec fn has_float(tree: Tree) -> bool
    decreases tree,
{
    match tree {
        Tree::Float(_) => true,
        Tree::Array(items) => exists|i: int| 0 <= i < items.len() && has_float(#[trigger] items[i]),
        Tree::Table(table) => exists|key: Seq<char>|
            table.contains_key(key) && has_float(#[trigger] table[key]),
        _ => false,
    }
}

/// A value without floats compares equal to itself and to nothing else.
pub proof fn only_floats_are_compared_as_numbers(a: Tree, b: Tree)
    requires
        !has_float(a),
    ensures
        same(a, b) <==> a == b,
    decreases a,
{
    match (a, b) {
        (Tree::Array(x), Tree::Array(y)) => {
            assert forall|i: int| 0 <= i < x.len() implies same(#[trigger] x[i], y[i]) == (x[i]
                == y[i]) by {
                assert(!has_float(x[i]));
                only_floats_are_compared_as_numbers(x[i], y[i]);
            }
            if same(a, b) {
                assert(x =~= y);
            }
        },
        (Tree::Table(x), Tree::Table(y)) => {
            assert forall|key: Seq<char>| x.contains_key(key) implies same(
                #[trigger] x[key],
                y[key],
            ) == (x[key] == y[key]) by {
                assert(!has_float(x[key]));
                only_floats_are_compared_as_numbers(x[key], y[key]);
            }
            if same(a, b) {
                assert(x =~= y);
            }
        },
        _ => {},
    }
}

/// What compares equal one way does so the other way.
pub proof fn comparing_is_symmetric(a: Tree, b: Tree)
    requires
        same(a, b),
    ensures
        same(b, a),
    decreases a,
{
    match (a, b) {
        (Tree::Array(x), Tree::Array(y)) => {
            assert forall|i: int| 0 <= i < y.len() implies same(#[trigger] y[i], x[i]) by {
                assert(same(x[i], y[i]));
                comparing_is_symmetric(x[i], y[i]);
            }
        },
        (Tree::Table(x), Tree::Table(y)) => {
            assert forall|key: Seq<char>| y.contains_key(key) implies same(
                #[trigger] y[key],
                x[key],
            ) by {
                assert(x.contains_key(key));
                assert(same(x[key], y[key]));
                comparing_is_symmetric(x[key], y[key]);
            }
        },
        _ => {},
    }
}

/// What compares equal to the same compares equal.
pub proof fn comparing_is_transitive(a: Tree, b: Tree, c: Tree)
    requires
        same(a, b),
        same(b, c),
    ensures
        same(a, c),
    decreases a,
{
    match (a, b, c) {
        (Tree::Array(x), Tree::Array(y), Tree::Array(z)) => {
            assert forall|i: int| 0 <= i < x.len() implies same(#[trigger] x[i], z[i]) by {
                assert(same(x[i], y[i]));
                assert(same(y[i], z[i]));
                comparing_is_transitive(x[i], y[i], z[i]);
            }
        },
        (Tree::Table(x), Tree::Table(y), Tree::Table(z)) => {
            assert forall|key: Seq<char>| x.contains_key(key) implies same(
                #[trigger] x[key],
                z[key],
            ) by {
                assert(y.contains_key(key));
                assert(same(x[key], y[key]));
                assert(same(y[key], z[key]));
                comparing_is_transitive(x[key], y[key], z[key]);
            }
        },
        _ => {},
    }
}

/// Dropping duplicates keeps an item just where nothing before it compares equal to it, and changes
/// nothing else.
pub proof fn the_first_of_equal_items_is_kept(items: Seq<Tree>, item: Tree)
    ensures
        distinct(Seq::<Tree>::empty()) == Seq::<Tree>::empty(),
        distinct(items.push(item)) == if exists|i: int|
            0 <= i < items.len() && same(#[trigger] items[i], item) {
            distinct(items)
        } else {
            distinct(items).push(item)
        },
{
    let kept = distinct(items);
    assert(items.push(item).drop_last() =~= items);
    if exists|i: int| 0 <= i < items.len() && same(#[trigger] items[i], item) {
        let i = choose|i: int| 0 <= i < items.len() && same(#[trigger] items[i], item);
        distinct_loses_nothing(items, i);
        if kept.contains(items[i]) {
            let j = choose|j: int| 0 <= j < kept.len() && kept[j] == items[i];
            assert(same(kept[j], item));
        } else {
            let j = choose|j: int| 0 <= j < kept.len() && same(#[trigger] kept[j], items[i]);
            comparing_is_transitive(kept[j], items[i], item);
        }
        assert(has_same(kept, item));
    }
    if has_same(kept, item) {
        let j = choose|j: int| 0 <= j < kept.len() && same(#[trigger] kept[j], item);
        let places = distinct_keeps_the_order(items);
        assert(items[places[j]] == kept[j]);
        assert(same(items[places[j]], item));
    }
}

/// Joining puts the items of the second list behind those of the first, one by one, each where
/// nothing in front of it compares equal to it; and drops duplicates of the first list in the same
/// way.
pub proof fn joining_goes_item_by_item(base: Seq<Tree>, new: Seq<Tree>, item: Tree)
    ensures
        joined(Seq::<Tree>::empty(), Seq::<Tree>::empty()) == Seq::<Tree>::empty(),
        joined(base.push(item), Seq::<Tree>::empty()) == if exists|i: int|
            0 <= i < base.len() && same(#[trigger] base[i], item) {
            joined(base, Seq::<Tree>::empty())
        } else {
            joined(base, Seq::<Tree>::empty()).push(item)
        },
        joined(base, new.push(item)) == if (exists|i: int|
            0 <= i < base.len() && same(#[trigger] base[i], item)) || (exists|i: int|
            0 <= i < new.len() && same(#[trigger] new[i], item)) {
            joined(base, new)
        } else {
            joined(base, new).push(item)
        },
{
    let none = Seq::<Tree>::empty();
    let all = base + new;
    assert(none + none =~= none);
    assert(base + none =~= base);
    assert(base.push(item) + none =~= base.push(item));
    assert(base + new.push(item) =~= all.push(item));
    the_first_of_equal_items_is_kept(base, item);
    the_first_of_equal_items_is_kept(all, item);
    if exists|i: int| 0 <= i < all.len() && same(#[trigger] all[i], item) {
        let i = choose|i: int| 0 <= i < all.len() && same(#[trigger] all[i], item);
        if i < base.len() {
            assert(same(base[i], item));
        } else {
            assert(same(new[i - base.len()], item));
        }
    }
    if exists|i: int| 0 <= i < base.len() && same(#[trigger] base[i], item) {
        let i = choose|i: int| 0 <= i < base.len() && same(#[trigger] base[i], item);
        assert(same(all[i], item));
    }
    if exists|i: int| 0 <= i < new.len() && same(#[trigger] new[i], item) {
        let i = choose|i: int| 0 <= i < new.len() && same(#[trigger] new[i], item);
        assert(same(all[base.len() + i], item));
    }
}

/// A text is in the joined list just where it is in one of the two.
pub proof fn joining_keeps_every_text(base: Seq<Tree>, new: Seq<Tree>, text: Seq<char>)
    ensures
        joined(base, new).contains(Tree::Text(text)) <==> (base.contains(Tree::Text(text))
            || new.contains(Tree::Text(text))),
{
    let item = Tree::Text(text);
    let all = base + new;
    let kept = joined(base, new);
    if base.contains(item) || new.contains(item) {
        let i = if base.contains(item) {
            choose|i: int| 0 <= i < base.len() && base[i] == item
        } else {
            base.len() + choose|i: int| 0 <= i < new.len() && new[i] == item
        };
        assert(all[i] == item);
        distinct_loses_nothing(all, i);
        if !kept.contains(item) {
            let j = choose|j: int| 0 <= j < kept.len() && same(#[trigger] kept[j], item);
            assert(kept[j] == item);
        }
    }
    if kept.contains(item) {
        let j = choose|j: int| 0 <= j < kept.len() && kept[j] == item;
        let places = distinct_keeps_the_order(all);
        assert(all[places[j]] == item);
        if places[j] < base.len() {
            assert(base[places[j]] == item);
        } else {
            assert(new[places[j] - base.len()] == item);
        }
    }
}

/// Of two values under one key, tables are merged, lists are joined, and otherwise the new one is
/// taken.
pub proof fn merging_two_values(base: Tree, new: Tree)
    ensures
        match (base, new) {
            (Tree::Table(b), Tree::Table(n)) => merged_value(base, new) == Tree::Table(merged(b, n)),
            (Tree::Array(b), Tree::Array(n)) => merged_value(base, new) == Tree::Array(joined(b, n)),
            _ => merged_value(base, new) == new,
        },
{
}

} // verus!
