//! Configuration values: strings, numbers, dates, arrays and tables.
use vstd::prelude::*;

verus! {

/// A calendar date.
#[derive(Clone, Copy, Debug, PartialEq, Eq, Structural)]
pub struct Date {
    pub year: u16,
    pub month: u8,
    pub day: u8,
}

/// A time of day.
#[derive(Clone, Copy, Debug, PartialEq, Eq, Structural)]
pub struct Time {
    pub hour: u8,
    pub minute: u8,
    pub second: u8,
    pub nanosecond: u32,
}

/// How far local time is from UTC: written as `Z`, or as a number of minutes.
#[derive(Clone, Copy, Debug, PartialEq, Eq, Structural)]
pub enum Offset {
    Z,
    Minutes(i16),
}

/// A date, a time of day and an offset, as far as they are given.
#[derive(Clone, Copy, Debug, PartialEq, Eq, Structural)]
pub struct DateAndTime {
    pub date: Option<Date>,
    pub time: Option<Time>,
    pub offset: Option<Offset>,
}

/// What a table holds: a value for each of its keys.
pub type TableView = Map<Seq<char>, Tree>;

/// What a [`ConfigValue`] holds.
///
/// A float is given by the bits of its 64-bit representation.
pub enum Tree {
    Text(Seq<char>),
    Integer(i64),
    Float(u64),
    Boolean(bool),
    Datetime(DateAndTime),
    Array(Seq<Tree>),
    Table(TableView),
}

/// One value of a connection map.
///
/// A float is kept as the bits of its 64-bit representation.
#[derive(Debug)]
pub enum ConfigValue {
    Text(String),
    Integer(i64),
    Float(u64),
    Boolean(bool),
    Datetime(DateAndTime),
    Array(Vec<ConfigValue>),
    Table(Table),
}

/// A table: values by key, kept in the order of the keys.
#[verifier::external_body]
#[derive(Debug)]
pub struct Table {
    entries: toml::map::Map<String, ConfigValue>,
}

/// The value that a [`Table`] holds for each of its keys.
pub uninterp spec fn table_contents(table: Table) -> Map<Seq<char>, Tree>;

impl View for Table {
    type V = TableView;

    open spec fn view(&self) -> TableView {
        table_contents(*self)
    }
}

impl ConfigValue {
    /// What the value holds.
    pub open spec fn tree(self) -> Tree
        decreases self,
    {
        match self {
            ConfigValue::Text(text) => Tree::Text(text@),
            ConfigValue::Integer(n) => Tree::Integer(n),
            ConfigValue::Float(bits) => Tree::Float(bits),
            ConfigValue::Boolean(b) => Tree::Boolean(b),
            ConfigValue::Datetime(d) => Tree::Datetime(d),
            ConfigValue::Array(items) => Tree::Array(
                Seq::new(
                    items@.len(),
                    |i: int|
                        if 0 <= i < items@.len() {
                            items@[i].tree()
                        } else {
                            arbitrary()
                        },
                ),
            ),
            ConfigValue::Table(table) => Tree::Table(table@),
        }
    }
}

impl View for ConfigValue {
    type V = Tree;

    open spec fn view(&self) -> Tree {
        self.tree()
    }
}

/// What each value of a list holds.
pub open spec fn trees(items: Seq<ConfigValue>) -> Seq<Tree> {
    items.map_values(|v: ConfigValue| v@)
}

/// An array holds what its items hold.
pub proof fn lemma_array_view(value: ConfigValue)
    ensures
        value matches ConfigValue::Array(items) ==> value@ == Tree::Array(trees(items@)),
{
    if let ConfigValue::Array(items) = value {
        assert(value@->Array_0 =~= trees(items@));
    }
}

/// `a` and `b` agree before position `at`, and there `a` ends or has the lesser character.
pub open spec fn parts_at(a: Seq<char>, b: Seq<char>, at: int) -> bool {
    &&& 0 <= at <= a.len()
    &&& at < b.len()
    &&& forall|i: int| 0 <= i < at ==> a[i] == b[i]
    &&& at == a.len() || (a[at] as int) < (b[at] as int)
}

/// `a` comes before `b` in the order of texts: character by character, the shorter first.
pub open spec fn precedes(a: Seq<char>, b: Seq<char>) -> bool {
    exists|at: int| parts_at(a, b, at)
}

/// `keys` lists every key of `all` once, in order.
pub open spec fn lists_in_order(keys: Seq<Seq<char>>, all: Set<Seq<char>>) -> bool {
    &&& forall|i: int, j: int| 0 <= i < j < keys.len() ==> precedes(keys[i], keys[j])
    &&& forall|i: int| 0 <= i < keys.len() ==> all.contains(#[trigger] keys[i])
    &&& forall|key: Seq<char>| all.contains(key) ==> keys.contains(key)
}

/// The keys of a list of entries.
pub open spec fn keys_of(entries: Seq<(Seq<char>, Tree)>) -> Seq<Seq<char>> {
    entries.map_values(|e: (Seq<char>, Tree)| e.0)
}

/// `entries` lists every entry of `table` once, in the order of the keys.
pub open spec fn enumerates(entries: Seq<(Seq<char>, Tree)>, table: TableView) -> bool {
    &&& lists_in_order(keys_of(entries), table.dom())
    &&& forall|i: int| 0 <= i < entries.len() ==> table[(#[trigger] entries[i]).0] == entries[i].1
}

/// The entries of `table` in the order of its keys.
pub open spec fn ordered(table: TableView) -> Seq<(Seq<char>, Tree)> {
    choose|entries: Seq<(Seq<char>, Tree)>| enumerates(entries, table)
}

/// What a list of owned entries holds.
pub open spec fn entry_views(entries: Seq<(String, ConfigValue)>) -> Seq<(Seq<char>, Tree)> {
    entries.map_values(|e: (String, ConfigValue)| (e.0@, e.1@))
}

/// What a list of borrowed entries holds.
pub open spec fn entry_ref_views(entries: Seq<(&String, &ConfigValue)>) -> Seq<(Seq<char>, Tree)> {
    entries.map_values(|e: (&String, &ConfigValue)| (e.0@, e.1@))
}

/// Of two texts at most one comes before the other, and none before itself.
pub proof fn precedes_is_strict(a: Seq<char>, b: Seq<char>)
    ensures
        !(precedes(a, b) && precedes(b, a)),
        !precedes(a, a),
{
    if precedes(a, b) && precedes(b, a) {
        let n = choose|at: int| parts_at(a, b, at);
        let m = choose|at: int| parts_at(b, a, at);
        if n < m {
            assert(b[n] == a[n]);
        } else if m < n {
            assert(a[m] == b[m]);
        }
    }
    if precedes(a, a) {
        let n = choose|at: int| parts_at(a, a, at);
        assert(parts_at(a, a, n));
    }
}

proof fn lemma_same_listing(a: Seq<Seq<char>>, b: Seq<Seq<char>>, all: Set<Seq<char>>, n: int)
    requires
        lists_in_order(a, all),
        lists_in_order(b, all),
        0 <= n <= a.len(),
    ensures
        n <= b.len(),
        a.take(n) == b.take(n),
    decreases n,
{
    if n > 0 {
        let i = n - 1;
        lemma_same_listing(a, b, all, i);
        assert forall|j: int| 0 <= j < i implies a[j] == b[j] by {
            assert(a.take(i)[j] == b.take(i)[j]);
        }
        assert(all.contains(a[i]));
        let there = choose|j: int| 0 <= j < b.len() && b[j] == a[i];
        if there < i {
            assert(a[there] == b[there]);
            precedes_is_strict(a[there], a[i]);
        }
        if there > i {
            assert(precedes(b[i], b[there]));
            assert(all.contains(b[i]));
            let back = choose|j: int| 0 <= j < a.len() && a[j] == b[i];
            if back < i {
                assert(a[back] == b[back]);
                precedes_is_strict(b[back], b[i]);
            } else if back > i {
                assert(precedes(a[i], a[back]));
                precedes_is_strict(a[i], b[i]);
            } else {
                precedes_is_strict(b[i], b[there]);
            }
        }
        assert(a.take(n) =~= b.take(n));
    }
}

/// A set of keys has one listing in order.
pub proof fn listing_is_unique(a: Seq<Seq<char>>, b: Seq<Seq<char>>, all: Set<Seq<char>>)
    requires
        lists_in_order(a, all),
        lists_in_order(b, all),
    ensures
        a == b,
{
    lemma_same_listing(a, b, all, a.len() as int);
    lemma_same_listing(b, a, all, b.len() as int);
    assert(a.take(a.len() as int) =~= a);
    assert(b.take(b.len() as int) =~= b);
}

/// What can be listed is finite.
pub proof fn listed_is_finite(keys: Seq<Seq<char>>, all: Set<Seq<char>>)
    requires
        lists_in_order(keys, all),
    ensures
        all.finite(),
{
    vstd::seq_lib::seq_to_set_is_finite(keys);
    assert(keys.to_set() =~= all);
}

/// A table has one list of its entries in the order of the keys.
pub proof fn enumeration_is_unique(entries: Seq<(Seq<char>, Tree)>, table: TableView)
    requires
        enumerates(entries, table),
    ensures
        entries == ordered(table),
{
    let other = ordered(table);
    listing_is_unique(keys_of(entries), keys_of(other), table.dom());
    assert forall|i: int| 0 <= i < entries.len() implies entries[i] == other[i] by {
        assert(keys_of(entries)[i] == keys_of(other)[i]);
    }
    assert(keys_of(entries).len() == keys_of(other).len());
    assert(entries =~= other);
}

impl Table {
    /// A table without entries: `toml::map::Map::new`.
    ///
    /// Trusted: the new map holds no key.
    #[verifier::external_body]
    pub(crate) fn new() -> (table: Table)
        ensures
            table_contents(table) == TableView::empty(),
    {
        Table { entries: toml::map::Map::new() }
    }

    /// Puts `value` under `key`: `toml::map::Map::insert`.
    ///
    /// Trusted: afterwards `key` has the new value, in place of one that it had before, and
    /// every other key has what it had.
    #[verifier::external_body]
    pub(crate) fn insert(&mut self, key: String, value: ConfigValue)
        ensures
            table_contents(*final(self)) == table_contents(*old(self)).insert(key@, value@),
    {
        self.entries.insert(key, value);
    }

    /// Takes the entry of `key` out: `toml::map::Map::remove`.
    ///
    /// Trusted: the value of `key` is handed back where there was one, and every other key has
    /// what it had.
    #[verifier::external_body]
    pub(crate) fn remove(&mut self, key: &str) -> (removed: Option<ConfigValue>)
        ensures
            table_contents(*final(self)) == table_contents(*old(self)).remove(key@),
            match removed {
                Some(value) => table_contents(*old(self)).contains_key(key@) && value@
                    == table_contents(*old(self))[key@],
                None => !table_contents(*old(self)).contains_key(key@),
            },
    {
        self.entries.remove(key)
    }

    /// The entries by value: `toml::map::Map::into_iter`.
    ///
    /// Trusted: every entry comes once, in the lexicographic order of the keys, which is how
    /// the map keeps them without its `preserve_order` feature.
    #[verifier::external_body]
    pub(crate) fn into_entries(self) -> (entries: Vec<(String, ConfigValue)>)
        ensures
            enumerates(entry_views(entries@), table_contents(self)),
    {
        self.entries.into_iter().collect()
    }

    /// The entries by reference: `toml::map::Map::iter`.
    ///
    /// Trusted: every entry comes once, in the lexicographic order of the keys, which is how
    /// the map keeps them without its `preserve_order` feature.
    #[verifier::external_body]
    pub(crate) fn entries(&self) -> (entries: Vec<(&String, &ConfigValue)>)
        ensures
            enumerates(entry_ref_views(entries@), table_contents(*self)),
    {
        self.entries.iter().collect()
    }

    /// The value of `key`, where there is one.
    pub fn get(&self, key: &str) -> (found: Option<&ConfigValue>)
        ensures
            match found {
                Some(value) => self@.contains_key(key@) && value@ == self@[key@],
                None => !self@.contains_key(key@),
            },
    {
        let wanted = key.to_string();
        let entries = self.entries();
        let ghost all = entry_ref_views(entries@);
        let mut i: usize = 0;
        while i < entries.len()
            invariant
                i <= entries.len(),
                all == entry_ref_views(entries@),
                enumerates(all, self@),
                wanted@ == key@,
                forall|j: int| 0 <= j < i ==> keys_of(all)[j] != key@,
            decreases entries.len() - i,
        {
            let (name, value) = entries[i];
            assert(all[i as int] == (name@, value@));
            assert(keys_of(all)[i as int] == name@);
            if *name == wanted {
                return Some(value);
            }
            i = i + 1;
        }
        None
    }

    /// A table that holds the same.
    pub fn copy(&self) -> (table: Table)
        ensures
            table@ == self@,
        decreases self@,
    {
        let entries = self.entries();
        let ghost all = entry_ref_views(entries@);
        let ghost keys = keys_of(all);
        proof {
            listed_is_finite(keys, self@.dom());
        }
        let mut table = Table::new();
        let mut i: usize = 0;
        while i < entries.len()
            invariant
                i <= entries.len(),
                all == entry_ref_views(entries@),
                keys == keys_of(all),
                enumerates(all, self@),
                self@.dom().finite(),
                forall|key: Seq<char>| #[trigger]
                    table@.contains_key(key) ==> self@.contains_key(key) && table@[key]
                        == self@[key],
                forall|j: int| 0 <= j < i ==> table@.contains_key(#[trigger] keys[j]),
            decreases entries.len() - i,
        {
            let (key, value) = entries[i];
            assert(all[i as int] == (key@, value@));
            assert(keys[i as int] == key@);
            assert(self@.contains_key(key@) && self@[key@] == value@);
            assert(decreases_to!(self@ => self@[key@]));
            let ghost before = table@;
            table.insert(key.clone(), value.copy());
            assert forall|j: int| 0 <= j < i implies table@.contains_key(#[trigger] keys[j]) by {
                assert(before.contains_key(keys[j]));
            }
            i = i + 1;
        }
        assert forall|key: Seq<char>| self@.contains_key(key) implies table@.contains_key(key) by {
            let j = choose|j: int| 0 <= j < keys.len() && keys[j] == key;
            assert(table@.contains_key(keys[j]));
        }
        assert(table@ =~= self@);
        table
    }
}

impl ConfigValue {
    /// A value that holds the same.
    pub fn copy(&self) -> (value: ConfigValue)
        ensures
            value@ == self@,
        decreases self@,
    {
        match self {
            ConfigValue::Text(text) => ConfigValue::Text(text.clone()),
            ConfigValue::Integer(n) => ConfigValue::Integer(*n),
            ConfigValue::Float(bits) => ConfigValue::Float(*bits),
            ConfigValue::Boolean(b) => ConfigValue::Boolean(*b),
            ConfigValue::Datetime(d) => ConfigValue::Datetime(*d),
            ConfigValue::Array(items) => {
                proof {
                    lemma_array_view(*self);
                    assert(decreases_to!(self@ => self@->Array_0));
                }
                let copies = copy_items(items);
                proof {
                    lemma_array_view(ConfigValue::Array(copies));
                }
                ConfigValue::Array(copies)
            },
            ConfigValue::Table(table) => {
                assert(decreases_to!(self@ => self@->Table_0));
                ConfigValue::Table(table.copy())
            },
        }
    }
}

/// Values that hold the same.
fn copy_items(items: &Vec<ConfigValue>) -> (copies: Vec<ConfigValue>)
    ensures
        trees(copies@) == trees(items@),
    decreases trees(items@),
{
    let ghost all = trees(items@);
    let mut copies: Vec<ConfigValue> = Vec::new();
    let mut i: usize = 0;
    while i < items.len()
        invariant
            i <= items.len(),
            all == trees(items@),
            trees(copies@) == all.take(i as int),
        decreases items.len() - i,
    {
        assert(all[i as int] == items@[i as int]@);
        let ghost before = trees(copies@);
        let copy = items[i].copy();
        copies.push(copy);
        assert(trees(copies@) =~= before.push(all[i as int]));
        assert(all.take(i + 1) =~= all.take(i as int).push(all[i as int]));
        i = i + 1;
    }
    assert(all.take(all.len() as int) =~= all);
    copies
}

} // verus!
