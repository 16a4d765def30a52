//! Reading TOML text into tables.
use vstd::prelude::*;

use crate::value::{
    enumerates, keys_of, lemma_array_view, listed_is_finite, trees, ConfigValue, Date, DateAndTime,
    Offset, Table, TableView, Time, Tree,
};

verus! {

/// A TOML value as the `toml` crate holds it.
#[verifier::external_type_specification]
#[verifier::external_body]
pub struct ExTomlValue(toml::Value);

/// A date, a time of day and an offset as the `toml` crate holds them.
#[verifier::external_type_specification]
#[verifier::external_body]
pub struct ExTomlDatetime(toml::value::Datetime);

/// What a `toml::value::Datetime` holds.
pub uninterp spec fn toml_datetime(datetime: toml::value::Datetime) -> DateAndTime;

/// What a `toml::Value` holds.
pub uninterp spec fn toml_tree(value: toml::Value) -> Tree;

/// What a TOML document says, or the message with which it is refused: the result of
/// `toml::from_str` for a `toml::Table`.
pub uninterp spec fn toml_document(text: Seq<char>) -> Result<Map<Seq<char>, Tree>, Seq<char>>;

/// A TOML value with its outermost layer taken apart.
pub enum Layer {
    Text(String),
    Integer(i64),
    Float(u64),
    Boolean(bool),
    Datetime(toml::value::Datetime),
    Array(Vec<toml::Value>),
    Table(Vec<(String, toml::Value)>),
}

/// What each of a list of TOML values holds.
pub open spec fn toml_trees(items: Seq<toml::Value>) -> Seq<Tree> {
    items.map_values(|v: toml::Value| toml_tree(v))
}

/// What a list of keys with TOML values holds.
pub open spec fn toml_entries(entries: Seq<(String, toml::Value)>) -> Seq<(Seq<char>, Tree)> {
    entries.map_values(|e: (String, toml::Value)| (e.0@, toml_tree(e.1)))
}

impl Layer {
    /// The layer is the outermost one of `tree`, with everything below it in place.
    pub open spec fn of(self, tree: Tree) -> bool {
        match self {
            Layer::Text(text) => tree == Tree::Text(text@),
            Layer::Integer(n) => tree == Tree::Integer(n),
            Layer::Float(bits) => tree == Tree::Float(bits),
            Layer::Boolean(b) => tree == Tree::Boolean(b),
            Layer::Datetime(d) => tree == Tree::Datetime(toml_datetime(d)),
            Layer::Array(items) => tree == Tree::Array(toml_trees(items@)),
            Layer::Table(entries) => tree is Table && enumerates(
                toml_entries(entries@),
                tree->Table_0,
            ),
        }
    }
}

/// Takes a `toml::Value` apart.
///
/// Trusted: the variants of the enum are told apart and their fields moved; a float is given
/// by `f64::to_bits`, and a table by `toml::map::Map::into_iter`, which hands out each entry
/// once in the lexicographic order of the keys.
#[verifier::external_body]
fn open(value: toml::Value) -> (layer: Layer)
    ensures
        layer.of(toml_tree(value)),
{
    match value {
        toml::Value::String(text) => Layer::Text(text),
        toml::Value::Integer(n) => Layer::Integer(n),
        toml::Value::Float(x) => Layer::Float(x.to_bits()),
        toml::Value::Boolean(b) => Layer::Boolean(b),
        toml::Value::Datetime(d) => Layer::Datetime(d),
        toml::Value::Array(items) => Layer::Array(items),
        toml::Value::Table(table) => Layer::Table(table.into_iter().collect()),
    }
}

/// Takes a `toml::value::Datetime` apart.
///
/// Trusted: the fields of the struct, all of them public, are moved one by one.
#[verifier::external_body]
fn open_datetime(datetime: toml::value::Datetime) -> (result: DateAndTime)
    ensures
        result == toml_datetime(datetime),
{
    DateAndTime {
        date: datetime.date.map(|x| Date { year: x.year, month: x.month, day: x.day }),
        time: datetime.time.map(
            |x| Time { hour: x.hour, minute: x.minute, second: x.second, nanosecond: x.nanosecond },
        ),
        offset: match datetime.offset {
            Some(toml::value::Offset::Z) => Some(Offset::Z),
            Some(toml::value::Offset::Custom { minutes }) => Some(Offset::Minutes(minutes)),
            None => None,
        },
    }
}

/// Parses a TOML document: `toml::from_str` for a `toml::Table`.
///
/// Trusted: the result depends on the text alone, but for the bits of a NaN, which are those of
/// the target the library is built for. A table comes by `toml::map::Map::into_iter`, each entry
/// once in the lexicographic order of the keys; an error comes as its message.
#[verifier::external_body]
fn parse(text: &str) -> (parsed: Result<Vec<(String, toml::Value)>, String>)
    ensures
        match parsed {
            Ok(entries) => toml_document(text@) is Ok && enumerates(
                toml_entries(entries@),
                toml_document(text@)->Ok_0,
            ),
            Err(message) => toml_document(text@) == Err::<Map<Seq<char>, Tree>, Seq<char>>(
                message@,
            ),
        },
{
    match toml::from_str::<toml::Table>(text) {
        Ok(table) => Ok(table.into_iter().collect()),
        Err(error) => Err(error.to_string()),
    }
}

/// The value that a `toml::Value` holds.
pub fn value_from_toml(value: toml::Value) -> (result: ConfigValue)
    ensures
        result@ == toml_tree(value),
    decreases toml_tree(value),
{
    let ghost tree = toml_tree(value);
    match open(value) {
        Layer::Text(text) => ConfigValue::Text(text),
        Layer::Integer(n) => ConfigValue::Integer(n),
        Layer::Float(bits) => ConfigValue::Float(bits),
        Layer::Boolean(b) => ConfigValue::Boolean(b),
        Layer::Datetime(d) => ConfigValue::Datetime(open_datetime(d)),
        Layer::Array(items) => {
            assert(decreases_to!(tree => tree->Array_0));
            let values = values_from_toml(items);
            proof {
                lemma_array_view(ConfigValue::Array(values));
            }
            ConfigValue::Array(values)
        },
        Layer::Table(entries) => {
            assert(decreases_to!(tree => tree->Table_0));
            ConfigValue::Table(table_from_toml(entries, Ghost(tree->Table_0)))
        },
    }
}

/// The values that a list of `toml::Value`s holds.
fn values_from_toml(items: Vec<toml::Value>) -> (values: Vec<ConfigValue>)
    ensures
        trees(values@) == toml_trees(items@),
    decreases toml_trees(items@),
{
    let ghost list = items@;
    let mut values: Vec<ConfigValue> = Vec::new();
    for item in it: items
        invariant
            it.seq() == list,
            list == items@,
            trees(values@) == toml_trees(list).take(it.index()),
    {
        let ghost i = it.index();
        assert(toml_trees(list)[i] == toml_tree(item));
        let ghost sofar = trees(values@);
        let value = value_from_toml(item);
        values.push(value);
        assert(trees(values@) =~= sofar.push(toml_tree(item)));
        assert(toml_trees(list).take(i + 1) =~= toml_trees(list).take(i).push(toml_tree(item)));
    }
    assert(toml_trees(list).take(list.len() as int) =~= toml_trees(list));
    values
}

/// The table whose entries are these.
fn table_from_toml(entries: Vec<(String, toml::Value)>, Ghost(table): Ghost<TableView>) -> (result:
    Table)
    requires
        enumerates(toml_entries(entries@), table),
    ensures
        result@ == table,
    decreases table,
{
    let ghost raw = entries@;
    let ghost list = toml_entries(raw);
    proof {
        listed_is_finite(keys_of(list), table.dom());
    }
    let mut result = Table::new();
    for entry in it: entries
        invariant
            it.seq() == raw,
            list == toml_entries(raw),
            enumerates(list, table),
            table.dom().finite(),
            forall|key: Seq<char>| #[trigger]
                result@.contains_key(key) <==> keys_of(list).take(it.index()).contains(key),
            forall|key: Seq<char>| #[trigger]
                result@.contains_key(key) ==> table.contains_key(key) && result@[key] == table[key],
    {
        let ghost i = it.index();
        let (key, inner) = entry;
        let ghost name = key@;
        let ghost done = keys_of(list).take(i);
        proof {
            assert(list[i] == (key@, toml_tree(inner)));
            assert(keys_of(list)[i] == key@);
            assert(table.contains_key(key@) && table[key@] == toml_tree(inner));
            assert(decreases_to!(table => table[key@]));
            assert(keys_of(list).take(i + 1) =~= done.push(name));
        }
        let ghost held = result@;
        let value = value_from_toml(inner);
        result.insert(key, value);
        assert(result@ == held.insert(name, table[name]));
        assert forall|k: Seq<char>| done.push(name).contains(k) <==> done.contains(k) || k
            == name by {
            if done.contains(k) {
                let j = choose|j: int| 0 <= j < done.len() && done[j] == k;
                assert(done.push(name)[j] == k);
            }
            assert(done.push(name)[done.len() as int] == name);
        }
        assert forall|k: Seq<char>| #[trigger] result@.contains_key(k) <==> keys_of(list).take(
            i + 1,
        ).contains(k) by {
            assert(held.contains_key(k) <==> done.contains(k));
        }
    }
    let ghost all = keys_of(list);
    assert(all.take(all.len() as int) =~= all);
    assert(result@ =~= table);
    result
}

/// Reads a TOML document.
pub fn parse_table(text: &str) -> (parsed: Result<Table, String>)
    ensures
        match parsed {
            Ok(table) => toml_document(text@) == Ok::<TableView, Seq<char>>(table@),
            Err(message) => toml_document(text@) == Err::<TableView, Seq<char>>(message@),
        },
{
    match parse(text) {
        Ok(entries) => Ok(table_from_toml(entries, Ghost(toml_document(text@)->Ok_0))),
        Err(message) => Err(message),
    }
}

} // verus!
