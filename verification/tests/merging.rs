use audio_connector::document::{parse_table, value_from_toml};
use audio_connector::merge::{join_items, merge_table, merge_value};
use audio_connector::value::{ConfigValue, Date, DateAndTime, Offset, Table, Time};

fn table(text: &str) -> Table {
    parse_table(text).unwrap()
}

fn merged(base: &str, new: &str) -> Table {
    let mut base = table(base);
    merge_table(&mut base, table(new));
    base
}

fn array_len(t: &Table, key: &str) -> usize {
    match t.get(key) {
        Some(ConfigValue::Array(items)) => items.len(),
        _ => panic!("no array '{key}'"),
    }
}

#[test]
fn every_kind_of_value_is_read() {
    let t = table(
        "s = 'x'\ni = -4\nf = 1.5\nb = true\nd = 1979-05-27T07:32:00.5-07:00\nz = 1979-05-27T07:32:01Z\na = [1]\n[t]\nk = 2\n",
    );
    assert!(matches!(t.get("s"), Some(ConfigValue::Text(s)) if s == "x"));
    assert!(matches!(t.get("i"), Some(ConfigValue::Integer(-4))));
    match t.get("f") {
        Some(ConfigValue::Float(bits)) => assert_eq!(f64::from_bits(*bits), 1.5),
        _ => panic!("no float"),
    }
    assert!(matches!(t.get("b"), Some(ConfigValue::Boolean(true))));
    match t.get("d") {
        Some(ConfigValue::Datetime(d)) => assert_eq!(
            *d,
            DateAndTime {
                date: Some(Date { year: 1979, month: 5, day: 27 }),
                time: Some(Time { hour: 7, minute: 32, second: 0, nanosecond: 500_000_000 }),
                offset: Some(Offset::Minutes(-420)),
            }
        ),
        _ => panic!("no datetime"),
    }
    match t.get("z") {
        Some(ConfigValue::Datetime(d)) => assert_eq!(d.offset, Some(Offset::Z)),
        _ => panic!("no datetime"),
    }
    assert_eq!(array_len(&t, "a"), 1);
    match t.get("t") {
        Some(ConfigValue::Table(inner)) => {
            assert!(matches!(inner.get("k"), Some(ConfigValue::Integer(2))));
            assert!(inner.get("s").is_none());
        }
        _ => panic!("no table"),
    }
    assert!(t.get("k").is_none());
}

#[test]
fn a_document_that_is_not_toml_is_refused() {
    let message = parse_table("a = = 1").unwrap_err();
    assert!(message.contains("TOML parse error"), "unexpected message: {message}");
}

#[test]
fn single_values_are_read() {
    assert!(matches!(value_from_toml(toml::Value::Integer(7)), ConfigValue::Integer(7)));
    match value_from_toml(toml::Value::Array(vec![toml::Value::Boolean(false)])) {
        ConfigValue::Array(items) => assert!(matches!(items[0], ConfigValue::Boolean(false))),
        _ => panic!("no array"),
    }
}

#[test]
fn merging_adds_keys_of_both() {
    let t = merged("a = 1\n", "b = 2\n");
    assert!(matches!(t.get("a"), Some(ConfigValue::Integer(1))));
    assert!(matches!(t.get("b"), Some(ConfigValue::Integer(2))));
}

#[test]
fn merging_replaces_scalars_and_mismatches() {
    assert!(matches!(merged("a = 1\n", "a = 2\n").get("a"), Some(ConfigValue::Integer(2))));
    assert!(matches!(merged("a = [1]\n", "a = 2\n").get("a"), Some(ConfigValue::Integer(2))));
    assert_eq!(array_len(&merged("a = 1\n", "a = [2, 3]\n"), "a"), 2);
    assert!(matches!(merged("[a]\nk = 1\n", "a = 2\n").get("a"), Some(ConfigValue::Integer(2))));
}

#[test]
fn merging_recurses_into_tables() {
    let t = merged("[a.b]\nx = [1]\n", "[a.b]\nx = [2]\ny = 3\n");
    let a = match t.get("a") {
        Some(ConfigValue::Table(a)) => a,
        _ => panic!("no table"),
    };
    let b = match a.get("b") {
        Some(ConfigValue::Table(b)) => b,
        _ => panic!("no table"),
    };
    assert_eq!(array_len(b, "x"), 2);
    assert!(matches!(b.get("y"), Some(ConfigValue::Integer(3))));
}

#[test]
fn joined_lists_have_no_duplicates() {
    let t = merged("out = ['b', 'b']\n", "out = ['a', 'b']\n");
    match t.get("out") {
        Some(ConfigValue::Array(items)) => {
            assert_eq!(items.len(), 2);
            assert!(matches!(&items[0], ConfigValue::Text(s) if s == "b"));
            assert!(matches!(&items[1], ConfigValue::Text(s) if s == "a"));
        }
        _ => panic!("no array"),
    }
    assert_eq!(array_len(&merged("a = [1, 1]\n", "a = [1, 2, 2]\n"), "a"), 2);
    assert_eq!(array_len(&merged("a = [1, 1]\n", "a = []\n"), "a"), 1);
}

#[test]
fn equality_looks_inside_arrays_and_tables() {
    assert_eq!(array_len(&merged("a = [[1, 2]]\n", "a = [[1, 2], [2, 1], [1]]\n"), "a"), 3);
    assert_eq!(
        array_len(&merged("a = [{x = 1, y = 2}]\n", "a = [{y = 2, x = 1}, {x = 1}, {x = 1, y = 3}, {x = 1, z = 2}]\n"), "a"),
        4
    );
    assert_eq!(array_len(&merged("a = ['1']\n", "a = [1, '1', true]\n"), "a"), 3);
    assert_eq!(
        array_len(&merged("a = [1979-05-27]\n", "a = [1979-05-27, 1979-05-28]\n"), "a"),
        2
    );
}

#[test]
fn equality_of_floats() {
    // The zeros are equal, and no NaN equals anything.
    assert_eq!(array_len(&merged("a = [0.0]\n", "a = [-0.0, 1.0, 1.0]\n"), "a"), 2);
    assert_eq!(array_len(&merged("a = [nan]\n", "a = [nan]\n"), "a"), 2);
    assert_eq!(array_len(&merged("a = [inf]\n", "a = [inf, -inf]\n"), "a"), 2);
    assert_eq!(array_len(&merged("a = [1.0]\n", "a = [1]\n"), "a"), 2);
}

#[test]
fn merging_again_changes_nothing() {
    let mut t = merged("a = [1]\n", "a = [2]\nb = 3\n");
    merge_table(&mut t, table("a = [2]\nb = 3\n"));
    assert_eq!(array_len(&t, "a"), 2);
    assert!(matches!(t.get("b"), Some(ConfigValue::Integer(3))));
}

#[test]
fn merging_again_can_change_lists_that_were_taken_over() {
    // Nothing was joined the first time, so that the duplicates go the second time.
    let mut t = merged("", "a = [1, 1]\n");
    assert_eq!(array_len(&t, "a"), 2);
    merge_table(&mut t, table("a = [1, 1]\n"));
    assert_eq!(array_len(&t, "a"), 1);
    // No NaN is found again.
    let mut t = merged("a = [1]\n", "a = [nan]\n");
    merge_table(&mut t, table("a = [nan]\n"));
    assert_eq!(array_len(&t, "a"), 3);
}

#[test]
fn copies_hold_the_same() {
    let t = table("x = [1, ['a'], {k = 1.5}]\nd = 1979-05-27\n[c]\nb = true\n");
    let copy = t.copy();
    assert_eq!(format!("{t:?}"), format!("{copy:?}"));
    assert_eq!(format!("{:?}", t.get("x").unwrap().copy()), format!("{:?}", t.get("x").unwrap()));
}

#[test]
fn merging_nothing_changes_nothing() {
    assert_eq!(array_len(&merged("a = [1]\n", ""), "a"), 1);
    assert_eq!(array_len(&merged("", "a = [1, 1]\n"), "a"), 2);
}

#[test]
fn values_and_items_merge_on_their_own() {
    let value = merge_value(ConfigValue::Integer(1), ConfigValue::Boolean(true));
    assert!(matches!(value, ConfigValue::Boolean(true)));
    let mut items = vec![ConfigValue::Integer(1)];
    join_items(&mut items, vec![ConfigValue::Integer(1), ConfigValue::Integer(2)]);
    assert_eq!(items.len(), 2);
    assert!(matches!(items[1], ConfigValue::Integer(2)));
}
