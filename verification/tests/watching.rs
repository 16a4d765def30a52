use audio_connector::settings::{env_ms, parse_number, settings_from_env_and_args};
use audio_connector::text::{after_prefix, holds};
use audio_connector::watch::{Dirty, Task, Watch};

fn text(s: &str) -> Option<String> {
    Some(s.to_string())
}

#[test]
fn the_flag_is_set_and_cleared() {
    let mut dirty = Dirty::default();
    assert!(!dirty.wait_and_clear());
    dirty.mark();
    dirty.mark();
    assert!(dirty.wait_and_clear());
    assert!(!dirty.wait_and_clear());
    dirty.mark();
    dirty.clear();
    assert!(!dirty.wait_and_clear());
}

#[test]
fn the_loop_reconciles_until_nothing_changes() {
    let mut watch = Watch::new(500, 3000);
    assert_eq!(watch.next(false, false), Task::Reconcile);
    // The initial pass is not repeated.
    assert_eq!(watch.next(true, false), Task::AwaitChange);
    assert_eq!(watch.next(false, false), Task::Sleep(500));
    assert_eq!(watch.next(false, false), Task::Reconcile);
    assert_eq!(watch.next(true, false), Task::Sleep(3000));
    assert_eq!(watch.next(false, false), Task::ClearFlag);
    assert_eq!(watch.next(false, false), Task::Reconcile);
    assert_eq!(watch.next(false, false), Task::AwaitChange);
}

#[test]
fn the_loop_stops_when_asked() {
    let mut watch = Watch::new(1, 2);
    watch.next(false, false);
    watch.next(false, false);
    assert_eq!(watch.next(false, true), Task::ShutDown);
    assert_eq!(watch.next(false, false), Task::ShutDown);

    // Asked during the cooldown, it makes one more pass.
    let mut watch = Watch::new(1, 2);
    for changed in [false, false, false, false, true] {
        watch.next(changed, false);
    }
    assert_eq!(watch.next(false, true), Task::ClearFlag);
    assert_eq!(watch.next(false, true), Task::Reconcile);
    assert_eq!(watch.next(true, true), Task::ShutDown);
}

#[test]
fn settings_have_defaults() {
    let s = settings_from_env_and_args(None, None, None, None, None);
    assert_eq!(s.config_path, "/etc/audio-connector/connections.toml");
    assert_eq!(s.client_name, "audio-connector");
    assert_eq!(s.debounce, 500);
    assert_eq!(s.cooldown, 3000);
}

#[test]
fn the_argument_overrides_the_variable() {
    let s = settings_from_env_and_args(text("a"), text("b"), text("c"), text("7"), text("8"));
    assert_eq!(s.config_path, "a");
    assert_eq!(s.client_name, "c");
    assert_eq!(s.debounce, 7);
    assert_eq!(s.cooldown, 8);
    let s = settings_from_env_and_args(None, text("b"), None, text("x"), text(""));
    assert_eq!(s.config_path, "b");
    assert_eq!(s.debounce, 500);
    assert_eq!(s.cooldown, 3000);
}

#[test]
fn numbers_of_milliseconds() {
    for given in [
        "0", "42", "+42", "007", "", "+", "-1", "-0", "++1", "1 ", " 1", "1_000", "1e3", "\u{663}",
        "18446744073709551615", "18446744073709551616", "99999999999999999999",
        "000000000000000000000000001",
    ] {
        assert_eq!(parse_number(given), given.parse::<u64>().ok(), "of '{given}'");
    }
    assert_eq!(parse_number("18446744073709551615"), Some(u64::MAX));
    assert_eq!(env_ms(text("12"), 5), 12);
    assert_eq!(env_ms(text("twelve"), 5), 5);
    assert_eq!(env_ms(None, 5), 5);
}

#[test]
fn prefixes_and_lists() {
    for (t, part) in [
        ("abcabc", "abc"), ("abcabc", "bc"), ("abc", ""), ("", "a"), ("", ""), ("aab", "ab"), ("\u{fc}a\u{fc}a", "\u{fc}a"), ("abc", "abcd"),
    ] {
        assert_eq!(after_prefix(t, part), t.strip_prefix(part), "'{part}' before '{t}'");
    }
    let list = vec!["a".to_string(), "b".to_string()];
    assert!(holds(&list, &"b".to_string()));
    assert!(!holds(&list, &"c".to_string()));
}
