//! Where the settings of the watcher come from.
use vstd::prelude::*;

use crate::text::characters;

verus! {

/// The name that the watcher registers under unless told otherwise.
pub const DEFAULT_CLIENT_NAME: &'static str = "audio-connector";

/// The configuration that is used unless told otherwise.
pub const DEFAULT_CONFIG: &'static str = "/etc/audio-connector/connections.toml";

/// How long to wait for a burst of rapid events to settle, in milliseconds.
pub const DEFAULT_DEBOUNCE_MS: u64 = 500;

/// How long to absorb graph events caused by our own connections, in milliseconds.
pub const DEFAULT_COOLDOWN_MS: u64 = 3000;

/// The settings of the watcher; times are in milliseconds.
pub struct Settings {
    pub config_path: String,
    pub client_name: String,
    pub debounce: u64,
    pub cooldown: u64,
}

/// The character is a decimal digit.
pub open spec fn is_digit(c: char) -> bool {
    '0' <= c <= '9'
}

/// The number that a row of decimal digits stands for.
pub open spec fn decimal(digits: Seq<char>) -> nat
    decreases digits.len(),
{
    if digits.len() == 0 {
        0
    } else {
        decimal(digits.drop_last()) * 10 + (digits.last() as nat - '0' as nat) as nat
    }
}

/// What follows a leading plus sign, where there is one.
pub open spec fn unsigned(text: Seq<char>) -> Seq<char> {
    if text.len() > 0 && text[0] == '+' {
        text.skip(1)
    } else {
        text
    }
}

/// The number that a text stands for: an optional plus sign and at least one digit, of a value
/// that fits.
pub open spec fn number(text: Seq<char>) -> Option<u64> {
    let digits = unsigned(text);
    if digits.len() > 0 && (forall|i: int| 0 <= i < digits.len() ==> is_digit(#[trigger] digits[i]))
        && decimal(digits) <= u64::MAX {
        Some(decimal(digits) as u64)
    } else {
        None
    }
}

/// A row of digits stands for no less than its beginning does.
proof fn lemma_decimal_grows(digits: Seq<char>, n: int)
    requires
        0 <= n <= digits.len(),
    ensures
        decimal(digits.take(n)) <= decimal(digits),
    decreases digits.len(),
{
    if n == digits.len() {
        assert(digits.take(n) =~= digits);
    } else {
        assert(digits.drop_last().take(n) =~= digits.take(n));
        lemma_decimal_grows(digits.drop_last(), n);
    }
}

/// The number that a text stands for.
pub fn parse_number(text: &str) -> (parsed: Option<u64>)
    ensures
        parsed == number(text@),
{
    let chars = characters(text);
    let start: usize = if chars.len() > 0 && chars[0] == '+' {
        1
    } else {
        0
    };
    let ghost digits = unsigned(text@);
    assert(digits =~= chars@.skip(start as int));
    if start == chars.len() {
        return None;
    }
    let mut value: u64 = 0;
    let mut i: usize = start;
    assert(digits.take(0) =~= seq![]);
    while i < chars.len()
        invariant
            start <= i <= chars.len(),
            digits == chars@.skip(start as int),
            digits == unsigned(text@),
            forall|j: int| 0 <= j < i - start ==> is_digit(#[trigger] digits[j]),
            value == decimal(digits.take(i - start)),
        decreases chars.len() - i,
    {
        let c = chars[i];
        let ghost next = digits.take(i - start + 1);
        proof {
            assert(next.drop_last() =~= digits.take(i - start));
            assert(next.last() == c);
            assert(digits[i - start] == c);
        }
        if c < '0' || c > '9' {
            return None;
        }
        let digit: u64 = (c as u32 - '0' as u32) as u64;
        assert(decimal(next) == value * 10 + digit);
        proof {
            lemma_decimal_grows(digits, i - start + 1);
        }
        if value > u64::MAX / 10 {
            return None;
        }
        let tens: u64 = value * 10;
        if digit > u64::MAX - tens {
            return None;
        }
        value = tens + digit;
        i = i + 1;
    }
    assert(digits.take(digits.len() as int) =~= digits);
    Some(value)
}

/// A number of milliseconds, given as text: `default` where there is none or it is no number.
pub fn env_ms(value: Option<String>, default: u64) -> (ms: u64)
    ensures
        ms == match value {
            Some(text) => match number(text@) {
                Some(ms) => ms,
                None => default,
            },
            None => default,
        },
{
    match value {
        Some(text) => match parse_number(text.as_str()) {
            Some(ms) => ms,
            None => default,
        },
        None => default,
    }
}

/// The text that is given first, if any is.
pub open spec fn first_given(
    first: Option<String>,
    second: Option<String>,
    default: Seq<char>,
) -> Seq<char> {
    match (first, second) {
        (Some(text), _) => text@,
        (None, Some(text)) => text@,
        (None, None) => default,
    }
}

/// The settings, from the first positional argument and the environment variables that name the
/// configuration, the client, the debounce and the cooldown.
///
/// The argument overrides the variable, which overrides the default.
pub fn settings_from_env_and_args(
    argument: Option<String>,
    config: Option<String>,
    client: Option<String>,
    debounce: Option<String>,
    cooldown: Option<String>,
) -> (settings: Settings)
    ensures
        settings.config_path@ == first_given(argument, config, DEFAULT_CONFIG@),
        settings.client_name@ == first_given(client, None, DEFAULT_CLIENT_NAME@),
        settings.debounce == match debounce {
            Some(text) => number(text@).unwrap_or(DEFAULT_DEBOUNCE_MS),
            None => DEFAULT_DEBOUNCE_MS,
        },
        settings.cooldown == match cooldown {
            Some(text) => number(text@).unwrap_or(DEFAULT_COOLDOWN_MS),
            None => DEFAULT_COOLDOWN_MS,
        },
        argument is Some ==> settings.config_path@ == argument->0@,
        argument is None && config is Some ==> settings.config_path@ == config->0@,
        argument is None && config is None ==> settings.config_path@
            == "/etc/audio-connector/connections.toml"@,
        client is Some ==> settings.client_name@ == client->0@,
        client is None ==> settings.client_name@ == "audio-connector"@,
        debounce is None ==> settings.debounce == 500,
        debounce is Some ==> settings.debounce == (match number(debounce->0@) {
            Some(ms) => ms,
            None => 500,
        }),
        cooldown is None ==> settings.cooldown == 3000,
        cooldown is Some ==> settings.cooldown == (match number(cooldown->0@) {
            Some(ms) => ms,
            None => 3000,
        }),
{
    let config_path = match (argument, config) {
        (Some(path), _) => path,
        (None, Some(path)) => path,
        (None, None) => DEFAULT_CONFIG.to_string(),
    };
    let client_name = match client {
        Some(name) => name,
        None => DEFAULT_CLIENT_NAME.to_string(),
    };
    Settings {
        config_path,
        client_name,
        debounce: env_ms(debounce, DEFAULT_DEBOUNCE_MS),
        cooldown: env_ms(cooldown, DEFAULT_COOLDOWN_MS),
    }
}

} // verus!
