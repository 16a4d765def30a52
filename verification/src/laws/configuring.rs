//! What holds of the settings.
use vstd::prelude::*;

use crate::settings::{decimal, first_given, is_digit, number, unsigned};

verus! {

/// The text is a row of at least one decimal digit.
pub open spec fn is_row_of_digits(text: Seq<char>) -> bool {
    &&& text.len() > 0
    &&& forall|i: int| 0 <= i < text.len() ==> '0' <= #[trigger] text[i] <= '9'
}

/// A single digit stands for its value, and each digit behind a number makes it ten times as large
/// and adds its own value; where that no longer fits in 64 bits there is no number, and there is
/// none either once it has ceased to fit.
pub proof fn numbers_are_read_digit_by_digit(text: Seq<char>, c: char)
    requires
        '0' <= c <= '9',
    ensures
        number(seq![c]) == Some((c as int - '0' as int) as u64),
        is_row_of_digits(text) ==> number(text.push(c)) == match number(text) {
            Some(n) => if n * 10 + (c as int - '0' as int) <= u64::MAX {
                Some((n * 10 + (c as int - '0' as int)) as u64)
            } else {
                None
            },
            None => None,
        },
{
    let one = seq![c];
    assert(unsigned(one) == one);
    assert(one.drop_last() =~= seq![]);
    assert(decimal(one.drop_last()) == 0);
    assert(decimal(one) == (c as nat - '0' as nat) as nat);
    assert forall|i: int| 0 <= i < one.len() implies is_digit(#[trigger] one[i]) by {}
    if is_row_of_digits(text) {
        let more = text.push(c);
        assert(text[0] != '+' && more[0] == text[0]);
        assert(unsigned(text) == text && unsigned(more) == more);
        assert(more.drop_last() =~= text);
        assert forall|i: int| 0 <= i < text.len() implies is_digit(#[trigger] text[i]) by {}
        assert forall|i: int| 0 <= i < more.len() implies is_digit(#[trigger] more[i]) by {
            if i < text.len() {
                assert(more[i] == text[i]);
            }
        }
    }
}

/// A plus sign in front of a row of digits changes nothing, and what is no row of digits, with a
/// plus sign in front or without, is no number.
pub proof fn only_digits_are_numbers(text: Seq<char>)
    ensures
        is_row_of_digits(text) ==> number(seq!['+'] + text) == number(text),
        number(text) is Some ==> is_row_of_digits(text) || (text[0] == '+' && is_row_of_digits(
            text.skip(1),
        )),
{
    let signed = seq!['+'] + text;
    assert(signed.skip(1) =~= text);
    if is_row_of_digits(text) {
        assert(text[0] != '+');
    }
    if number(text) is Some {
        let digits = unsigned(text);
        assert forall|i: int| 0 <= i < digits.len() implies '0' <= #[trigger] digits[i] <= '9' by {
            assert(is_digit(digits[i]));
        }
    }
}

/// What is given first counts, then what is given second, and then the default.
pub proof fn the_first_text_that_is_given_counts(
    first: Option<String>,
    second: Option<String>,
    default: Seq<char>,
)
    ensures
        first is Some ==> first_given(first, second, default) == first->0@,
        first is None && second is Some ==> first_given(first, second, default) == second->0@,
        first is None && second is None ==> first_given(first, second, default) == default,
{
}

} // verus!
