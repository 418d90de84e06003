//! How texts are read as numbers, and what follows for settings.
use vstd::prelude::*;

use crate::settings;

verus! {

/// The character of a decimal digit.
pub open spec fn digit_char(d: int) -> char {
    "0123456789"@[d]
}

/// A number as it is written, without leading zeros.
pub open spec fn written(n: nat) -> Seq<char>
    decreases n,
{
    if n < 10 {
        seq![digit_char(n as int)]
    } else {
        written(n / 10).push(digit_char((n % 10) as int))
    }
}

/// The text has a character, and all its characters are decimal digits.
pub open spec fn all_digits(text: Seq<char>) -> bool {
    &&& text.len() > 0
    &&& forall|i: int| 0 <= i < text.len() ==> '0' <= #[trigger] text[i] <= '9'
}

proof fn lemma_digit_char(d: int)
    requires
        0 <= d < 10,
    ensures
        '0' <= digit_char(d) <= '9',
        settings::digit_value(digit_char(d)) == Some(d),
{
    reveal_strlit("0123456789");
}

/// A number is read as it is written, if it is not too large.
pub proof fn numbers_are_read_as_written(n: nat, max: int)
    ensures
        settings::decimal(written(n)) == Some(n as int),
        settings::unsigned(written(n), max) == (if n <= max {
            Some(n as int)
        } else {
            None
        }),
        all_digits(written(n)),
    decreases n,
{
    if n < 10 {
        lemma_digit_char(n as int);
    } else {
        numbers_are_read_as_written(n / 10, max);
        lemma_digit_char((n % 10) as int);
        assert(written(n).drop_last() =~= written(n / 10));
        assert(written(n).last() == digit_char((n % 10) as int));
        assert forall|i: int| 0 <= i < written(n).len() implies '0' <= #[trigger] written(n)[i]
            <= '9' by {
            if i < written(n / 10).len() {
                assert(written(n)[i] == written(n / 10)[i]);
            }
        }
    }
    assert(written(n)[0] != '+');
}

/// A zero before the digits changes nothing.
pub proof fn leading_zeros_do_not_count(digits: Seq<char>)
    requires
        digits.len() > 0,
    ensures
        settings::decimal(seq!['0'] + digits) == settings::decimal(digits),
    decreases digits.len(),
{
    let longer = seq!['0'] + digits;
    assert(longer.last() == digits.last());
    assert(longer.drop_last() =~= seq!['0'] + digits.drop_last());
    if digits.len() == 1 {
        assert(longer.drop_last() =~= seq!['0']);
        assert(seq!['0'].drop_last().len() == 0);
        assert(settings::decimal(seq!['0']) == Some(0int));
    } else {
        leading_zeros_do_not_count(digits.drop_last());
    }
}

/// Digits, and nothing else, are read as a number.
pub proof fn only_digits_are_read(text: Seq<char>)
    ensures
        settings::decimal(text) is Some <==> all_digits(text),
    decreases text.len(),
{
    if text.len() > 0 {
        let fewer = text.drop_last();
        only_digits_are_read(fewer);
        if all_digits(text) {
            assert('0' <= text[text.len() - 1] <= '9');
            assert forall|i: int| 0 <= i < fewer.len() implies '0' <= #[trigger] fewer[i] <= '9' by {
                assert(fewer[i] == text[i]);
            }
        }
        if settings::decimal(text) is Some {
            assert forall|i: int| 0 <= i < text.len() implies '0' <= #[trigger] text[i] <= '9' by {
                if i < fewer.len() {
                    assert(text[i] == fewer[i]);
                }
            }
        }
    }
}

/// One plus sign may stand before the digits, and changes nothing.
pub proof fn a_plus_sign_does_not_count(text: Seq<char>, max: int)
    requires
        text.len() == 0 || text[0] != '+',
    ensures
        settings::unsigned(seq!['+'] + text, max) == settings::unsigned(text, max),
        settings::unsigned(seq!['+', '+'] + text, max) is None,
{
    assert((seq!['+'] + text).drop_first() =~= text);
    let twice = seq!['+', '+'] + text;
    assert(twice.drop_first() =~= seq!['+'] + text);
    only_digits_are_read(twice.drop_first());
    assert(twice.drop_first()[0] == '+');
}

/// Where something that is no digit stands after the first place, or nothing
/// stands there at all, no number is read.
pub proof fn other_texts_are_no_numbers(text: Seq<char>, max: int, i: int)
    requires
        text.len() == 0 || (text.len() == 1 && text[0] == '+') || (0 <= i < text.len() && !('0'
            <= text[i] <= '9') && (i > 0 || text[i] != '+')),
    ensures
        settings::unsigned(text, max) is None,
{
    only_digits_are_read(text);
    only_digits_are_read(text.drop_first());
    if text.len() > 0 && text[0] == '+' && i > 0 && 0 <= i < text.len() {
        assert(text.drop_first()[i - 1] == text[i]);
    }
}

/// No number is read that is above the limit.
pub proof fn the_limit_holds(text: Seq<char>, max: int)
    ensures
        settings::unsigned(text, max) matches Some(n) ==> 0 <= n <= max,
{
    lemma_not_negative(text);
    lemma_not_negative(text.drop_first());
}

proof fn lemma_not_negative(text: Seq<char>)
    ensures
        settings::decimal(text) matches Some(n) ==> n >= 0,
    decreases text.len(),
{
    if text.len() > 0 {
        lemma_not_negative(text.drop_last());
    }
}

/// A setting has the number that its text spells, and its default where there
/// is no text or the text spells no number up to the limit.
pub proof fn settings_fall_back(text: &str, n: nat, max: int, default: int)
    ensures
        settings::setting(None, max, default) == default,
        text@ == written(n) && n <= max ==> settings::setting(Some(text), max, default) == n,
        text@ == written(n) && n > max ==> settings::setting(Some(text), max, default) == default,
        !all_digits(text@) && !(text@.len() > 0 && text@[0] == '+') ==> settings::setting(
            Some(text),
            max,
            default,
        ) == default,
{
    numbers_are_read_as_written(n, max);
    only_digits_are_read(text@);
}

} // verus!
