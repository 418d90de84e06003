//! Settings that come as texts from the environment.
use vstd::prelude::*;

use crate::text::same_text;

verus! {

/// The value of a decimal digit.
pub open spec fn digit_value(c: char) -> Option<int> {
    if '0' <= c <= '9' {
        Some(c as int - '0' as int)
    } else {
        None
    }
}

/// The number that a row of digits spells; none where a character is no
/// digit or there is no character.
pub open spec fn decimal(digits: Seq<char>) -> Option<int>
    decreases digits.len(),
{
    if digits.len() == 0 {
        None
    } else {
        match digit_value(digits.last()) {
            Some(d) => if digits.len() == 1 {
                Some(d)
            } else {
                match decimal(digits.drop_last()) {
                    Some(n) => Some(10 * n + d),
                    None => None,
                }
            },
            None => None,
        }
    }
}

/// The unsigned number that a text spells: digits, with an optional plus
/// sign before them, up to `max`.
pub open spec fn unsigned(text: Seq<char>, max: int) -> Option<int> {
    let digits = if text.len() > 0 && text[0] == '+' {
        text.drop_first()
    } else {
        text
    };
    match decimal(digits) {
        Some(n) => if n <= max {
            Some(n)
        } else {
            None
        },
        None => None,
    }
}

/// The number of a setting, or its default where it is missing or no number.
pub open spec fn setting(var: Option<&str>, max: int, default: int) -> int {
    match var {
        Some(text) => match unsigned(text@, max) {
            Some(n) => n,
            None => default,
        },
        None => default,
    }
}

/// One character that is no digit spoils the row.
proof fn lemma_decimal_fails(digits: Seq<char>, k: int)
    requires
        0 <= k < digits.len(),
        digit_value(digits[k]) is None,
    ensures
        decimal(digits) is None,
    decreases digits.len(),
{
    if k < digits.len() - 1 {
        lemma_decimal_fails(digits.drop_last(), k);
    }
}

/// A longer row of digits spells no smaller a number.
proof fn lemma_decimal_grows(digits: Seq<char>, n: int)
    requires
        0 < n <= digits.len(),
        decimal(digits.take(n)) is Some,
    ensures
        decimal(digits) matches Some(all) ==> all >= decimal(digits.take(n))->Some_0,
        decimal(digits.take(n))->Some_0 >= 0,
    decreases digits.len(),
{
    if n == digits.len() {
        assert(digits.take(n) =~= digits);
        if n > 1 {
            assert(digits.drop_last().take(n - 1) =~= digits.drop_last());
            lemma_decimal_grows(digits.drop_last(), n - 1);
        }
    } else {
        assert(digits.drop_last().take(n) =~= digits.take(n));
        lemma_decimal_grows(digits.drop_last(), n);
        if decimal(digits) is Some && digits.len() > 1 {
            assert(decimal(digits.drop_last()) is Some);
        }
    }
}

/// Reads an unsigned decimal number of at most `max`.
pub fn parse_unsigned(text: &str, max: u64) -> (r: Option<u64>)
    ensures
        match r {
            Some(n) => unsigned(text@, max as int) == Some(n as int),
            None => unsigned(text@, max as int) is None,
        },
{
    let count: usize = text.unicode_len();
    let signed: bool = count > 0 && text.get_char(0) == '+';
    let start: usize = if signed {
        1
    } else {
        0
    };
    let ghost digits = if text@.len() > 0 && text@[0] == '+' {
        text@.drop_first()
    } else {
        text@
    };
    if start == count {
        return None;
    }
    let mut i: usize = start;
    let mut n: u64 = 0;
    while i < count
        invariant
            start <= i <= count == text@.len(),
            start <= 1,
            start < count,
            digits.len() == count - start,
            forall|k: int| 0 <= k < digits.len() ==> #[trigger] digits[k] == text@[k + start],
            i > start ==> decimal(digits.take(i - start)) == Some(n as int),
            i == start ==> n == 0,
            n <= max,
            digits == (if text@.len() > 0 && text@[0] == '+' {
                text@.drop_first()
            } else {
                text@
            }),
        decreases count - i,
    {
        let c: char = text.get_char(i);
        assert(digits[i - start] == c);
        if c < '0' || c > '9' {
            proof {
                lemma_decimal_fails(digits, i - start);
            }
            return None;
        }
        let d: u64 = (c as u32 - '0' as u32) as u64;
        proof {
            assert(digits.take(i + 1 - start).drop_last() =~= digits.take(i - start));
            assert(digits.take(i + 1 - start).last() == c);
            assert(decimal(digits.take(i + 1 - start)) == Some(10 * n + d));
            lemma_decimal_grows(digits, i + 1 - start);
        }
        let next: u128 = 10 * (n as u128) + d as u128;
        if next > max as u128 {
            return None;
        }
        n = next as u64;
        i = i + 1;
    }
    assert(digits.take(i - start) =~= digits);
    Some(n)
}

/// The number of a setting, or its default.
fn number_setting(var: Option<&str>, max: u64, default: u64) -> (n: u64)
    requires
        default <= max,
    ensures
        n == setting(var, max as int, default as int),
        n <= max,
{
    match var {
        Some(text) => match parse_unsigned(text, max) {
            Some(n) => n,
            None => default,
        },
        None => default,
    }
}

/// How many requests may be in flight at once.
pub fn concurrency_limit(var: Option<&str>) -> (n: usize)
    ensures
        n == setting(var, usize::MAX as int, 1024),
{
    number_setting(var, usize::MAX as u64, 1024) as usize
}

/// How many requests may wait in the buffer.
pub fn buffer_size(var: Option<&str>) -> (n: usize)
    ensures
        n == setting(var, usize::MAX as int, 1024),
{
    number_setting(var, usize::MAX as u64, 1024) as usize
}

/// How many requests are served in a second; unlimited in effect where it is
/// not set.
pub fn requests_per_second(var: Option<&str>) -> (n: u64)
    ensures
        n == setting(var, u64::MAX as int, u64::MAX as int / 4),
{
    number_setting(var, u64::MAX, u64::MAX / 4)
}

/// How many events the broadcast channel holds for a slow client.
pub fn ws_channel_capacity(var: Option<&str>) -> (n: usize)
    ensures
        n == setting(var, usize::MAX as int, 100),
{
    number_setting(var, usize::MAX as u64, 100) as usize
}

/// The port of the server.
pub fn server_port(var: Option<&str>) -> (n: u16)
    ensures
        n == setting(var, u16::MAX as int, 8080),
{
    number_setting(var, u16::MAX as u64, 8080) as u16
}

/// The port of the ABCI shim.
pub fn shim_port(var: Option<&str>) -> (n: u16)
    ensures
        n == setting(var, u16::MAX as int, 26658),
{
    number_setting(var, u16::MAX as u64, 26658) as u16
}

/// How many milliseconds pass between two scheduled blocks.
pub fn scheduler_interval_ms(var: Option<&str>) -> (n: u64)
    ensures
        n == setting(var, u64::MAX as int, 1000),
{
    number_setting(var, u64::MAX, 1000)
}

/// Whether the runtime console is switched on.
pub fn console_wanted(var: Option<&str>) -> (b: bool)
    ensures
        b == (var matches Some(text) && (text@ == "1"@ || text@ == "true"@ || text@ == "yes"@)),
{
    match var {
        Some(text) => same_text(text, "1") || same_text(text, "true") || same_text(text, "yes"),
        None => false,
    }
}

} // verus!
