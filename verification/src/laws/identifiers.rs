//! Laws of the ids of proofs and jobs.
use vstd::arithmetic::power::*;
use vstd::prelude::*;

use crate::{text, zk};

verus! {

/// A digit of lower-case hexadecimal.
pub open spec fn is_hex_digit(c: char) -> bool {
    ('0' <= c <= '9') || ('a' <= c <= 'f')
}

/// Bytes in hexadecimal take two digits each, and nothing but digits.
pub proof fn hex_is_made_of_digits(bytes: Seq<u8>)
    ensures
        text::hex(bytes).len() == 2 * bytes.len(),
        forall|i: int| 0 <= i < text::hex(bytes).len() ==> is_hex_digit(#[trigger] text::hex(bytes)[i]),
    decreases bytes.len(),
{
    if bytes.len() > 0 {
        hex_is_made_of_digits(bytes.drop_last());
    }
}

/// Different bytes differ in hexadecimal.
pub proof fn hex_tells_bytes_apart(a: Seq<u8>, b: Seq<u8>)
    requires
        text::hex(a) == text::hex(b),
    ensures
        a == b,
    decreases a.len(),
{
    hex_is_made_of_digits(a);
    hex_is_made_of_digits(b);
    if a.len() > 0 {
        let ha = text::hex(a.drop_last());
        let hb = text::hex(b.drop_last());
        hex_is_made_of_digits(a.drop_last());
        hex_is_made_of_digits(b.drop_last());
        let n = ha.len() as int;
        assert(a.len() == b.len());
        assert(text::hex(a)[n] == text::hex_digit(a.last() as int / 16));
        assert(text::hex(b)[n] == text::hex_digit(b.last() as int / 16));
        assert(text::hex(a)[n + 1] == text::hex_digit(a.last() as int % 16));
        assert(text::hex(b)[n + 1] == text::hex_digit(b.last() as int % 16));
        lemma_digit_tells_apart(a.last() as int / 16, b.last() as int / 16);
        lemma_digit_tells_apart(a.last() as int % 16, b.last() as int % 16);
        assert(a.last() == b.last());
        assert(ha =~= text::hex(a).take(n));
        assert(hb =~= text::hex(b).take(n));
        hex_tells_bytes_apart(a.drop_last(), b.drop_last());
        assert(a =~= a.drop_last().push(a.last()));
        assert(b =~= b.drop_last().push(b.last()));
    } else {
        assert(a =~= b);
    }
}

proof fn lemma_digit_tells_apart(x: int, y: int)
    requires
        0 <= x < 16,
        0 <= y < 16,
        text::hex_digit(x) == text::hex_digit(y),
    ensures
        x == y,
{
}

/// The two digits of a byte stand where the byte stands: the one of the
/// sixteens first, then the one of the ones.
pub proof fn digits_stand_where_the_bytes_do(bytes: Seq<u8>, i: int)
    requires
        0 <= i < bytes.len(),
    ensures
        text::hex(bytes).len() == 2 * bytes.len(),
        text::hex(bytes)[2 * i] == "0123456789abcdef"@[bytes[i] as int / 16],
        text::hex(bytes)[2 * i + 1] == "0123456789abcdef"@[bytes[i] as int % 16],
    decreases bytes.len(),
{
    let fewer = bytes.drop_last();
    hex_is_made_of_digits(bytes);
    hex_is_made_of_digits(fewer);
    if i < fewer.len() {
        digits_stand_where_the_bytes_do(fewer, i);
        assert(text::hex(bytes)[2 * i] == text::hex(fewer)[2 * i]);
        assert(text::hex(bytes)[2 * i + 1] == text::hex(fewer)[2 * i + 1]);
        assert(fewer[i] == bytes[i]);
    } else {
        digits_are_the_usual(bytes[i] as int / 16);
        digits_are_the_usual(bytes[i] as int % 16);
    }
}

/// The digits are 0 to 9 and then a to f.
pub proof fn digits_are_the_usual(value: int)
    requires
        0 <= value < 16,
    ensures
        text::hex_digit(value) == "0123456789abcdef"@[value],
{
    reveal_strlit("0123456789abcdef");
}

/// The id of a proof spells its first eight bytes, or all of a shorter one.
pub proof fn ids_spell_the_first_bytes(bytes: Seq<u8>, i: int)
    requires
        0 <= i < bytes.len(),
        i < 8,
    ensures
        zk::id_of(bytes).len() == (if bytes.len() < 8 {
            2 * bytes.len()
        } else {
            16
        }),
        zk::id_of(bytes)[2 * i] == "0123456789abcdef"@[bytes[i] as int / 16],
        zk::id_of(bytes)[2 * i + 1] == "0123456789abcdef"@[bytes[i] as int % 16],
{
    if bytes.len() > 8 {
        digits_stand_where_the_bytes_do(bytes.take(8), i);
        assert(bytes.take(8)[i] == bytes[i]);
    } else {
        digits_stand_where_the_bytes_do(bytes, i);
    }
}

/// The bytes of a number make up the number, the first weighing the most.
pub proof fn bytes_make_up_the_number(n: u64)
    ensures
        zk::big_endian(n).len() == 8,
        n == zk::big_endian(n)[0] * 0x100_0000_0000_0000 + zk::big_endian(n)[1]
            * 0x1_0000_0000_0000 + zk::big_endian(n)[2] * 0x100_0000_0000 + zk::big_endian(n)[3]
            * 0x1_0000_0000 + zk::big_endian(n)[4] * 0x100_0000 + zk::big_endian(n)[5] * 0x1_0000
            + zk::big_endian(n)[6] * 0x100 + zk::big_endian(n)[7],
{
    lemma_from_bytes(n);
}

/// Different numbers have different bytes.
pub proof fn bytes_tell_numbers_apart(a: u64, b: u64)
    requires
        zk::big_endian(a) == zk::big_endian(b),
    ensures
        a == b,
{
    assert forall|i: int| 0 <= i < 8 implies #[trigger] zk::byte_at(a, i) == zk::byte_at(b, i) by {
        assert(zk::big_endian(a)[i] == zk::byte_at(a, i));
        assert(zk::big_endian(b)[i] == zk::byte_at(b, i));
    }
    lemma_from_bytes(a);
    lemma_from_bytes(b);
}

proof fn lemma_from_bytes(n: u64)
    ensures
        n == zk::byte_at(n, 0) * 0x100_0000_0000_0000 + zk::byte_at(n, 1) * 0x1_0000_0000_0000
            + zk::byte_at(n, 2) * 0x100_0000_0000 + zk::byte_at(n, 3) * 0x1_0000_0000
            + zk::byte_at(n, 4) * 0x100_0000 + zk::byte_at(n, 5) * 0x1_0000 + zk::byte_at(n, 6)
            * 0x100 + zk::byte_at(n, 7),
{
    reveal_with_fuel(pow, 8);
    let n0 = n as int;
    let n1 = n0 / 0x100;
    let n2 = n0 / 0x1_0000;
    let n3 = n0 / 0x100_0000;
    let n4 = n0 / 0x1_0000_0000;
    let n5 = n0 / 0x100_0000_0000;
    let n6 = n0 / 0x1_0000_0000_0000;
    let n7 = n0 / 0x100_0000_0000_0000;
    assert(pow(256, 0) == 1);
    assert(pow(256, 1) == 0x100);
    assert(pow(256, 2) == 0x1_0000);
    assert(pow(256, 3) == 0x100_0000);
    assert(pow(256, 4) == 0x1_0000_0000);
    assert(pow(256, 5) == 0x100_0000_0000);
    assert(pow(256, 6) == 0x1_0000_0000_0000);
    assert(pow(256, 7) == 0x100_0000_0000_0000);
    assert(n0 == 0x100 * n1 + n0 % 256);
    assert(n1 == 0x100 * n2 + n1 % 256);
    assert(n2 == 0x100 * n3 + n2 % 256);
    assert(n3 == 0x100 * n4 + n3 % 256);
    assert(n4 == 0x100 * n5 + n4 % 256);
    assert(n5 == 0x100 * n6 + n5 % 256);
    assert(n6 == 0x100 * n7 + n6 % 256);
    assert(n7 == n7 % 256);
}

/// Different numbers give different stub ids.
pub proof fn stub_ids_tell_numbers_apart(a: u64, b: u64)
    requires
        text::hex(zk::big_endian(a)) == text::hex(zk::big_endian(b)),
    ensures
        a == b,
{
    hex_tells_bytes_apart(zk::big_endian(a), zk::big_endian(b));
    bytes_tell_numbers_apart(a, b);
}

/// The id of a proof has sixteen digits, unless the proof is shorter than
/// eight bytes.
pub proof fn proof_ids_have_sixteen_digits(bytes: Seq<u8>)
    requires
        bytes.len() >= zk::ID_BYTES,
    ensures
        zk::id_of(bytes).len() == 16,
        forall|i: int| 0 <= i < 16 ==> is_hex_digit(#[trigger] zk::id_of(bytes)[i]),
{
    hex_is_made_of_digits(bytes.take(zk::ID_BYTES as int));
    assert(bytes.len() == zk::ID_BYTES ==> bytes.take(zk::ID_BYTES as int) =~= bytes);
}

} // verus!
