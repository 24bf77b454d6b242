//! What holds of the kinds of values.

use crate::extraction::classify::{
    digit_byte, digit_bytes, digits_text, fields, fields_count, first_field, hex_byte, hex_char,
    host_part, ipv6_text, no_separator, number_of, octet, var_type,
};
use crate::text::{decimal, digit_char, occurrences};
use crate::types::VarType;
use vstd::prelude::*;
use vstd::utf8::{encode_utf8, is_ascii_chars, is_ascii_chars_encode_utf8};

verus! {

/// The bytes of decimal digits are decimal digits, one for each.
proof fn digits_have_digit_bytes(value: Seq<char>)
    requires
        digits_text(value, 0, value.len()),
    ensures
        encode_utf8(value).len() == value.len(),
        forall|i: int|
            0 <= i < value.len() ==> digit_byte(#[trigger] encode_utf8(value)[i])
                && encode_utf8(value)[i] == value[i] as u8,
{
    assert(is_ascii_chars(value));
    is_ascii_chars_encode_utf8(value);
}

/// Digits and nothing else are an integer where `i64` has room for the number, and
/// just a string where it has not. They are never a hexadecimal identifier.
pub proof fn digits_are_an_integer_or_a_string(value: Seq<char>)
    requires
        digits_text(value, 1, value.len()),
    ensures
        var_type(value) == if number_of(encode_utf8(value)) <= 0x7fff_ffff_ffff_ffff {
            VarType::Integer
        } else {
            VarType::String
        },
{
    let bytes = encode_utf8(value);
    digits_have_digit_bytes(value);
    assert(digit_byte(bytes[0]));
    assert(digit_byte(bytes[bytes.len() - 1]));
    no_separator(bytes, ':' as u8);
    no_separator(bytes, '.' as u8);
    if bytes.len() == 36 {
        assert(digit_byte(bytes[8]));
    }
    if bytes.len() >= 19 {
        assert(digit_byte(bytes[4]));
    }
    if bytes.len() >= 2 {
        assert(digit_byte(bytes[1]));
    }
    first_field(bytes, ':' as u8, bytes.len() as int);
    assert(host_part(bytes) =~= bytes);
}

/// The digits of a number stand for it.
proof fn decimal_stands_for_its_number(n: nat)
    ensures
        digits_text(decimal(n), 1, decimal(n).len()),
        number_of(encode_utf8(decimal(n))) == n,
    decreases n,
{
    let text = decimal(n);
    let last = digit_char(n % 10);
    assert('0' <= last <= '9');
    if n >= 10 {
        let front = decimal(n / 10);
        decimal_stands_for_its_number(n / 10);
        assert(text == front.push(last));
        assert(text.drop_last() =~= front);
        digits_have_digit_bytes(front);
        digits_have_digit_bytes(text);
        assert(encode_utf8(text).drop_last() =~= encode_utf8(front));
    } else {
        assert(text == seq![last]);
        digits_have_digit_bytes(text);
        assert(encode_utf8(text).drop_last() =~= Seq::<u8>::empty());
    }
    assert(encode_utf8(text).last() == last as u8);
    assert(number_of(encode_utf8(text)) == 10 * number_of(encode_utf8(text).drop_last()) + n % 10);
}

/// A number that `i64` has room for is an integer when it is written in decimal
/// notation.
pub proof fn a_written_number_is_an_integer(n: nat)
    requires
        n <= 0x7fff_ffff_ffff_ffff,
    ensures
        var_type(decimal(n)) == VarType::Integer,
{
    decimal_stands_for_its_number(n);
    digits_are_an_integer_or_a_string(decimal(n));
}

/// What is taken for an IPv4 address has four groups before its port, and none of
/// them stands for more than 255.
pub proof fn an_ipv4_address_has_four_octets(value: Seq<char>)
    requires
        var_type(value) == VarType::IPv4,
    ensures
        fields(host_part(encode_utf8(value)), '.' as u8).len() == 4,
        forall|i: int|
            0 <= i < 4 ==> octet(
                #[trigger] fields(host_part(encode_utf8(value)), '.' as u8)[i],
            ),
{
    fields_count(host_part(encode_utf8(value)), '.' as u8);
}

/// Where an item stands first in a sequence, or the end where it does not occur.
proof fn first_place<T>(s: Seq<T>, x: T) -> (n: int)
    ensures
        0 <= n <= s.len(),
        forall|i: int| 0 <= i < n ==> s[i] != x,
        n < s.len() ==> s[n] == x,
    decreases s.len(),
{
    if s.len() == 0 {
        0
    } else {
        let front = s.drop_last();
        let n = first_place(front, x);
        assert forall|i: int| 0 <= i < n implies s[i] != x by {
            assert(front[i] == s[i]);
        }
        if n < front.len() || s.last() == x {
            n
        } else {
            n + 1
        }
    }
}

/// Where all characters are ASCII ones, one of them occurs as often as its byte.
proof fn ascii_occurrences(s: Seq<char>, c: char)
    requires
        is_ascii_chars(s),
        (c as u32) < 0x80,
    ensures
        occurrences(encode_utf8(s), c as u8) == occurrences(s, c),
    decreases s.len(),
{
    is_ascii_chars_encode_utf8(s);
    if s.len() > 0 {
        let front = s.drop_last();
        assert(is_ascii_chars(front));
        is_ascii_chars_encode_utf8(front);
        ascii_occurrences(front, c);
        assert(encode_utf8(s).drop_last() =~= encode_utf8(front));
        assert(s.last() as u8 == encode_utf8(s).last());
    }
}

/// An IPv6 address is exactly what has two to seven colons, and at most four
/// hexadecimal digits and nothing else between and around them.
pub proof fn an_ipv6_address_is_told_by_its_groups(value: Seq<char>)
    ensures
        var_type(value) == VarType::IPv6 <==> ipv6_text(value),
{
    if ipv6_text(value) {
        let bytes = encode_utf8(value);
        assert forall|i: int| 0 <= i < value.len() implies (#[trigger] value[i] as u32) < 0x80 by {
            assert(hex_char(value[i]) || value[i] == ':');
        }
        assert(is_ascii_chars(value));
        is_ascii_chars_encode_utf8(value);
        fields_count(value, ':');
        ascii_occurrences(value, ':');
        assert forall|i: int| 0 <= i < bytes.len() implies hex_byte(#[trigger] bytes[i])
            || bytes[i] == ':' as u8 by {
            assert(hex_char(value[i]) || value[i] == ':');
        }
        let n = first_place(bytes, ':' as u8);
        first_field(bytes, ':' as u8, n);
        no_separator(host_part(bytes), '.' as u8);
        no_separator(bytes, '.' as u8);
        assert(bytes.len() > 0);
        assert(hex_byte(bytes[0]) || bytes[0] == ':' as u8);
        assert(hex_byte(bytes[bytes.len() - 1]) || bytes[bytes.len() - 1] == ':' as u8);
        if bytes.len() >= 19 {
            assert(hex_byte(bytes[4]) || bytes[4] == ':' as u8);
            assert(hex_byte(bytes[8]) || bytes[8] == ':' as u8);
        }
        if digit_bytes(bytes) {
            no_separator(bytes, ':' as u8);
        }
    }
}

} // verus!
