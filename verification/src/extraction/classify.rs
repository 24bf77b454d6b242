//! Telling what kind of value a variable part of a log line holds.

use crate::extraction::kinds::an_ipv6_address_is_told_by_its_groups;
use crate::text::occurrences;
use crate::types::VarType;
use vstd::prelude::*;
use vstd::utf8::encode_utf8;

verus! {

/// An optional sign, a decimal number and a unit of time.
pub const DURATION: &'static str = "^-?\\d+\\.?\\d*(ns|us|µs|ms|s|m|h)$";

/// Four groups of up to three digits with dots between, and an optional port.
pub const IPV4: &'static str = "^\\d{1,3}\\.\\d{1,3}\\.\\d{1,3}\\.\\d{1,3}(:\\d+)?$";

/// Three to eight groups of up to four hexadecimal digits with colons between.
pub const IPV6: &'static str = "^([0-9a-fA-F]{0,4}:){2,7}[0-9a-fA-F]{0,4}$";

/// The parts of a sequence between the occurrences of a separator.
pub open spec fn fields<T>(s: Seq<T>, separator: T) -> Seq<Seq<T>>
    decreases s.len(),
{
    if s.len() == 0 {
        seq![Seq::empty()]
    } else {
        let front = fields(s.drop_last(), separator);
        if s.last() == separator {
            front.push(Seq::empty())
        } else {
            front.drop_last().push(front.last().push(s.last()))
        }
    }
}

/// A decimal digit, as a character.
pub open spec fn digit_char(c: char) -> bool {
    '0' <= c <= '9'
}

/// A hexadecimal digit, as a character.
pub open spec fn hex_char(c: char) -> bool {
    digit_char(c) || 'a' <= c <= 'f' || 'A' <= c <= 'F'
}

/// Decimal digits only, and as many of them as the bounds allow.
pub open spec fn digits_text(s: Seq<char>, least: nat, most: nat) -> bool {
    least <= s.len() <= most && forall|i: int| 0 <= i < s.len() ==> digit_char(#[trigger] s[i])
}

/// A sequence without the given item at its start, where it has it there.
pub open spec fn without_start<T>(s: Seq<T>, start: T) -> Seq<T> {
    if s.len() > 0 && s[0] == start {
        s.skip(1)
    } else {
        s
    }
}

/// A digit, and more digits with at most one dot among them.
pub open spec fn decimal_text(s: Seq<char>) -> bool {
    &&& s.len() > 0
    &&& digit_char(s[0])
    &&& forall|i: int| 0 <= i < s.len() ==> digit_char(#[trigger] s[i]) || s[i] == '.'
    &&& occurrences(s, '.') <= 1
}

/// A unit of time.
pub open spec fn unit_text(s: Seq<char>) -> bool {
    ||| s == seq!['n', 's']
    ||| s == seq!['u', 's']
    ||| s == seq!['µ', 's']
    ||| s == seq!['m', 's']
    ||| s == seq!['s']
    ||| s == seq!['m']
    ||| s == seq!['h']
}

/// An optional minus, a decimal number and a unit of time: what `DURATION` matches where no
/// other digits than the decimal ones occur.
pub open spec fn duration_text(s: Seq<char>) -> bool {
    exists|n: int|
        0 <= n <= s.len() && decimal_text(without_start(#[trigger] s.take(n), '-')) && unit_text(
            s.skip(n),
        )
}

/// Four groups of one to three digits with dots between, and an optional port:
/// what `IPV4` matches where no other digits than the decimal ones occur.
pub open spec fn ipv4_text(s: Seq<char>) -> bool {
    let parts = fields(s, ':');
    let groups = fields(parts[0], '.');
    &&& groups.len() == 4
    &&& forall|i: int| 0 <= i < 4 ==> digits_text(#[trigger] groups[i], 1, 3)
    &&& parts.len() == 1 || parts.len() == 2 && digits_text(parts[1], 1, s.len())
}

/// Three to eight groups of at most four hexadecimal digits with colons
/// between: what `IPV6` matches.
pub open spec fn ipv6_text(s: Seq<char>) -> bool {
    let groups = fields(s, ':');
    &&& 3 <= groups.len() <= 8
    &&& forall|i: int| 0 <= i < groups.len() ==> (#[trigger] groups[i]).len() <= 4
    &&& forall|i: int| 0 <= i < s.len() ==> hex_char(#[trigger] s[i]) || s[i] == ':'
}

/// ASCII characters and micro signs only: no digits but the decimal ones.
pub open spec fn plain_text(s: Seq<char>) -> bool {
    forall|i: int| 0 <= i < s.len() ==> (#[trigger] s[i] as u32) < 0x80 || s[i] == 'µ'
}

/// Whether the pattern, in the syntax of the `regex` crate, matches the text.
pub uninterp spec fn regex_match(pattern: Seq<char>, text: Seq<char>) -> bool;

/// Compiles a pattern with `regex::Regex::new` and asks `Regex::is_match`
/// whether it matches. The outcome depends on the pattern and the text alone.
/// Only the three patterns of this module are admitted: they compile. In them
/// `^` and `$` stand for the two ends of the text, and `\d` for any Unicode
/// decimal digit, of which the ASCII ones are `0` to `9`; hence the texts that
/// each of the three matches, among those whose digits can only be ASCII ones.
#[verifier::external_body]
fn regex_is_match(pattern: &str, text: &str) -> (found: bool)
    requires
        pattern@ == DURATION@ || pattern@ == IPV4@ || pattern@ == IPV6@,
    ensures
        found == regex_match(pattern@, text@),
        pattern@ == DURATION@ && plain_text(text@) ==> found == duration_text(text@),
        pattern@ == IPV4@ && plain_text(text@) ==> found == ipv4_text(text@),
        pattern@ == IPV6@ ==> found == ipv6_text(text@),
{
    regex::Regex::new(pattern).unwrap().is_match(text)
}

/// A decimal digit, as a byte.
pub open spec fn digit_byte(b: u8) -> bool {
    '0' as u8 <= b <= '9' as u8
}

/// A hexadecimal digit, as a byte.
pub open spec fn hex_byte(b: u8) -> bool {
    digit_byte(b) || 'a' as u8 <= b <= 'f' as u8 || 'A' as u8 <= b <= 'F' as u8
}

/// Decimal digits, at least one.
pub open spec fn digit_bytes(s: Seq<u8>) -> bool {
    s.len() > 0 && forall|i: int| 0 <= i < s.len() ==> digit_byte(#[trigger] s[i])
}

/// The number that decimal digits stand for.
pub open spec fn number_of(s: Seq<u8>) -> nat
    decreases s.len(),
{
    if s.len() == 0 {
        0
    } else {
        10 * number_of(s.drop_last()) + (s.last() - '0' as u8) as nat
    }
}

/// The positions of the dashes of a UUID.
pub open spec fn uuid_dash(i: int) -> bool {
    i == 8 || i == 13 || i == 18 || i == 23
}

/// Hexadecimal digits in groups of 8, 4, 4, 4 and 12 with dashes between.
pub open spec fn uuid_shape(s: Seq<u8>) -> bool {
    s.len() == 36 && forall|i: int|
        0 <= i < 36 ==> if uuid_dash(i) {
            #[trigger] s[i] == '-' as u8
        } else {
            hex_byte(s[i])
        }
}

/// A digit first, or a minus and then a digit.
pub open spec fn starts_numeric(s: Seq<u8>) -> bool {
    s.len() > 0 && (digit_byte(s[0]) || s[0] == '-' as u8 && s.len() > 1 && digit_byte(s[1]))
}

/// An ending that a unit of time may have.
pub open spec fn unit_suffix(s: Seq<u8>) -> bool {
    let last = s[s.len() - 1];
    let previous = s[s.len() - 2];
    s.len() >= 2 && if last == 's' as u8 {
        ||| s.len() == 2
        ||| previous == 'n' as u8
        ||| previous == 'm' as u8
        ||| previous == 'u' as u8
        ||| digit_byte(previous)
    } else {
        (last == 'm' as u8 || last == 'h' as u8) && digit_byte(previous)
    }
}

/// The ending `µs`.
pub open spec fn micro_suffix(s: Seq<u8>) -> bool {
    s.len() >= 3 && s[s.len() - 3] == 0xc2 && s[s.len() - 2] == 0xb5 && s[s.len() - 1] == 's' as u8
}

/// The part of an address before its port.
pub open spec fn host_part(s: Seq<u8>) -> Seq<u8> {
    fields(s, ':' as u8)[0]
}

/// An unsigned number, an optional plus before it, of at most 255.
pub open spec fn octet(s: Seq<u8>) -> bool {
    let number = without_start(s, '+' as u8);
    digit_bytes(number) && number_of(number) <= 255
}

/// Every part between dots is a number of at most 255.
pub open spec fn octets(s: Seq<u8>) -> bool {
    forall|i: int|
        0 <= i < fields(s, '.' as u8).len() ==> octet(#[trigger] fields(s, '.' as u8)[i])
}

/// Digits, at least one, and exactly one dot.
pub open spec fn dotted_digits(s: Seq<u8>) -> bool {
    &&& forall|i: int| 0 <= i < s.len() ==> digit_byte(#[trigger] s[i]) || s[i] == '.' as u8
    &&& occurrences(s, '.' as u8) == 1
    &&& exists|i: int| 0 <= i < s.len() && digit_byte(#[trigger] s[i])
}

/// Digits and exactly one dot, an optional minus before them.
pub open spec fn float_shape(s: Seq<u8>) -> bool {
    dotted_digits(without_start(s, '-' as u8))
}

/// As long as a date and a time, with dashes where a date has them.
pub open spec fn timestamp_shape(s: Seq<u8>) -> bool {
    s.len() >= 19 && s[4] == '-' as u8 && s[7] == '-' as u8
}

/// A number, an optional sign before it, in the range of `i64`.
pub open spec fn integer_shape(s: Seq<u8>) -> bool {
    let negative = s.len() > 0 && s[0] == '-' as u8;
    let number = if negative {
        s.skip(1)
    } else {
        without_start(s, '+' as u8)
    };
    digit_bytes(number) && number_of(number) <= if negative {
        0x8000_0000_0000_0000nat
    } else {
        0x7fff_ffff_ffff_ffffnat
    }
}

/// At least four hexadecimal digits, not all of them decimal.
pub open spec fn hex_digits(s: Seq<u8>) -> bool {
    &&& s.len() >= 4
    &&& forall|i: int| 0 <= i < s.len() ==> hex_byte(#[trigger] s[i])
    &&& exists|i: int| 0 <= i < s.len() && !digit_byte(#[trigger] s[i])
}

/// At least four hexadecimal digits, not all of them decimal, an optional `0x`
/// before them.
pub open spec fn hex_id_shape(s: Seq<u8>) -> bool {
    if s.len() >= 2 && s[0] == '0' as u8 && s[1] == 'x' as u8 {
        hex_digits(s.skip(2))
    } else {
        hex_digits(s)
    }
}

/// The bytes for which it matters whether `IPV4` matches.
pub open spec fn ipv4_candidate(s: Seq<u8>) -> bool {
    starts_numeric(s) && occurrences(host_part(s), '.' as u8) == 3
}

/// The bytes for which it matters whether `IPV6` matches.
pub open spec fn ipv6_candidate(s: Seq<u8>) -> bool {
    occurrences(s, ':' as u8) >= 2
}

/// The kind of a value with these bytes, given which of the three patterns
/// match it: the first kind in this order whose shape it has.
pub open spec fn classification(s: Seq<u8>, duration: bool, ipv4: bool, ipv6: bool) -> VarType {
    if uuid_shape(s) {
        VarType::UUID
    } else if starts_numeric(s) && unit_suffix(s) && duration {
        VarType::Duration
    } else if ipv4_candidate(s) && ipv4 && octets(host_part(s)) {
        VarType::IPv4
    } else if starts_numeric(s) && float_shape(s) {
        VarType::Float
    } else if starts_numeric(s) && timestamp_shape(s) {
        VarType::Timestamp
    } else if starts_numeric(s) && integer_shape(s) {
        VarType::Integer
    } else if ipv6_candidate(s) && ipv6 {
        VarType::IPv6
    } else if hex_id_shape(s) {
        VarType::HexID
    } else if micro_suffix(s) && duration {
        VarType::Duration
    } else {
        VarType::String
    }
}

/// The kind of a value, for every text.
pub open spec fn var_type(value: Seq<char>) -> VarType {
    classification(
        encode_utf8(value),
        regex_match(DURATION@, value),
        regex_match(IPV4@, value),
        ipv6_text(value),
    )
}

/// The kind of a value whose characters are ASCII ones and micro signs: every
/// part of it can be read off the characters.
pub open spec fn plain_var_type(value: Seq<char>) -> VarType {
    classification(
        encode_utf8(value),
        duration_text(value),
        ipv4_text(value),
        ipv6_text(value),
    )
}

fn is_digit(b: u8) -> (yes: bool)
    ensures
        yes == digit_byte(b),
{
    '0' as u8 <= b && b <= '9' as u8
}

fn is_hex(b: u8) -> (yes: bool)
    ensures
        yes == hex_byte(b),
{
    is_digit(b) || ('a' as u8 <= b && b <= 'f' as u8) || ('A' as u8 <= b && b <= 'F' as u8)
}

/// There is one part more than there are separators.
pub proof fn fields_count<T>(s: Seq<T>, separator: T)
    ensures
        fields(s, separator).len() == occurrences(s, separator) + 1,
    decreases s.len(),
{
    if s.len() > 0 {
        fields_count(s.drop_last(), separator);
    }
}

/// The first part ends where the separator stands first.
pub proof fn first_field<T>(s: Seq<T>, separator: T, n: int)
    requires
        0 <= n <= s.len(),
        forall|i: int| 0 <= i < n ==> s[i] != separator,
        n < s.len() ==> s[n] == separator,
    ensures
        fields(s, separator)[0] == s.take(n),
    decreases s.len(),
{
    if s.len() > 0 {
        let front = s.drop_last();
        fields_count(front, separator);
        if n < s.len() {
            first_field(front, separator, n);
            assert(s.take(n) == front.take(n));
            if n < front.len() {
                separator_occurs(front, separator, n);
            }
        } else {
            first_field(front, separator, n - 1);
            no_separator(front, separator);
            assert(s.take(n) == front.take(n - 1).push(s.last()));
        }
    } else {
        assert(s.take(n) == Seq::<T>::empty());
    }
}

/// An item that stands nowhere in a sequence does not occur in it.
pub proof fn no_separator<T>(s: Seq<T>, separator: T)
    requires
        forall|i: int| 0 <= i < s.len() ==> s[i] != separator,
    ensures
        occurrences(s, separator) == 0,
    decreases s.len(),
{
    if s.len() > 0 {
        no_separator(s.drop_last(), separator);
    }
}

/// An item that stands somewhere in a sequence occurs in it.
pub proof fn separator_occurs<T>(s: Seq<T>, separator: T, at: int)
    requires
        0 <= at < s.len(),
        s[at] == separator,
    ensures
        occurrences(s, separator) > 0,
    decreases s.len(),
{
    if at < s.len() - 1 {
        separator_occurs(s.drop_last(), separator, at);
    }
}

fn count_byte(bytes: &[u8], from: usize, to: usize, x: u8) -> (count: usize)
    requires
        from <= to <= bytes@.len(),
    ensures
        count == occurrences(bytes@.subrange(from as int, to as int), x),
{
    let mut count: usize = 0;
    let mut i: usize = from;
    while i < to
        invariant
            from <= i <= to <= bytes@.len(),
            count <= i - from,
            count == occurrences(bytes@.subrange(from as int, i as int), x),
        decreases to - i,
    {
        assert(bytes@.subrange(from as int, i + 1).drop_last() == bytes@.subrange(
            from as int,
            i as int,
        ));
        if bytes[i] == x {
            count = count + 1;
        }
        i = i + 1;
    }
    count
}

/// The length of the part before the first colon.
fn host_len(bytes: &[u8]) -> (len: usize)
    ensures
        len <= bytes@.len(),
        bytes@.take(len as int) == host_part(bytes@),
{
    let mut i: usize = 0;
    while i < bytes.len() && bytes[i] != ':' as u8
        invariant
            i <= bytes@.len(),
            forall|j: int| 0 <= j < i ==> bytes@[j] != ':' as u8,
        decreases bytes@.len() - i,
    {
        i = i + 1;
    }
    proof {
        first_field(bytes@, ':' as u8, i as int);
    }
    i
}

/// The number that the digits in a range stand for, or `cap` where that is less.
/// `None` where there is no digit or something else than digits.
fn capped_number(bytes: &[u8], from: usize, to: usize, cap: u64) -> (number: Option<u64>)
    requires
        from <= to <= bytes@.len(),
    ensures
        number is Some <==> digit_bytes(bytes@.subrange(from as int, to as int)),
        number matches Some(n) ==> n == if number_of(bytes@.subrange(from as int, to as int))
            < cap {
            number_of(bytes@.subrange(from as int, to as int))
        } else {
            cap as nat
        },
{
    let ghost part = bytes@.subrange(from as int, to as int);
    if from == to {
        return None;
    }
    let mut number: u64 = 0;
    let mut i: usize = from;
    while i < to
        invariant
            from <= i <= to <= bytes@.len(),
            part == bytes@.subrange(from as int, to as int),
            forall|j: int| 0 <= j < i - from ==> digit_byte(#[trigger] part[j]),
            number == if number_of(part.take(i - from)) < cap {
                number_of(part.take(i - from))
            } else {
                cap as nat
            },
        decreases to - i,
    {
        if !is_digit(bytes[i]) {
            assert(!digit_byte(part[i - from]));
            return None;
        }
        let next: u128 = number as u128 * 10 + (bytes[i] - '0' as u8) as u128;
        proof {
            assert(part.take(i - from + 1).drop_last() == part.take(i - from));
            assert(digit_byte(part[i - from]));
        }
        if next < cap as u128 {
            number = next as u64;
        } else {
            number = cap;
        }
        i = i + 1;
    }
    assert(part.take(to - from) == part);
    Some(number)
}

fn is_octet(bytes: &[u8], from: usize, to: usize) -> (yes: bool)
    requires
        from <= to <= bytes@.len(),
    ensures
        yes == octet(bytes@.subrange(from as int, to as int)),
{
    let ghost part = bytes@.subrange(from as int, to as int);
    let mut start: usize = from;
    if from < to && bytes[from] == '+' as u8 {
        start = from + 1;
        assert(part.skip(1) == bytes@.subrange(start as int, to as int));
    }
    match capped_number(bytes, start, to, 256) {
        Some(number) => number < 256,
        None => false,
    }
}

fn are_octets(bytes: &[u8], to: usize) -> (yes: bool)
    requires
        to <= bytes@.len(),
    ensures
        yes == octets(bytes@.take(to as int)),
{
    let ghost host = bytes@.take(to as int);
    let dot: u8 = '.' as u8;
    let ghost mut done: Seq<Seq<u8>> = Seq::empty();
    let mut start: usize = 0;
    let mut i: usize = 0;
    let mut yes = true;
    assert(host.take(0) == Seq::<u8>::empty());
    assert(bytes@.subrange(0, 0) == Seq::<u8>::empty());
    while i < to
        invariant
            dot == '.' as u8,
            start <= i <= to <= bytes@.len(),
            host == bytes@.take(to as int),
            fields(host.take(i as int), dot) == done.push(bytes@.subrange(start as int, i as int)),
            yes == (forall|j: int| 0 <= j < done.len() ==> octet(#[trigger] done[j])),
        decreases to - i,
    {
        let ghost current = bytes@.subrange(start as int, i as int);
        proof {
            assert(host.take(i + 1).drop_last() == host.take(i as int));
            assert(done.push(current).drop_last() == done);
        }
        if bytes[i] == dot {
            let good = is_octet(bytes, start, i);
            proof {
                let before = done;
                done = done.push(current);
                assert(done[before.len() as int] == current);
                assert(forall|j: int| 0 <= j < before.len() ==> done[j] == before[j]);
                assert(bytes@.subrange(i + 1, i + 1) == Seq::<u8>::empty());
            }
            yes = yes && good;
            start = i + 1;
        } else {
            assert(current.push(bytes@[i as int]) == bytes@.subrange(start as int, i + 1));
        }
        i = i + 1;
    }
    let good = is_octet(bytes, start, to);
    proof {
        assert(host.take(to as int) == host);
        let last = bytes@.subrange(start as int, to as int);
        let all = fields(host, dot);
        assert(all == done.push(last));
        assert(all[done.len() as int] == last);
        assert(forall|j: int| 0 <= j < done.len() ==> all[j] == done[j]);
    }
    yes && good
}

fn is_uuid(bytes: &[u8]) -> (yes: bool)
    ensures
        yes == uuid_shape(bytes@),
{
    if bytes.len() != 36 {
        return false;
    }
    let mut i: usize = 0;
    while i < 36
        invariant
            i <= 36,
            bytes@.len() == 36,
            forall|j: int|
                0 <= j < i ==> if uuid_dash(j) {
                    #[trigger] bytes@[j] == '-' as u8
                } else {
                    hex_byte(bytes@[j])
                },
        decreases 36 - i,
    {
        let good = if i == 8 || i == 13 || i == 18 || i == 23 {
            bytes[i] == '-' as u8
        } else {
            is_hex(bytes[i])
        };
        if !good {
            return false;
        }
        i = i + 1;
    }
    true
}

fn is_numeric_start(bytes: &[u8]) -> (yes: bool)
    ensures
        yes == starts_numeric(bytes@),
{
    bytes.len() > 0 && (is_digit(bytes[0]) || (bytes[0] == '-' as u8 && bytes.len() > 1
        && is_digit(bytes[1])))
}

fn has_unit_suffix(bytes: &[u8]) -> (yes: bool)
    ensures
        yes == unit_suffix(bytes@),
{
    let len: usize = bytes.len();
    if len < 2 {
        return false;
    }
    let last: u8 = bytes[len - 1];
    let previous: u8 = bytes[len - 2];
    if last == 's' as u8 {
        len == 2 || previous == 'n' as u8 || previous == 'm' as u8 || previous == 'u' as u8
            || is_digit(previous)
    } else {
        (last == 'm' as u8 || last == 'h' as u8) && is_digit(previous)
    }
}

fn has_micro_suffix(bytes: &[u8]) -> (yes: bool)
    ensures
        yes == micro_suffix(bytes@),
{
    let len: usize = bytes.len();
    len >= 3 && bytes[len - 3] == 0xc2 && bytes[len - 2] == 0xb5 && bytes[len - 1] == 's' as u8
}

fn is_float(bytes: &[u8]) -> (yes: bool)
    ensures
        yes == float_shape(bytes@),
{
    let mut from: usize = 0;
    if bytes.len() > 0 && bytes[0] == '-' as u8 {
        from = 1;
    }
    let ghost number = bytes@.skip(from as int);
    proof {
        assert(number == bytes@.subrange(from as int, bytes@.len() as int));
        if from == 0 {
            assert(number == bytes@);
        }
    }
    let mut any_digit = false;
    let mut i: usize = from;
    while i < bytes.len()
        invariant
            from <= i <= bytes@.len(),
            number == bytes@.skip(from as int),
            number == without_start(bytes@, '-' as u8),
            forall|j: int|
                0 <= j < i - from ==> digit_byte(#[trigger] number[j]) || number[j] == '.' as u8,
            any_digit == (exists|j: int| 0 <= j < i - from && digit_byte(#[trigger] number[j])),
        decreases bytes@.len() - i,
    {
        let digit = is_digit(bytes[i]);
        assert(number[i - from] == bytes@[i as int]);
        if !digit && bytes[i] != '.' as u8 {
            return false;
        }
        any_digit = any_digit || digit;
        i = i + 1;
    }
    any_digit && count_byte(bytes, from, bytes.len(), '.' as u8) == 1
}

fn is_timestamp(bytes: &[u8]) -> (yes: bool)
    ensures
        yes == timestamp_shape(bytes@),
{
    bytes.len() >= 19 && bytes[4] == '-' as u8 && bytes[7] == '-' as u8
}

fn is_integer(bytes: &[u8]) -> (yes: bool)
    ensures
        yes == integer_shape(bytes@),
{
    let negative = bytes.len() > 0 && bytes[0] == '-' as u8;
    let mut from: usize = 0;
    if negative || (bytes.len() > 0 && bytes[0] == '+' as u8) {
        from = 1;
    }
    proof {
        assert(bytes@.subrange(from as int, bytes@.len() as int) == bytes@.skip(from as int));
        assert(bytes@.skip(0) == bytes@);
    }
    match capped_number(bytes, from, bytes.len(), 0x8000_0000_0000_0001) {
        Some(number) => if negative {
            number <= 0x8000_0000_0000_0000
        } else {
            number <= 0x7fff_ffff_ffff_ffff
        },
        None => false,
    }
}

fn is_hex_id(bytes: &[u8]) -> (yes: bool)
    ensures
        yes == hex_id_shape(bytes@),
{
    if bytes.len() < 4 {
        return false;
    }
    let mut from: usize = 0;
    if bytes[0] == '0' as u8 && bytes[1] == 'x' as u8 {
        from = 2;
    }
    let ghost digits = bytes@.skip(from as int);
    assert(bytes@.skip(0) == bytes@);
    if bytes.len() - from < 4 {
        return false;
    }
    let mut any_letter = false;
    let mut i: usize = from;
    while i < bytes.len()
        invariant
            from <= i <= bytes@.len(),
            digits == bytes@.skip(from as int),
            hex_id_shape(bytes@) == hex_digits(digits),
            forall|j: int| 0 <= j < i - from ==> hex_byte(#[trigger] digits[j]),
            any_letter == (exists|j: int| 0 <= j < i - from && !digit_byte(#[trigger] digits[j])),
        decreases bytes@.len() - i,
    {
        assert(digits[i - from] == bytes@[i as int]);
        if !is_hex(bytes[i]) {
            return false;
        }
        any_letter = any_letter || !is_digit(bytes[i]);
        i = i + 1;
    }
    any_letter
}

fn is_ipv4_candidate(bytes: &[u8]) -> (yes: bool)
    ensures
        yes == ipv4_candidate(bytes@),
{
    if !is_numeric_start(bytes) {
        return false;
    }
    let host: usize = host_len(bytes);
    assert(bytes@.subrange(0, host as int) == bytes@.take(host as int));
    count_byte(bytes, 0, host, '.' as u8) == 3
}

fn is_ipv6_candidate(bytes: &[u8]) -> (yes: bool)
    ensures
        yes == ipv6_candidate(bytes@),
{
    assert(bytes@.subrange(0, bytes@.len() as int) == bytes@);
    count_byte(bytes, 0, bytes.len(), ':' as u8) >= 2
}

/// Classifies a value, given which of the three patterns match it.
pub fn classify_matched(value: &str, duration: bool, ipv4: bool, ipv6: bool) -> (kind: VarType)
    ensures
        kind == classification(encode_utf8(value@), duration, ipv4, ipv6),
{
    let bytes = value.as_bytes();
    if is_uuid(bytes) {
        return VarType::UUID;
    }
    if is_numeric_start(bytes) {
        if has_unit_suffix(bytes) && duration {
            return VarType::Duration;
        }
        if is_ipv4_candidate(bytes) && ipv4 && are_octets(bytes, host_len(bytes)) {
            return VarType::IPv4;
        }
        if is_float(bytes) {
            return VarType::Float;
        }
        if is_timestamp(bytes) {
            return VarType::Timestamp;
        }
        if is_integer(bytes) {
            return VarType::Integer;
        }
    }
    if is_ipv6_candidate(bytes) && ipv6 {
        VarType::IPv6
    } else if is_hex_id(bytes) {
        VarType::HexID
    } else if has_micro_suffix(bytes) && duration {
        VarType::Duration
    } else {
        VarType::String
    }
}

/// Classifies a raw variable string into a `VarType`. The patterns are only
/// tried where plain looks at the bytes leave the question open.
pub fn classify_variable(value: &str) -> (kind: VarType)
    ensures
        kind == var_type(value@),
        plain_text(value@) ==> kind == plain_var_type(value@),
        kind == VarType::IPv6 <==> ipv6_text(value@),
{
    proof {
        an_ipv6_address_is_told_by_its_groups(value@);
    }
    let bytes = value.as_bytes();
    let duration = ((is_numeric_start(bytes) && has_unit_suffix(bytes)) || has_micro_suffix(bytes))
        && regex_is_match(DURATION, value);
    let ipv4 = is_ipv4_candidate(bytes) && regex_is_match(IPV4, value);
    let ipv6 = is_ipv6_candidate(bytes) && regex_is_match(IPV6, value);
    classify_matched(value, duration, ipv4, ipv6)
}

} // verus!
