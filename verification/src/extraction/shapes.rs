//! Which texts are of which kind, place by place. Bytes are those of the text in
//! UTF-8: 48 to 57 are the decimal digits, 65 to 70 and 97 to 102 the letters of
//! hexadecimal ones, 45 is `-`, 46 is `.`, 58 is `:` and 120 is `x`.

use crate::extraction::classify::{
    decimal_text, digit_byte, digit_bytes, digit_char, dotted_digits, duration_text, fields,
    fields_count, first_field, float_shape, hex_byte, hex_digits, hex_id_shape, host_part,
    integer_shape, ipv4_text, ipv6_text, micro_suffix, no_separator, number_of, octet, octets,
    plain_text, plain_var_type, regex_match, separator_occurs, starts_numeric, timestamp_shape,
    unit_suffix, unit_text, uuid_dash, uuid_shape, var_type, without_start, DURATION, IPV4, IPV6,
};
use crate::extraction::kinds::an_ipv6_address_is_told_by_its_groups;
use crate::text::occurrences;
use crate::types::VarType;
use vstd::prelude::*;
use vstd::utf8::{
    encode_scalar, encode_utf8, is_ascii_chars, is_ascii_chars_encode_utf8, last_continuation_byte,
    leading_byte_width_1, leading_byte_width_2,
};

verus! {

/// The patterns, written out.
pub proof fn the_patterns()
    ensures
        DURATION@ == "^-?\\d+\\.?\\d*(ns|us|µs|ms|s|m|h)$"@,
        IPV4@ == "^\\d{1,3}\\.\\d{1,3}\\.\\d{1,3}\\.\\d{1,3}(:\\d+)?$"@,
        IPV6@ == "^([0-9a-fA-F]{0,4}:){2,7}[0-9a-fA-F]{0,4}$"@,
{
}

/// Plain text has ASCII characters and micro signs in it, anywhere, and no others.
pub proof fn what_plain_text_is(s: Seq<char>)
    ensures
        plain_text(s) <==> forall|i: int|
            0 <= i < s.len() ==> (#[trigger] s[i] as u32) < 0x80 || s[i] == 'µ',
        is_ascii_chars(s) ==> plain_text(s),
{
}

/// A digit more behind digits stands for ten times their number and itself.
pub proof fn a_digit_counts_ten_times_the_next(digits: Seq<u8>, digit: u8)
    requires
        48 <= digit <= 57,
    ensures
        number_of(Seq::empty()) == 0,
        number_of(digits.push(digit)) == 10 * number_of(digits) + (digit - 48),
{
    assert(digits.push(digit).drop_last() =~= digits);
}

proof fn one_place<T>(s: Seq<T>, x: T, at: int)
    requires
        0 <= at < s.len(),
        s[at] == x,
        forall|i: int| 0 <= i < s.len() && i != at ==> s[i] != x,
    ensures
        occurrences(s, x) == 1,
    decreases s.len(),
{
    let front = s.drop_last();
    if at == s.len() - 1 {
        assert forall|i: int| 0 <= i < front.len() implies front[i] != x by {
            assert(front[i] == s[i]);
        }
        no_separator(front, x);
    } else {
        assert forall|i: int| 0 <= i < front.len() && i != at implies front[i] != x by {
            assert(front[i] == s[i]);
        }
        assert(s.last() == s[s.len() - 1]);
        one_place(front, x, at);
    }
}

proof fn the_place<T>(s: Seq<T>, x: T) -> (at: int)
    requires
        occurrences(s, x) == 1,
    ensures
        0 <= at < s.len(),
        s[at] == x,
        forall|i: int| 0 <= i < s.len() && i != at ==> s[i] != x,
    decreases s.len(),
{
    let front = s.drop_last();
    if s.last() == x {
        nowhere(front, x);
        assert forall|i: int| 0 <= i < s.len() && i != s.len() - 1 implies s[i] != x by {
            assert(front[i] == s[i]);
        }
        s.len() - 1
    } else {
        let at = the_place(front, x);
        assert forall|i: int| 0 <= i < s.len() && i != at implies s[i] != x by {
            if i < front.len() {
                assert(front[i] == s[i]);
            }
        }
        at
    }
}

proof fn nowhere<T>(s: Seq<T>, x: T)
    requires
        occurrences(s, x) == 0,
    ensures
        forall|i: int| 0 <= i < s.len() ==> s[i] != x,
    decreases s.len(),
{
    if s.len() > 0 {
        nowhere(s.drop_last(), x);
        assert forall|i: int| 0 <= i < s.len() implies s[i] != x by {
            if i < s.len() - 1 {
                assert(s.drop_last()[i] == s[i]);
            }
        }
    }
}

/// A UUID is 36 bytes: dashes in the four places where they belong, and hexadecimal
/// digits in all others.
pub proof fn what_a_uuid_is(value: Seq<char>)
    ensures
        var_type(value) == VarType::UUID <==> {
            let s = encode_utf8(value);
            s.len() == 36 && forall|i: int|
                0 <= i < 36 ==> if i == 8 || i == 13 || i == 18 || i == 23 {
                    #[trigger] s[i] == 45
                } else {
                    48 <= s[i] <= 57 || 97 <= s[i] <= 102 || 65 <= s[i] <= 70
                }
        },
{
    let s = encode_utf8(value);
    assert forall|i: int| #[trigger] uuid_dash(i) <==> i == 8 || i == 13 || i == 18 || i == 23 by {}
    assert(var_type(value) == VarType::UUID <==> uuid_shape(s));
}

/// An integer is decimal digits and nothing else, at least one, a minus before them or
/// not, for a number that `i64` has room for.
pub proof fn what_an_integer_is(value: Seq<char>)
    ensures
        var_type(value) == VarType::Integer <==> {
            let s = encode_utf8(value);
            let start: int = if s.len() > 0 && s[0] == 45 {
                1
            } else {
                0
            };
            &&& s.len() > start
            &&& forall|i: int| start <= i < s.len() ==> 48 <= #[trigger] s[i] <= 57
            &&& number_of(s.skip(start)) <= if start == 1 {
                0x8000_0000_0000_0000nat
            } else {
                0x7fff_ffff_ffff_ffffnat
            }
        },
{
    let s = encode_utf8(value);
    let start: int = if s.len() > 0 && s[0] == 45 {
        1
    } else {
        0
    };
    let digits = s.skip(start);
    assert(s.skip(0) =~= s);
    if s.len() > start && forall|i: int| start <= i < s.len() ==> 48 <= #[trigger] s[i] <= 57 {
        assert forall|i: int| 0 <= i < digits.len() implies digit_byte(#[trigger] digits[i]) by {
            assert(digits[i] == s[start + i]);
        }
        no_separator(s, 58u8);
        no_separator(s, 46u8);
        first_field(s, 58u8, s.len() as int);
        assert(host_part(s) =~= s);
        assert(48 <= s[start] <= 57);
        assert(48 <= s[s.len() - 1] <= 57);
        if s.len() >= 19 {
            assert(48 <= s[4] <= 57);
        }
        if s.len() == 36 {
            assert(48 <= s[8] <= 57);
        }
        let number = without_start(s, 45u8);
        assert(number == digits);
        no_separator(digits, 46u8);
    }
    if var_type(value) == VarType::Integer {
        assert(digit_bytes(digits));
        assert forall|i: int| start <= i < s.len() implies 48 <= #[trigger] s[i] <= 57 by {
            assert(digit_byte(digits[i - start]));
        }
    }
}

/// A float is decimal digits with one dot among them, not in the first place, a minus
/// before them or not.
pub proof fn what_a_float_is(value: Seq<char>)
    ensures
        var_type(value) == VarType::Float <==> {
            let s = encode_utf8(value);
            let start: int = if s.len() > 0 && s[0] == 45 {
                1
            } else {
                0
            };
            exists|dot: int| start < dot < s.len() && #[trigger] s[dot] == 46 && forall|i: int|
                start <= i < s.len() && i != dot ==> 48 <= #[trigger] s[i] <= 57
        },
{
    let s = encode_utf8(value);
    let start: int = if s.len() > 0 && s[0] == 45 {
        1
    } else {
        0
    };
    let digits = s.skip(start);
    assert(s.skip(0) =~= s);
    assert(without_start(s, 45u8) == digits);
    if exists|dot: int| start < dot < s.len() && #[trigger] s[dot] == 46 && forall|i: int|
        start <= i < s.len() && i != dot ==> 48 <= #[trigger] s[i] <= 57 {
        let dot = choose|dot: int|
            start < dot < s.len() && #[trigger] s[dot] == 46 && forall|i: int|
                start <= i < s.len() && i != dot ==> 48 <= #[trigger] s[i] <= 57;
        assert(48 <= s[start] <= 57);
        one_place(s, 46u8, dot);
        assert forall|i: int| 0 <= i < digits.len() && i != dot - start implies digits[i]
            != 46u8 by {
            assert(digits[i] == s[start + i]);
        }
        one_place(digits, 46u8, dot - start);
        assert forall|i: int| 0 <= i < digits.len() implies digit_byte(#[trigger] digits[i])
            || digits[i] == 46u8 by {
            assert(digits[i] == s[start + i]);
        }
        assert(digit_byte(digits[0]));
        no_separator(s, 58u8);
        first_field(s, 58u8, s.len() as int);
        assert(host_part(s) =~= s);
        assert(s[s.len() - 1] == 46 || 48 <= s[s.len() - 1] <= 57);
        if s.len() == 36 {
            assert(s[8] == 46 || 48 <= s[8] <= 57);
        }
        assert(starts_numeric(s));
    }
    if var_type(value) == VarType::Float {
        let at = the_place(digits, 46u8);
        assert(digits[at] == s[start + at]);
        assert(digit_byte(s[start]));
        assert(at != 0);
        assert forall|i: int| start <= i < s.len() && i != start + at implies 48 <= #[trigger] s[i]
            <= 57 by {
            assert(digits[i - start] == s[i]);
            assert(digit_byte(digits[i - start]) || digits[i - start] == 46u8);
        }
        assert(s[start + at] == 46);
    }
}

/// A hexadecimal identifier is hexadecimal digits and nothing else, at least four and
/// not all of them decimal, `0x` before them or not.
pub proof fn what_a_hex_id_is(value: Seq<char>)
    ensures
        var_type(value) == VarType::HexID <==> {
            let s = encode_utf8(value);
            let start: int = if s.len() >= 2 && s[0] == 48 && s[1] == 120 {
                2
            } else {
                0
            };
            &&& s.len() >= start + 4
            &&& forall|i: int|
                start <= i < s.len() ==> 48 <= #[trigger] s[i] <= 57 || 97 <= s[i] <= 102 || 65
                    <= s[i] <= 70
            &&& exists|i: int| start <= i < s.len() && !(48 <= #[trigger] s[i] <= 57)
        },
{
    let s = encode_utf8(value);
    let start: int = if s.len() >= 2 && s[0] == 48 && s[1] == 120 {
        2
    } else {
        0
    };
    let digits = s.skip(start);
    assert(s.skip(0) =~= s);
    if s.len() >= start + 4 && (forall|i: int|
        start <= i < s.len() ==> 48 <= #[trigger] s[i] <= 57 || 97 <= s[i] <= 102 || 65 <= s[i]
            <= 70) && exists|i: int| start <= i < s.len() && !(48 <= #[trigger] s[i] <= 57) {
        let odd = choose|i: int| start <= i < s.len() && !(48 <= #[trigger] s[i] <= 57);
        assert(!digit_byte(digits[odd - start]));
        assert forall|i: int| 0 <= i < digits.len() implies hex_byte(#[trigger] digits[i]) by {
            assert(digits[i] == s[start + i]);
        }
        assert(hex_digits(digits));
        assert forall|i: int| 0 <= i < s.len() implies s[i] != 58u8 && s[i] != 46u8 && s[i]
            != 45u8 by {
            if i >= start {
                assert(48 <= s[i] <= 57 || 97 <= s[i] <= 102 || 65 <= s[i] <= 70);
            }
        }
        no_separator(s, 58u8);
        no_separator(s, 46u8);
        first_field(s, 58u8, s.len() as int);
        assert(host_part(s) =~= s);
        assert(s[0] != 45u8);
        assert(without_start(s, 45u8) == s);
        let last = s.len() - 1;
        assert(48 <= s[last] <= 57 || 97 <= s[last] <= 102 || 65 <= s[last] <= 70);
        if s.len() == 36 {
            assert(s[8] != 45u8);
        }
        if s.len() >= 19 {
            assert(s[4] != 45u8);
        }
        if s[0] == 43u8 {
            assert(start == 0);
            assert(48 <= s[0] <= 57 || 97 <= s[0] <= 102 || 65 <= s[0] <= 70);
        }
        assert(!digit_byte(s[odd]));
        assert(without_start(s, 43u8) == s);
        assert(!digit_bytes(s));
    }
    if var_type(value) == VarType::HexID {
        assert(hex_digits(digits));
        assert forall|i: int| start <= i < s.len() implies 48 <= #[trigger] s[i] <= 57 || 97 <= s[i]
            <= 102 || 65 <= s[i] <= 70 by {
            assert(hex_byte(digits[i - start]));
        }
        let odd = choose|i: int| 0 <= i < digits.len() && !digit_byte(#[trigger] digits[i]);
        assert(digits[odd] == s[start + odd]);
    }
}

/// A timestamp has at least 19 bytes, a digit first or a minus and then a digit, and
/// dashes in the fifth and the eighth place. All that has this is a timestamp, unless
/// one of the patterns takes it for a duration or an address.
pub proof fn what_a_timestamp_is(value: Seq<char>)
    ensures
        ({
            let s = encode_utf8(value);
            let shape = s.len() >= 19 && (48 <= s[0] <= 57 || s[0] == 45 && 48 <= s[1] <= 57)
                && s[4] == 45 && s[7] == 45;
            &&& var_type(value) == VarType::Timestamp ==> shape
            &&& shape && !regex_match(DURATION@, value) && !regex_match(IPV4@, value)
                ==> var_type(value) == VarType::Timestamp
        }),
{
    let s = encode_utf8(value);
    if s.len() >= 19 && s[4] == 45 {
        what_a_uuid_is(value);
        what_a_float_is(value);
        if var_type(value) == VarType::Float {
            let start: int = if s[0] == 45 {
                1
            } else {
                0
            };
            let dot = choose|dot: int|
                start < dot < s.len() && #[trigger] s[dot] == 46 && forall|i: int|
                    start <= i < s.len() && i != dot ==> 48 <= #[trigger] s[i] <= 57;
            assert(48 <= s[4] <= 57);
        }
        if uuid_shape(s) {
            assert(!uuid_dash(4));
            assert(hex_byte(s[4]));
        }
    }
}

/// A date and a time, `dddd-dd-ddTdd:dd:dd` with a `T` or a space between them, are a
/// timestamp, with whatever ASCII characters behind them: nothing, a `Z`, a fraction of
/// a second, a zone. Only a last character that could end a unit of time is left out.
pub proof fn a_date_and_a_time_are_a_timestamp(value: Seq<char>)
    requires
        is_ascii_chars(value),
        value.len() >= 19,
        forall|i: int|
            #![trigger value[i]]
            0 <= i < 19 ==> if i == 4 || i == 7 {
                value[i] == '-'
            } else if i == 10 {
                value[i] == 'T' || value[i] == ' '
            } else if i == 13 || i == 16 {
                value[i] == ':'
            } else {
                '0' <= value[i] <= '9'
            },
        value.last() != 's' && value.last() != 'm' && value.last() != 'h',
    ensures
        var_type(value) == VarType::Timestamp,
{
    let s = encode_utf8(value);
    is_ascii_chars_encode_utf8(value);
    assert('0' <= value[0] <= '9' && value[4] == '-' && value[7] == '-' && value[13] == ':');
    assert(s[0] == value[0] as u8 && s[4] == value[4] as u8 && s[7] == value[7] as u8);
    let last = value.len() - 1;
    assert(value[last] as u8 == s[last]);
    assert(value[last] == value.last());
    assert forall|i: int| 0 <= i < 13 implies s[i] != 58u8 && s[i] != 46u8 by {
        assert(s[i] == value[i] as u8);
    }
    assert(s[13] == value[13] as u8);
    first_field(s, 58u8, 13);
    no_separator(host_part(s), 46u8);
    what_a_uuid_is(value);
    what_a_float_is(value);
    if var_type(value) == VarType::Float {
        let dot = choose|dot: int|
            0 < dot < s.len() && #[trigger] s[dot] == 46 && forall|i: int|
                0 <= i < s.len() && i != dot ==> 48 <= #[trigger] s[i] <= 57;
        assert(48 <= s[4] <= 57);
    }
    if uuid_shape(s) {
        assert(!uuid_dash(4));
        assert(hex_byte(s[4]));
    }
}

/// The last field is the end of a sequence from behind the last separator on.
proof fn the_last_field<T>(s: Seq<T>, separator: T)
    ensures
        fields(s, separator).len() > 0,
        fields(s, separator).last().len() <= s.len(),
        fields(s, separator).last() == s.skip(s.len() - fields(s, separator).last().len()),
        forall|i: int|
            0 <= i < fields(s, separator).last().len() ==> fields(s, separator).last()[i]
                != separator,
        fields(s, separator).last().len() < s.len() ==> s[s.len() - fields(
            s,
            separator,
        ).last().len() - 1] == separator,
    decreases s.len(),
{
    fields_count(s, separator);
    if s.len() > 0 {
        let front = s.drop_last();
        the_last_field(front, separator);
        let before = fields(front, separator).last();
        let last = fields(s, separator).last();
        if s.last() != separator {
            assert(last == before.push(s.last()));
            assert(last =~= s.skip(s.len() - last.len())) by {
                assert forall|i: int| 0 <= i < last.len() implies last[i] == s.skip(
                    s.len() - last.len(),
                )[i] by {
                    if i < before.len() {
                        assert(before[i] == front.skip(front.len() - before.len())[i]);
                    }
                }
            }
            if before.len() < front.len() {
                assert(front[front.len() - before.len() - 1] == s[s.len() - last.len() - 1]);
            }
        } else {
            assert(last =~= s.skip(s.len() as int));
        }
    } else {
        assert(fields(s, separator).last() =~= s.skip(0));
    }
}

/// No field is longer than `most` items exactly where among any `most + 1` items in a
/// row there is a separator.
proof fn short_fields<T>(s: Seq<T>, separator: T, most: nat)
    ensures
        (forall|j: int|
            0 <= j < fields(s, separator).len() ==> (#[trigger] fields(s, separator)[j]).len()
                <= most) <==> (forall|i: int|
            #![trigger s.subrange(i, i + most + 1)]
            0 <= i && i + most + 1 <= s.len() ==> s.subrange(i, i + most + 1).contains(
                separator,
            )),
    decreases s.len(),
{
    let all = fields(s, separator);
    the_last_field(s, separator);
    if s.len() == 0 {
        assert(all =~= seq![Seq::<T>::empty()]);
    } else {
        let front = s.drop_last();
        let before = fields(front, separator);
        let width = most + 1;
        short_fields(front, separator, most);
        the_last_field(front, separator);
        let end = s.len() - width;
        assert forall|i: int| 0 <= i && i + width <= front.len() implies #[trigger] s.subrange(
            i,
            i + most + 1,
        ) == front.subrange(i, i + most + 1) by {
            assert(s.subrange(i, i + most + 1) =~= front.subrange(i, i + most + 1));
        }
        let short = forall|j: int| 0 <= j < all.len() ==> (#[trigger] all[j]).len() <= most;
        let windows = forall|i: int|
            #![trigger s.subrange(i, i + most + 1)]
            0 <= i && i + most + 1 <= s.len() ==> s.subrange(i, i + most + 1).contains(separator);
        if short {
            assert forall|j: int| 0 <= j < before.len() implies (#[trigger] before[j]).len()
                <= most by {
                if s.last() == separator || j < before.len() - 1 {
                    assert(all[j] == before[j]);
                } else {
                    assert(all[j] == before[j].push(s.last()));
                }
            }
            assert forall|i: int|
                #![trigger s.subrange(i, i + most + 1)]
                0 <= i && i + most + 1 <= s.len() implies s.subrange(i, i + most + 1).contains(
                separator,
            ) by {
                if i + most + 1 <= front.len() {
                    assert(front.subrange(i, i + most + 1).contains(separator));
                } else {
                    let last = all[all.len() - 1];
                    let at = s.len() - last.len() - 1;
                    assert(s[at] == separator);
                    assert(s.subrange(i, i + most + 1)[at - i] == separator);
                }
            }
        }
        if windows {
            assert forall|i: int|
                #![trigger front.subrange(i, i + most + 1)]
                0 <= i && i + most + 1 <= front.len() implies front.subrange(
                i,
                i + most + 1,
            ).contains(separator) by {
                assert(s.subrange(i, i + most + 1).contains(separator));
            }
            assert forall|j: int| 0 <= j < all.len() implies (#[trigger] all[j]).len() <= most by {
                if j < all.len() - 1 {
                    assert(all[j] == before[j]);
                } else if s.last() != separator {
                    let last = all[all.len() - 1];
                    if last.len() > most {
                        let window = s.subrange(end, end + most + 1);
                        assert(window.contains(separator));
                        let k = choose|k: int| 0 <= k < window.len() && window[k] == separator;
                        assert(window[k] == s[end + k]);
                        let place = end + k - (s.len() - last.len());
                        assert(last[place] == s[end + k]);
                    }
                }
            }
        }
    }
}

/// An IPv6 address has colons and hexadecimal digits in it and nothing else, two to
/// seven colons, and never more than four digits in a row.
pub proof fn what_an_ipv6_address_is(value: Seq<char>)
    ensures
        var_type(value) == VarType::IPv6 <==> {
            &&& forall|i: int|
                0 <= i < value.len() ==> {
                    ||| #[trigger] value[i] == ':'
                    ||| '0' <= value[i] <= '9'
                    ||| 'a' <= value[i] <= 'f'
                    ||| 'A' <= value[i] <= 'F'
                }
            &&& 2 <= occurrences(value, ':') <= 7
            &&& forall|i: int|
                #![trigger value.subrange(i, i + 4 + 1)]
                0 <= i && i + 4 + 1 <= value.len() ==> value.subrange(i, i + 4 + 1).contains(':')
        },
{
    an_ipv6_address_is_told_by_its_groups(value);
    fields_count(value, ':');
    short_fields(value, ':', 4);
    assert(ipv6_text(value) <==> 3 <= fields(value, ':').len() <= 8 && (forall|j: int|
        0 <= j < fields(value, ':').len() ==> (#[trigger] fields(value, ':')[j]).len() <= 4)
        && forall|i: int|
        0 <= i < value.len() ==> {
            ||| #[trigger] value[i] == ':'
            ||| '0' <= value[i] <= '9'
            ||| 'a' <= value[i] <= 'f'
            ||| 'A' <= value[i] <= 'F'
        });
}

proof fn one_field<T>(s: Seq<T>, separator: T)
    requires
        forall|i: int| 0 <= i < s.len() ==> s[i] != separator,
    ensures
        fields(s, separator) == seq![s],
{
    no_separator(s, separator);
    fields_count(s, separator);
    first_field(s, separator, s.len() as int);
    assert(s.take(s.len() as int) =~= s);
    assert(fields(s, separator) =~= seq![s]);
}

proof fn one_field_more<T>(a: Seq<T>, separator: T, b: Seq<T>)
    requires
        forall|i: int| 0 <= i < b.len() ==> b[i] != separator,
    ensures
        fields(a + seq![separator] + b, separator) == fields(a, separator).push(b),
    decreases b.len(),
{
    let start = a + seq![separator];
    assert(start.drop_last() =~= a);
    if b.len() == 0 {
        assert(start + b =~= start);
        assert(b =~= Seq::<T>::empty());
    } else {
        let front = b.drop_last();
        assert forall|i: int| 0 <= i < front.len() implies front[i] != separator by {
            assert(front[i] == b[i]);
        }
        one_field_more(a, separator, front);
        assert((start + b).drop_last() =~= start + front);
        assert((start + b).last() == b[b.len() - 1]);
        assert(fields(a, separator).push(front).drop_last() =~= fields(a, separator));
        assert(front.push(b.last()) =~= b);
    }
}

/// What stands before the last separator.
proof fn before_the_last_field<T>(s: Seq<T>, separator: T) -> (a: Seq<T>)
    requires
        fields(s, separator).len() > 1,
    ensures
        s == a + seq![separator] + fields(s, separator).last(),
        fields(a, separator) == fields(s, separator).drop_last(),
{
    the_last_field(s, separator);
    let last = fields(s, separator).last();
    if last.len() == s.len() {
        assert(last =~= s);
        one_field(s, separator);
    }
    let a = s.take(s.len() - last.len() - 1);
    assert(s =~= a + seq![separator] + last);
    one_field_more(a, separator, last);
    assert(fields(a, separator) =~= fields(s, separator).drop_last());
    a
}

proof fn ascii_adds_up(a: Seq<char>, b: Seq<char>)
    requires
        is_ascii_chars(a),
        is_ascii_chars(b),
    ensures
        is_ascii_chars(a + b),
        encode_utf8(a + b) == encode_utf8(a) + encode_utf8(b),
{
    let s = a + b;
    assert forall|i: int| 0 <= i < s.len() implies '\0' <= #[trigger] s[i] <= '\u{7f}' by {
        if i < a.len() {
            assert(s[i] == a[i]);
        } else {
            assert(s[i] == b[i - a.len()]);
        }
    }
    is_ascii_chars_encode_utf8(a);
    is_ascii_chars_encode_utf8(b);
    is_ascii_chars_encode_utf8(s);
    assert forall|i: int| 0 <= i < s.len() implies encode_utf8(s)[i] == (encode_utf8(a)
        + encode_utf8(b))[i] by {
        assert(s[i] as u8 == encode_utf8(s)[i]);
        if i < a.len() {
            assert(a[i] as u8 == encode_utf8(a)[i]);
        } else {
            assert(b[i - a.len()] as u8 == encode_utf8(b)[i - a.len()]);
        }
    }
    assert(encode_utf8(s) =~= encode_utf8(a) + encode_utf8(b));
}

proof fn ascii_fields(s: Seq<char>, c: char)
    requires
        is_ascii_chars(s),
        (c as u32) < 0x80,
    ensures
        fields(encode_utf8(s), c as u8).len() == fields(s, c).len(),
        forall|j: int|
            0 <= j < fields(s, c).len() ==> is_ascii_chars(#[trigger] fields(s, c)[j]) && fields(
                encode_utf8(s),
                c as u8,
            )[j] == encode_utf8(fields(s, c)[j]),
    decreases s.len(),
{
    is_ascii_chars_encode_utf8(s);
    fields_count(s, c);
    fields_count(encode_utf8(s), c as u8);
    if s.len() == 0 {
        assert(encode_utf8(s) =~= Seq::<u8>::empty());
        assert(fields(s, c)[0] =~= Seq::<char>::empty());
    } else {
        let front = s.drop_last();
        let last = s.last();
        assert(s[s.len() - 1] == last);
        assert(is_ascii_chars(front)) by {
            assert forall|i: int| 0 <= i < front.len() implies '\0' <= #[trigger] front[i]
                <= '\u{7f}' by {
                assert(front[i] == s[i]);
            }
        }
        is_ascii_chars_encode_utf8(front);
        ascii_fields(front, c);
        fields_count(front, c);
        let bytes = encode_utf8(s);
        assert(s[s.len() - 1] as u8 == bytes[s.len() - 1]);
        assert(bytes.drop_last() =~= encode_utf8(front)) by {
            assert forall|i: int| 0 <= i < front.len() implies bytes[i] == encode_utf8(
                front,
            )[i] by {
                assert(s[i] as u8 == bytes[i]);
                assert(front[i] as u8 == encode_utf8(front)[i]);
            }
        }
        assert(bytes.last() == last as u8);
        assert(last == c <==> last as u8 == c as u8);
        let before = fields(front, c);
        if last == c {
            assert(encode_utf8(Seq::<char>::empty()) =~= Seq::<u8>::empty());
        } else {
            let open = before[before.len() - 1];
            assert(is_ascii_chars(open));
            assert(is_ascii_chars(seq![last]));
            ascii_adds_up(open, seq![last]);
            is_ascii_chars_encode_utf8(seq![last]);
            assert(seq![last][0] as u8 == encode_utf8(seq![last])[0]);
            assert(encode_utf8(seq![last]) =~= seq![last as u8]);
            assert(open + seq![last] =~= open.push(last));
            assert(encode_utf8(open) + seq![last as u8] =~= encode_utf8(open).push(last as u8));
        }
    }
}

/// The digits of an address, its number, and what its bytes say of it.
proof fn an_octet(g: Seq<char>)
    requires
        1 <= g.len() <= 3,
        forall|i: int| 0 <= i < g.len() ==> '0' <= #[trigger] g[i] <= '9',
    ensures
        is_ascii_chars(g),
        octet(encode_utf8(g)) <==> (if g.len() == 1 {
            g[0] as int - 48
        } else if g.len() == 2 {
            10 * (g[0] as int - 48) + (g[1] as int - 48)
        } else {
            100 * (g[0] as int - 48) + 10 * (g[1] as int - 48) + (g[2] as int - 48)
        }) <= 255,
{
    let s = encode_utf8(g);
    is_ascii_chars_encode_utf8(g);
    assert forall|i: int| 0 <= i < s.len() implies digit_byte(#[trigger] s[i]) && s[i] as int
        == g[i] as int by {
        assert(g[i] as u8 == s[i]);
    }
    assert(digit_byte(s[0]));
    assert(without_start(s, 43u8) == s);
    reveal_with_fuel(number_of, 4);
    if g.len() == 2 {
        assert(s.drop_last().last() == s[0]);
    } else if g.len() == 3 {
        assert(s.drop_last().last() == s[1]);
        assert(s.drop_last().drop_last().last() == s[0]);
    }
}

/// Four groups of one to three digits with dots between them, and a colon and digits
/// behind them or not, are an IPv4 address exactly where none of the groups stands for
/// more than 255.
pub proof fn four_groups_are_an_ipv4_address(
    all: Seq<Seq<char>>,
    port: Option<Seq<char>>,
    value: Seq<char>,
)
    requires
        all.len() == 4,
        forall|j: int|
            0 <= j < 4 ==> 1 <= (#[trigger] all[j]).len() <= 3 && forall|i: int|
                0 <= i < all[j].len() ==> '0' <= #[trigger] all[j][i] <= '9',
        port matches Some(digits) ==> digits.len() > 0 && forall|i: int|
            0 <= i < digits.len() ==> '0' <= #[trigger] digits[i] <= '9',
        value == all[0] + seq!['.'] + all[1] + seq!['.'] + all[2] + seq!['.'] + all[3]
            + match port {
            Some(digits) => seq![':'] + digits,
            None => Seq::empty(),
        },
    ensures
        plain_var_type(value) == VarType::IPv4 <==> forall|j: int|
            #![trigger all[j]]
            0 <= j < 4 ==> (if all[j].len() == 1 {
                all[j][0] as int - 48
            } else if all[j].len() == 2 {
                10 * (all[j][0] as int - 48) + (all[j][1] as int - 48)
            } else {
                100 * (all[j][0] as int - 48) + 10 * (all[j][1] as int - 48) + (all[j][2] as int
                    - 48)
            }) <= 255,
{
    let (g0, g1, g2, g3) = (all[0], all[1], all[2], all[3]);
    assert forall|i: int| 0 <= i < g0.len() implies '0' <= #[trigger] g0[i] <= '9' by {
        assert('0' <= all[0][i] <= '9');
    }
    assert forall|i: int| 0 <= i < g1.len() implies '0' <= #[trigger] g1[i] <= '9' by {
        assert('0' <= all[1][i] <= '9');
    }
    assert forall|i: int| 0 <= i < g2.len() implies '0' <= #[trigger] g2[i] <= '9' by {
        assert('0' <= all[2][i] <= '9');
    }
    assert forall|i: int| 0 <= i < g3.len() implies '0' <= #[trigger] g3[i] <= '9' by {
        assert('0' <= all[3][i] <= '9');
    }
    an_octet(g0);
    an_octet(g1);
    an_octet(g2);
    an_octet(g3);
    let h1 = g0 + seq!['.'] + g1;
    let h2 = h1 + seq!['.'] + g2;
    let host = h2 + seq!['.'] + g3;
    one_field(g0, '.');
    one_field_more(g0, '.', g1);
    one_field_more(h1, '.', g2);
    one_field_more(h2, '.', g3);
    let groups = fields(host, '.');
    assert(groups =~= all);
    assert forall|i: int| 0 <= i < host.len() implies ('0' <= #[trigger] host[i] <= '9'
        || host[i] == '.') by {}
    assert(is_ascii_chars(host));
    assert(host.len() > 0 && host[0] == g0[0]);
    let tail = match port {
        Some(digits) => seq![':'] + digits,
        None => Seq::empty(),
    };
    assert(value =~= host + tail);
    assert(is_ascii_chars(tail));
    ascii_adds_up(host, tail);
    one_field(host, ':');
    let parts = fields(value, ':');
    match port {
        Some(digits) => {
            assert(value =~= host + seq![':'] + digits);
            one_field_more(host, ':', digits);
            assert(parts =~= seq![host, digits]);
        },
        None => {
            assert(value =~= host);
            assert(parts =~= seq![host]);
        },
    }
    assert(ipv4_text(value));
    let s = encode_utf8(value);
    is_ascii_chars_encode_utf8(value);
    ascii_fields(value, ':');
    ascii_fields(host, '.');
    assert(host_part(s) == encode_utf8(host));
    fields_count(host_part(s), 46u8);
    assert forall|i: int| 0 <= i < s.len() implies 48 <= #[trigger] s[i] <= 57 || s[i] == 46
        || s[i] == 58 by {
        assert(s[i] == value[i] as u8);
        if i < host.len() {
            assert(value[i] == host[i]);
        } else {
            assert(value[i] == tail[i - host.len()]);
        }
    }
    assert(s[0] == value[0] as u8 && value[0] == g0[0]);
    let last = value.len() - 1;
    assert(s[last] == value[last] as u8);
    assert('0' <= value[last] <= '9') by {
        if tail.len() == 0 {
            assert(value[last] == g3[g3.len() - 1]);
        } else {
            assert(value[last] == (port->0)[(port->0).len() - 1]);
        }
    }
    if s.len() == 36 {
        assert(s[8] != 45);
    }
    let octet_fields = fields(host_part(s), 46u8);
    assert(octet_fields.len() == 4);
    assert forall|j: int| 0 <= j < 4 implies #[trigger] octet_fields[j] == encode_utf8(all[j]) by {
        assert(groups[j] == all[j]);
    }
    assert(octet_fields[0] == encode_utf8(g0) && octet_fields[1] == encode_utf8(g1)
        && octet_fields[2] == encode_utf8(g2) && octet_fields[3] == encode_utf8(g3));
    assert(octets(host_part(s)) <==> octet(encode_utf8(g0)) && octet(encode_utf8(g1)) && octet(
        encode_utf8(g2),
    ) && octet(encode_utf8(g3)));
    assert(plain_var_type(value) == VarType::IPv4 <==> octets(host_part(s)));
}

/// The groups and the port of what the pattern for IPv4 addresses matches.
proof fn ipv4_parts(value: Seq<char>) -> (parts: (
    Seq<Seq<char>>,
    Option<Seq<char>>,
))
    requires
        ipv4_text(value),
    ensures
        parts.0.len() == 4,
        forall|j: int|
            0 <= j < 4 ==> 1 <= (#[trigger] parts.0[j]).len() <= 3 && forall|i: int|
                0 <= i < parts.0[j].len() ==> '0' <= #[trigger] parts.0[j][i] <= '9',
        parts.1 matches Some(digits) ==> digits.len() > 0 && forall|i: int|
            0 <= i < digits.len() ==> '0' <= #[trigger] digits[i] <= '9',
        value == parts.0[0] + seq!['.'] + parts.0[1] + seq!['.'] + parts.0[2] + seq!['.']
            + parts.0[3] + match parts.1 {
            Some(digits) => seq![':'] + digits,
            None => Seq::empty(),
        },
{
    let sides = fields(value, ':');
    let host = sides[0];
    let groups = fields(host, '.');
    let h2 = before_the_last_field(host, '.');
    let h1 = before_the_last_field(h2, '.');
    let g0 = before_the_last_field(h1, '.');
    the_last_field(g0, '.');
    assert(fields(g0, '.') =~= groups.take(1));
    assert(fields(g0, '.').len() == 1);
    if fields(g0, '.').last().len() < g0.len() {
        separator_occurs(g0, '.', g0.len() - fields(g0, '.').last().len() - 1);
        fields_count(g0, '.');
    }
    assert(g0 =~= groups[0]);
    assert(host =~= groups[0] + seq!['.'] + groups[1] + seq!['.'] + groups[2] + seq!['.']
        + groups[3]);
    let port = if sides.len() == 1 {
        the_last_field(value, ':');
        if sides.last().len() < value.len() {
            separator_occurs(value, ':', value.len() - sides.last().len() - 1);
            fields_count(value, ':');
        }
        assert(value =~= host);
        None
    } else {
        let before = before_the_last_field(value, ':');
        the_last_field(before, ':');
        assert(fields(before, ':') =~= seq![host]);
        if fields(before, ':').last().len() < before.len() {
            separator_occurs(before, ':', before.len() - fields(before, ':').last().len() - 1);
            fields_count(before, ':');
        }
        assert(before =~= host);
        assert(value =~= host + (seq![':'] + sides[1]));
        Some(sides[1])
    };
    assert(value =~= host + match port {
        Some(digits) => seq![':'] + digits,
        None => Seq::empty(),
    });
    (groups, port)
}

/// What is taken for an IPv4 address, among ASCII texts, is such groups and a port.
pub proof fn an_ipv4_address_is_four_groups(value: Seq<char>) -> (parts: (
    Seq<Seq<char>>,
    Option<Seq<char>>,
))
    requires
        plain_var_type(value) == VarType::IPv4,
    ensures
        parts.0.len() == 4,
        forall|j: int|
            0 <= j < 4 ==> 1 <= (#[trigger] parts.0[j]).len() <= 3 && forall|i: int|
                0 <= i < parts.0[j].len() ==> '0' <= #[trigger] parts.0[j][i] <= '9',
        parts.1 matches Some(digits) ==> digits.len() > 0 && forall|i: int|
            0 <= i < digits.len() ==> '0' <= #[trigger] digits[i] <= '9',
        value == parts.0[0] + seq!['.'] + parts.0[1] + seq!['.'] + parts.0[2] + seq!['.']
            + parts.0[3] + match parts.1 {
            Some(digits) => seq![':'] + digits,
            None => Seq::empty(),
        },
{
    assert(ipv4_text(value));
    ipv4_parts(value)
}

proof fn digits_and_separators(
    groups: Seq<Seq<char>>,
    port: Option<Seq<char>>,
    value: Seq<char>,
    i: int,
)
    requires
        groups.len() == 4,
        forall|j: int|
            0 <= j < 4 ==> 1 <= (#[trigger] groups[j]).len() <= 3 && forall|i: int|
                0 <= i < groups[j].len() ==> '0' <= #[trigger] groups[j][i] <= '9',
        port matches Some(digits) ==> digits.len() > 0 && forall|i: int|
            0 <= i < digits.len() ==> '0' <= #[trigger] digits[i] <= '9',
        value == groups[0] + seq!['.'] + groups[1] + seq!['.'] + groups[2] + seq!['.']
            + groups[3] + match port {
            Some(digits) => seq![':'] + digits,
            None => Seq::empty(),
        },
        0 <= i < value.len(),
    ensures
        '0' <= value[i] <= '9' || value[i] == '.' || value[i] == ':',
{
    let (g0, g1, g2, g3) = (groups[0], groups[1], groups[2], groups[3]);
    let a = g0.len() as int;
    let b = a + 1 + g1.len();
    let c = b + 1 + g2.len();
    let d = c + 1 + g3.len();
    if i < a {
        assert(value[i] == groups[0][i]);
    } else if a < i < b {
        assert(value[i] == groups[1][i - a - 1]);
    } else if b < i < c {
        assert(value[i] == groups[2][i - b - 1]);
    } else if c < i < d {
        assert(value[i] == groups[3][i - c - 1]);
    } else if i > d {
        assert(value[i] == (port->0)[i - d - 1]);
    }
}

/// Among ASCII texts a timestamp is exactly what has at least 19 characters, a digit
/// first or a minus and then a digit, and dashes in the fifth and the eighth place.
pub proof fn what_an_ascii_timestamp_is(value: Seq<char>)
    requires
        is_ascii_chars(value),
    ensures
        plain_var_type(value) == VarType::Timestamp <==> value.len() >= 19 && ('0' <= value[0]
            <= '9' || value[0] == '-' && '0' <= value[1] <= '9') && value[4] == '-' && value[7]
            == '-',
{
    let s = encode_utf8(value);
    is_ascii_chars_encode_utf8(value);
    assert forall|i: int| 0 <= i < s.len() implies #[trigger] s[i] == value[i] as u8 by {
        assert(value[i] as u8 == s[i]);
        assert('\0' <= value[i] <= '\u{7f}');
    }
    if value.len() >= 19 {
        assert(s[0] == value[0] as u8 && s[1] == value[1] as u8 && s[4] == value[4] as u8 && s[7]
            == value[7] as u8);
        assert('\0' <= value[0] <= '\u{7f}' && '\0' <= value[1] <= '\u{7f}' && '\0' <= value[4]
            <= '\u{7f}' && '\0' <= value[7] <= '\u{7f}');
        if value[4] == '-' {
            if duration_text(value) {
                let n = choose|n: int|
                    0 <= n <= value.len() && decimal_text(
                        without_start(#[trigger] value.take(n), '-'),
                    ) && unit_text(value.skip(n));
                assert(value.skip(n).len() <= 2);
                assert(n > 4);
                decimals(value, n);
                assert('0' <= value[4] <= '9' || value[4] == '.');
            }
            if ipv4_text(value) {
                let (groups, port) = ipv4_parts(value);
                digits_and_separators(groups, port, value, 4);
            }
            if uuid_shape(s) {
                assert(!uuid_dash(4));
                assert(hex_byte(s[4]));
            }
            let k: int = if s[0] == 45 {
                1
            } else {
                0
            };
            assert(s.skip(0) =~= s);
            assert(without_start(s, 45u8) == s.skip(k));
            assert(s.skip(k)[4 - k] == s[4]);
            assert(!dotted_digits(s.skip(k)));
        }
    }
}

proof fn at_most_one_place<T>(s: Seq<T>, x: T)
    ensures
        occurrences(s, x) <= 1 <==> forall|i: int, j: int|
            0 <= i < j < s.len() ==> !(#[trigger] s[i] == x && #[trigger] s[j] == x),
    decreases s.len(),
{
    if s.len() > 0 {
        let front = s.drop_last();
        let last = s.len() - 1;
        at_most_one_place(front, x);
        assert forall|i: int| 0 <= i < front.len() implies #[trigger] front[i] == s[i] by {}
        if occurrences(s, x) <= 1 {
            if s.last() == x {
                nowhere(front, x);
            }
            assert forall|i: int, j: int| 0 <= i < j < s.len() implies !(#[trigger] s[i] == x
                && #[trigger] s[j] == x) by {
                assert(front[i] == s[i]);
                if j < last {
                    assert(front[j] == s[j]);
                }
            }
        }
        if forall|i: int, j: int|
            0 <= i < j < s.len() ==> !(#[trigger] s[i] == x && #[trigger] s[j] == x) {
            assert forall|i: int, j: int| 0 <= i < j < front.len() implies !(#[trigger] front[i] == x
                && #[trigger] front[j] == x) by {
                assert(!(s[i] == x && s[j] == x));
            }
            if s.last() == x {
                assert forall|i: int| 0 <= i < front.len() implies front[i] != x by {
                    assert(!(s[i] == x && s[last] == x));
                }
                no_separator(front, x);
            }
        }
    }
}

/// What a number before a unit of time is.
proof fn decimals(value: Seq<char>, n: int)
    requires
        0 < n <= value.len(),
    ensures
        decimal_text(without_start(value.take(n), '-')) <==> {
            &&& '0' <= value[0] <= '9' || value[0] == '-' && n > 1 && '0' <= value[1] <= '9'
            &&& forall|i: int| 0 < i < n ==> '0' <= #[trigger] value[i] <= '9' || value[i] == '.'
            &&& forall|i: int, j: int|
                0 <= i < j < n ==> !(#[trigger] value[i] == '.' && #[trigger] value[j] == '.')
        },
{
    let part = value.take(n);
    let number = without_start(part, '-');
    let start: int = if value[0] == '-' {
        1
    } else {
        0
    };
    assert(part.skip(0) =~= part);
    assert(number == part.skip(start));
    assert forall|i: int| 0 <= i < number.len() implies #[trigger] number[i] == value[start + i] by {}
    at_most_one_place(number, '.');
    if decimal_text(number) {
        assert forall|i: int| 0 < i < n implies '0' <= #[trigger] value[i] <= '9' || value[i]
            == '.' by {
            assert(number[i - start] == value[i]);
        }
        assert forall|i: int, j: int| 0 <= i < j < n implies !(#[trigger] value[i] == '.'
            && #[trigger] value[j] == '.') by {
            if i >= start {
                assert(number[i - start] == value[i] && number[j - start] == value[j]);
            }
        }
        assert(number[0] == value[start]);
    }
    if ('0' <= value[0] <= '9' || value[0] == '-' && n > 1 && '0' <= value[1] <= '9') && (forall|
        i: int,
    |
        0 < i < n ==> '0' <= #[trigger] value[i] <= '9' || value[i] == '.') && forall|
        i: int,
        j: int,
    |
        0 <= i < j < n ==> !(#[trigger] value[i] == '.' && #[trigger] value[j] == '.') {
        assert(number[0] == value[start]);
        assert forall|i: int| 0 <= i < number.len() implies digit_char(#[trigger] number[i])
            || number[i] == '.' by {
            assert(number[i] == value[start + i]);
            if i > 0 {
                assert('0' <= value[start + i] <= '9' || value[start + i] == '.');
            }
        }
        assert forall|i: int, j: int| 0 <= i < j < number.len() implies !(#[trigger] number[i] == '.'
            && #[trigger] number[j] == '.') by {
            assert(number[i] == value[start + i] && number[j] == value[start + j]);
            assert(!(value[start + i] == '.' && value[start + j] == '.'));
        }
    }
}

/// Decimal digits, a minus before them or not and at most one dot among them, not in the
/// first place, and behind them `ns`, `us`, `ms`, or right behind a digit `s`, `m` or
/// `h`, are a duration.
pub proof fn a_number_and_a_unit_are_a_duration(value: Seq<char>, n: int)
    requires
        0 < n < value.len(),
        '0' <= value[0] <= '9' || value[0] == '-' && n > 1 && '0' <= value[1] <= '9',
        forall|i: int| 0 < i < n ==> '0' <= #[trigger] value[i] <= '9' || value[i] == '.',
        forall|i: int, j: int|
            0 <= i < j < n ==> !(#[trigger] value[i] == '.' && #[trigger] value[j] == '.'),
        ({
            let unit = value.skip(n);
            ||| unit == seq!['n', 's']
            ||| unit == seq!['u', 's']
            ||| unit == seq!['m', 's']
            ||| (unit == seq!['s'] || unit == seq!['m'] || unit == seq!['h']) && '0' <= value[n - 1]
                <= '9'
        }),
    ensures
        plain_var_type(value) == VarType::Duration,
{
    let unit = value.skip(n);
    assert(unit_text(unit));
    assert(unit.len() <= 2);
    assert(unit.len() == value.len() - n);
    assert forall|i: int| 0 <= i < value.len() implies '\0' <= #[trigger] value[i]
        <= '\u{7f}' by {
        if i >= n {
            assert(i == n || i == n + 1);
            assert(unit[0] == value[n]);
            assert(unit.len() == 2 ==> unit[1] == value[n + 1]);
        } else if i > 0 {
            assert('0' <= value[i] <= '9' || value[i] == '.');
        }
    }
    assert(is_ascii_chars(value));
    let s = encode_utf8(value);
    is_ascii_chars_encode_utf8(value);
    assert forall|i: int| 0 <= i < s.len() implies #[trigger] s[i] == value[i] as u8 && s[i]
        < 128 by {
        assert(value[i] as u8 == s[i]);
        assert('\0' <= value[i] <= '\u{7f}');
    }
    let last = value.len() - 1;
    decimals(value, n);
    assert(unit_text(unit));
    assert(value.take(n).len() == n);
    assert(duration_text(value));
    assert(unit[unit.len() - 1] == value[last]);
    assert(s[last] == value[last] as u8 && s[last - 1] == value[last - 1] as u8);
    if unit.len() == 2 {
        assert(unit[0] == value[last - 1]);
    }
    assert(s[0] == value[0] as u8);
    if n > 1 {
        assert(s[1] == value[1] as u8);
    }
    if s.len() == 36 {
        assert(!uuid_dash(35));
        assert(!hex_byte(s[35]));
    }
}

/// What is taken for a duration, among ASCII texts, is such a number and such a unit;
/// the unit starts in the place that is handed out.
pub proof fn a_duration_is_a_number_and_a_unit(value: Seq<char>) -> (n: int)
    requires
        is_ascii_chars(value),
        plain_var_type(value) == VarType::Duration,
    ensures
        0 < n < value.len(),
        '0' <= value[0] <= '9' || value[0] == '-' && n > 1 && '0' <= value[1] <= '9',
        forall|i: int| 0 < i < n ==> '0' <= #[trigger] value[i] <= '9' || value[i] == '.',
        forall|i: int, j: int|
            0 <= i < j < n ==> !(#[trigger] value[i] == '.' && #[trigger] value[j] == '.'),
        ({
            let unit = value.skip(n);
            ||| unit == seq!['n', 's']
            ||| unit == seq!['u', 's']
            ||| unit == seq!['m', 's']
            ||| (unit == seq!['s'] || unit == seq!['m'] || unit == seq!['h']) && '0' <= value[n - 1]
                <= '9'
        }),
{
    let s = encode_utf8(value);
    is_ascii_chars_encode_utf8(value);
    assert forall|i: int| 0 <= i < s.len() implies #[trigger] s[i] == value[i] as u8 && s[i]
        < 128 by {
        assert(value[i] as u8 == s[i]);
        assert('\0' <= value[i] <= '\u{7f}');
    }
    let last = value.len() - 1;
    if micro_suffix(s) {
        assert(s[s.len() - 3] < 128);
    }
    let n = choose|n: int|
        0 <= n <= value.len() && decimal_text(
            without_start(#[trigger] value.take(n), '-'),
        ) && unit_text(value.skip(n));
    let unit = value.skip(n);
    assert(without_start(value.take(n), '-').len() > 0);
    assert(n > 0);
    decimals(value, n);
    assert(unit[unit.len() - 1] == value[last]);
    assert(s[last] == value[last] as u8);
    if unit.len() == 2 {
        assert(unit[0] == value[last - 1]);
        assert(s[last - 1] == value[last - 1] as u8);
        assert('\0' <= value[last - 1] <= '\u{7f}');
    } else {
        assert(n == last);
        assert(s[last - 1] == value[last - 1] as u8);
        if n > 1 {
            assert('0' <= value[n - 1] <= '9' || value[n - 1] == '.');
        }
    }
    n
}

proof fn bytes_add_up(a: Seq<char>, b: Seq<char>)
    ensures
        encode_utf8(a + b) == encode_utf8(a) + encode_utf8(b),
    decreases a.len(),
{
    if a.len() == 0 {
        assert(a + b =~= b);
        assert(encode_utf8(a) + encode_utf8(b) =~= encode_utf8(b));
    } else {
        assert((a + b).drop_first() =~= a.drop_first() + b);
        bytes_add_up(a.drop_first(), b);
        assert((a + b)[0] == a[0]);
        let first = encode_scalar(a[0] as u32);
        assert(first + (encode_utf8(a.drop_first()) + encode_utf8(b)) =~= first + encode_utf8(
            a.drop_first(),
        ) + encode_utf8(b));
    }
}

proof fn the_bytes_of_a_micro_second()
    ensures
        encode_utf8(seq!['µ', 's']) == seq![0xc2u8, 0xb5u8, 115u8],
{
    let text = seq!['µ', 's'];
    let rest = text.drop_first();
    assert(rest =~= seq!['s']);
    assert(rest.drop_first() =~= Seq::<char>::empty());
    reveal_with_fuel(encode_utf8, 3);
    assert(leading_byte_width_1(115u32) == 115u8) by (bit_vector);
    assert(leading_byte_width_2(0xb5u32) == 0xc2u8) by (bit_vector);
    assert(last_continuation_byte(0xb5u32) == 0xb5u8) by (bit_vector);
    assert(encode_utf8(text) =~= seq![0xc2u8, 0xb5u8, 115u8]);
}

proof fn the_bytes_of_micro_seconds(number: Seq<char>)
    requires
        number.len() > 0,
        '0' <= number[0] <= '9' || number[0] == '-' && number.len() > 1 && '0' <= number[1] <= '9',
        forall|i: int|
            0 < i < number.len() ==> '0' <= #[trigger] number[i] <= '9' || number[i] == '.',
    ensures
        ({
            let s = encode_utf8(number + seq!['µ', 's']);
            let n = number.len() as int;
            &&& s.len() == n + 3
            &&& s[0] == number[0] as u8
            &&& forall|i: int| 0 < i < n ==> 48 <= #[trigger] s[i] <= 57 || s[i] == 46
            &&& s[n] == 0xc2 && s[n + 1] == 0xb5 && s[n + 2] == 115
        }),
{
    let unit = seq!['µ', 's'];
    let n = number.len() as int;
    assert(is_ascii_chars(number)) by {
        assert forall|i: int| 0 <= i < number.len() implies '\0' <= #[trigger] number[i]
            <= '\u{7f}' by {
            if i > 0 {
                assert('0' <= number[i] <= '9' || number[i] == '.');
            }
        }
    }
    is_ascii_chars_encode_utf8(number);
    bytes_add_up(number, unit);
    the_bytes_of_a_micro_second();
    let front = encode_utf8(number);
    let s = encode_utf8(number + unit);
    assert(s == front + seq![0xc2u8, 0xb5u8, 115u8]);
    assert forall|i: int| 0 < i < n implies 48 <= #[trigger] s[i] <= 57 || s[i] == 46 by {
        assert(s[i] == front[i]);
        assert(number[i] as u8 == front[i]);
        assert('0' <= number[i] <= '9' || number[i] == '.');
    }
    assert(s[0] == front[0] && number[0] as u8 == front[0]);
}

/// Bytes like these have no other shape.
proof fn micro_bytes_have_no_other_shape(s: Seq<u8>, n: int)
    requires
        n > 0,
        s.len() == n + 3,
        s[0] == 45 || 48 <= s[0] <= 57,
        forall|i: int| 0 < i < n ==> 48 <= #[trigger] s[i] <= 57 || s[i] == 46,
        s[n] == 0xc2 && s[n + 1] == 0xb5 && s[n + 2] == 115,
    ensures
        !uuid_shape(s),
        !unit_suffix(s),
        !float_shape(s),
        !timestamp_shape(s),
        !integer_shape(s),
        !hex_id_shape(s),
        micro_suffix(s),
{
    assert(!digit_byte(s[n]) && !hex_byte(s[n]));
    if uuid_shape(s) {
        assert(n == 33);
        assert(!uuid_dash(33));
        assert(hex_byte(s[33]));
    }
    if timestamp_shape(s) {
        assert(n >= 16);
        assert(48 <= s[4] <= 57 || s[4] == 46);
    }
    let k: int = if s[0] == 45 {
        1
    } else {
        0
    };
    assert(s.skip(0) =~= s);
    assert(without_start(s, 45u8) == s.skip(k));
    assert(s.skip(k)[n - k] == s[n]);
    assert(!dotted_digits(s.skip(k)));
    assert(without_start(s, 43u8) == s);
    assert(!digit_bytes(s));
    assert(s.skip(1)[n - 1] == s[n]);
    assert(!digit_bytes(s.skip(1)));
    assert(!hex_digits(s));
    if s[0] == 48 && s[1] == 120 {
        assert(n == 1) by {
            if n > 1 {
                assert(48 <= s[1] <= 57 || s[1] == 46);
            }
        }
    }
    if n >= 2 {
        assert(s.skip(2)[n - 2] == s[n]);
    }
    assert(!hex_digits(s.skip(2)));
}

/// A number with `µs` behind it is a duration too.
pub proof fn micro_seconds_are_a_duration(number: Seq<char>)
    requires
        number.len() > 0,
        '0' <= number[0] <= '9' || number[0] == '-' && number.len() > 1 && '0' <= number[1] <= '9',
        forall|i: int|
            0 < i < number.len() ==> '0' <= #[trigger] number[i] <= '9' || number[i] == '.',
        forall|i: int, j: int|
            0 <= i < j < number.len() ==> !(#[trigger] number[i] == '.' && #[trigger] number[j]
                == '.'),
    ensures
        plain_var_type(number + seq!['µ', 's']) == VarType::Duration,
{
    let unit = seq!['µ', 's'];
    let value = number + unit;
    let n = number.len() as int;
    assert(value.take(n) =~= number);
    assert(value.skip(n) =~= unit);
    assert(number.take(n) =~= number);
    decimals(number, n);
    assert(unit_text(unit));
    assert(duration_text(value));
    the_bytes_of_micro_seconds(number);
    micro_bytes_have_no_other_shape(encode_utf8(value), n);
    assert(value[n] == 'µ');
    assert(!ipv6_text(value));
    if ipv4_text(value) {
        let (groups, port) = ipv4_parts(value);
        digits_and_separators(groups, port, value, n);
    }
}

/// Nothing is taken for a duration or an IPv4 address that its pattern does not match.
/// What the pattern for durations matches is one wherever it starts with a digit, or a
/// minus and a digit, and ends in `ns`, `us`, `ms`, or in a digit and `s`, `m` or `h`.
pub proof fn the_patterns_decide(value: Seq<char>)
    ensures
        var_type(value) == VarType::Duration ==> regex_match(DURATION@, value),
        var_type(value) == VarType::IPv4 ==> regex_match(IPV4@, value),
        ({
            let s = encode_utf8(value);
            let last = s.len() - 1;
            &&& regex_match(DURATION@, value)
            &&& s.len() >= 2
            &&& 48 <= s[0] <= 57 || s[0] == 45 && 48 <= s[1] <= 57
            &&& {
                ||| s[last] == 115 && (s[last - 1] == 110 || s[last - 1] == 117 || s[last - 1]
                    == 109 || 48 <= s[last - 1] <= 57)
                ||| (s[last] == 109 || s[last] == 104) && 48 <= s[last - 1] <= 57
            }
        }) ==> var_type(value) == VarType::Duration,
{
    let s = encode_utf8(value);
    if uuid_shape(s) {
        assert(!uuid_dash(35));
        assert(hex_byte(s[35]));
    }
}

} // verus!
