//! Plain text: splitting a log line into words, replacing delimiters, joining
//! words back, and writing numbers.

use vstd::prelude::*;
use vstd::utf8::is_ascii_chars;

verus! {

/// The characters that the Unicode Character Database lists under
/// `White_Space`.
pub open spec fn white_space(c: char) -> bool {
    let code = c as u32;
    ||| 0x09 <= code <= 0x0d
    ||| code == 0x20
    ||| code == 0x85
    ||| code == 0xa0
    ||| code == 0x1680
    ||| 0x2000 <= code <= 0x200a
    ||| code == 0x2028
    ||| code == 0x2029
    ||| code == 0x202f
    ||| code == 0x205f
    ||| code == 0x3000
}

/// `char::is_whitespace` tells whether a character has the Unicode property
/// `White_Space`.
pub assume_specification[ char::is_whitespace ](c: char) -> (white: bool)
    ensures
        white == white_space(c),
;

/// Whether a character has one of the Unicode general categories for numbers
/// (Nd, Nl, No), as `char::is_numeric` decides it.
pub uninterp spec fn numeric(c: char) -> bool;

/// `char::is_numeric` depends on the character alone. Among the ASCII
/// characters the ten digits have a number category and no other does.
pub assume_specification[ char::is_numeric ](c: char) -> (is_number: bool)
    ensures
        is_number == numeric(c),
        (c as u32) < 0x80 ==> is_number == ('0' <= c <= '9'),
;

/// `String::push` appends one character.
pub assume_specification[ std::string::String::push ](text: &mut std::string::String, c: char)
    ensures
        final(text)@ == old(text)@.push(c),
;

/// How often an item occurs in a sequence.
pub open spec fn occurrences<T>(s: Seq<T>, x: T) -> nat
    decreases s.len(),
{
    if s.len() == 0 {
        0
    } else {
        occurrences(s.drop_last(), x) + if s.last() == x {
            1nat
        } else {
            0nat
        }
    }
}

/// The characters of each string.
pub open spec fn texts(strings: Seq<String>) -> Seq<Seq<char>> {
    Seq::new(strings.len(), |i: int| strings[i]@)
}

/// The finished words of a text and the word that its end leaves unfinished
/// (empty where the text is empty or ends in white space).
pub open spec fn split_state(s: Seq<char>) -> (Seq<Seq<char>>, Seq<char>)
    decreases s.len(),
{
    if s.len() == 0 {
        (Seq::empty(), Seq::empty())
    } else {
        let (done, word) = split_state(s.drop_last());
        if !white_space(s.last()) {
            (done, word.push(s.last()))
        } else if word.len() == 0 {
            (done, word)
        } else {
            (done.push(word), Seq::empty())
        }
    }
}

/// The words of a text: its maximal runs of characters that are not white space.
pub open spec fn words(s: Seq<char>) -> Seq<Seq<char>> {
    let (done, word) = split_state(s);
    if word.len() == 0 {
        done
    } else {
        done.push(word)
    }
}

/// Splits a text at white space.
pub fn split_words(text: &str) -> (out: Vec<String>)
    ensures
        texts(out@) == words(text@),
{
    let mut done: Vec<String> = Vec::new();
    let mut word = String::new();
    let mut empty = true;
    for c in it: text.chars()
        invariant
            it.seq() == text@,
            split_state(text@.take(it.index())) == (texts(done@), word@),
            empty == (word@.len() == 0),
    {
        proof {
            let seen = text@.take(it.index() + 1);
            assert(seen.drop_last() == text@.take(it.index()));
            assert(seen.last() == c);
        }
        if c.is_whitespace() {
            if !empty {
                let ghost before = texts(done@);
                done.push(word);
                assert(texts(done@) == before.push(word@));
                word = String::new();
                empty = true;
            }
        } else {
            word.push(c);
            empty = false;
        }
    }
    assert(text@.take(text@.len() as int) == text@);
    if !empty {
        let ghost before = texts(done@);
        done.push(word);
        assert(texts(done@) == before.push(word@));
    }
    done
}

/// A text without the white space at its start.
pub open spec fn trimmed_start(s: Seq<char>) -> Seq<char>
    decreases s.len(),
{
    if s.len() > 0 && white_space(s[0]) {
        trimmed_start(s.skip(1))
    } else {
        s
    }
}

/// A text without the white space at its end.
pub open spec fn trimmed_end(s: Seq<char>) -> Seq<char>
    decreases s.len(),
{
    if s.len() > 0 && white_space(s.last()) {
        trimmed_end(s.drop_last())
    } else {
        s
    }
}

/// A text without the white space at either end.
pub open spec fn trimmed(s: Seq<char>) -> Seq<char> {
    trimmed_end(trimmed_start(s))
}

/// `to` before, after and between the characters of a text.
pub open spec fn interleaved(s: Seq<char>, to: Seq<char>) -> Seq<char>
    decreases s.len(),
{
    if s.len() == 0 {
        to
    } else {
        interleaved(s.drop_last(), to).push(s.last()) + to
    }
}

/// A text with `to` in place of every occurrence of `from`, taken from the left
/// without overlap. An empty `from` occurs at every character boundary.
pub open spec fn replaced(s: Seq<char>, from: Seq<char>, to: Seq<char>) -> Seq<char>
    decreases s.len(),
{
    if from.len() == 0 {
        interleaved(s, to)
    } else if s.len() < from.len() {
        s
    } else if s.take(from.len() as int) == from {
        to + replaced(s.skip(from.len() as int), from, to)
    } else {
        seq![s[0]] + replaced(s.skip(1), from, to)
    }
}

/// A text with a space in place of every occurrence of each delimiter, one
/// delimiter after the other.
pub open spec fn delimiters_spaced(s: Seq<char>, delimiters: Seq<Seq<char>>) -> Seq<char>
    decreases delimiters.len(),
{
    if delimiters.len() == 0 {
        s
    } else {
        replaced(delimiters_spaced(s, delimiters.drop_last()), delimiters.last(), seq![' '])
    }
}

/// The tokens of a log line: its words, after every extra delimiter has become
/// a space.
pub open spec fn tokens_of(content: Seq<char>, delimiters: Seq<Seq<char>>) -> Seq<Seq<char>> {
    if delimiters.len() == 0 {
        words(content)
    } else {
        words(delimiters_spaced(trimmed(content), delimiters))
    }
}

/// The characters of a text.
pub fn chars_of(text: &str) -> (out: Vec<char>)
    ensures
        out@ == text@,
{
    let mut out: Vec<char> = Vec::new();
    for c in it: text.chars()
        invariant
            it.seq() == text@,
            out@ == text@.take(it.index()),
    {
        out.push(c);
    }
    assert(text@.take(text@.len() as int) == text@);
    out
}

/// The string of the characters in a range.
pub fn string_of(chars: &Vec<char>, from: usize, to: usize) -> (out: String)
    requires
        from <= to <= chars@.len(),
    ensures
        out@ == chars@.subrange(from as int, to as int),
{
    let mut out = String::new();
    let mut i: usize = from;
    while i < to
        invariant
            from <= i <= to <= chars@.len(),
            out@ == chars@.subrange(from as int, i as int),
        decreases to - i,
    {
        out.push(chars[i]);
        i = i + 1;
    }
    out
}

/// Cuts off the white space at both ends.
pub fn trim(text: &str) -> (out: String)
    ensures
        out@ == trimmed(text@),
{
    let chars = chars_of(text);
    let mut from: usize = 0;
    assert(chars@.skip(0) == chars@);
    while from < chars.len() && chars[from].is_whitespace()
        invariant
            from <= chars@.len(),
            trimmed_start(chars@) == trimmed_start(chars@.skip(from as int)),
        decreases chars@.len() - from,
    {
        assert(chars@.skip(from as int).skip(1) == chars@.skip(from + 1));
        from = from + 1;
    }
    let mut to: usize = chars.len();
    assert(chars@.subrange(from as int, to as int) == chars@.skip(from as int));
    while to > from && chars[to - 1].is_whitespace()
        invariant
            from <= to <= chars@.len(),
            trimmed(chars@) == trimmed_end(chars@.subrange(from as int, to as int)),
        decreases to,
    {
        assert(chars@.subrange(from as int, to as int).drop_last() == chars@.subrange(
            from as int,
            to - 1,
        ));
        to = to - 1;
    }
    string_of(&chars, from, to)
}

fn occurs_at(chars: &Vec<char>, at: usize, from: &Vec<char>) -> (found: bool)
    requires
        at + from@.len() <= chars@.len(),
    ensures
        found == (chars@.skip(at as int).take(from@.len() as int) == from@),
{
    let mut i: usize = 0;
    while i < from.len()
        invariant
            at + from@.len() <= chars.len(),
            i <= from@.len(),
            forall|j: int| 0 <= j < i ==> chars@[at + j] == from@[j],
        decreases from@.len() - i,
    {
        if chars[at + i] != from[i] {
            assert(chars@.skip(at as int).take(from@.len() as int)[i as int] == chars@[at + i]);
            return false;
        }
        i = i + 1;
    }
    assert(chars@.skip(at as int).take(from@.len() as int) =~= from@);
    true
}

/// Puts `to` in place of every occurrence of `from`.
pub fn replace(text: &str, from: &str, to: &str) -> (out: String)
    ensures
        out@ == replaced(text@, from@, to@),
{
    let chars = chars_of(text);
    let pattern = chars_of(from);
    let mut out = String::new();
    let mut i: usize = 0;
    if pattern.len() == 0 {
        out.append(to);
        while i < chars.len()
            invariant
                i <= chars@.len(),
                out@ == interleaved(chars@.take(i as int), to@),
            decreases chars@.len() - i,
        {
            out.push(chars[i]);
            out.append(to);
            assert(chars@.take(i + 1).drop_last() == chars@.take(i as int));
            i = i + 1;
        }
        assert(chars@.take(i as int) == chars@);
        return out;
    }
    assert(chars@.skip(0) == chars@);
    while i < chars.len()
        invariant
            i <= chars@.len(),
            pattern@ == from@,
            pattern@.len() > 0,
            replaced(chars@, from@, to@) == out@ + replaced(chars@.skip(i as int), from@, to@),
        decreases chars@.len() - i,
    {
        let ghost rest = chars@.skip(i as int);
        if pattern.len() <= chars.len() - i && occurs_at(&chars, i, &pattern) {
            proof {
                assert(rest.skip(from@.len() as int) == chars@.skip(i + from@.len()));
                assert(out@ + (to@ + replaced(chars@.skip(i + from@.len()), from@, to@)) == (out@
                    + to@) + replaced(chars@.skip(i + from@.len()), from@, to@));
            }
            out.append(to);
            i = i + pattern.len();
        } else {
            proof {
                assert(rest.skip(1) == chars@.skip(i + 1));
                if rest.len() < from@.len() {
                    assert(replaced(rest.skip(1), from@, to@) == rest.skip(1));
                    assert(rest == seq![rest[0]] + rest.skip(1));
                }
                assert(out@ + (seq![rest[0]] + replaced(chars@.skip(i + 1), from@, to@))
                    == out@.push(rest[0]) + replaced(chars@.skip(i + 1), from@, to@));
            }
            out.push(chars[i]);
            i = i + 1;
        }
    }
    assert(chars@.skip(i as int) == Seq::<char>::empty());
    assert(out@ + Seq::<char>::empty() == out@);
    out
}

/// The words of a text, one space between each and the next.
pub open spec fn joined(parts: Seq<Seq<char>>) -> Seq<char>
    decreases parts.len(),
{
    if parts.len() == 0 {
        Seq::empty()
    } else if parts.len() == 1 {
        parts[0]
    } else {
        joined(parts.drop_last()).push(' ') + parts.last()
    }
}

/// Joins strings with one space between each and the next.
pub fn join(parts: &Vec<String>) -> (out: String)
    ensures
        out@ == joined(texts(parts@)),
{
    let mut out = String::new();
    let mut i: usize = 0;
    while i < parts.len()
        invariant
            i <= parts@.len(),
            out@ == joined(texts(parts@).take(i as int)),
        decreases parts@.len() - i,
    {
        if i > 0 {
            out.push(' ');
        }
        out.append(parts[i].as_str());
        proof {
            let next = texts(parts@).take(i + 1);
            assert(next.drop_last() == texts(parts@).take(i as int));
            assert(Seq::<char>::empty() + parts@[i as int]@ == parts@[i as int]@);
        }
        i = i + 1;
    }
    assert(texts(parts@).take(i as int) == texts(parts@));
    out
}

/// The character of a decimal digit.
pub open spec fn digit_char(digit: nat) -> char {
    (('0' as u8) + digit) as u8 as char
}

/// A number in decimal notation, without leading zeros.
pub open spec fn decimal(n: nat) -> Seq<char>
    decreases n,
{
    if n < 10 {
        seq![digit_char(n)]
    } else {
        decimal(n / 10).push(digit_char(n % 10))
    }
}

/// Writes a number in decimal notation.
pub fn to_decimal(n: usize) -> (out: String)
    ensures
        out@ == decimal(n as nat),
    decreases n,
{
    let mut out = if n < 10 {
        String::new()
    } else {
        to_decimal(n / 10)
    };
    let digit: u8 = (n % 10) as u8;
    out.push(('0' as u8 + digit) as char);
    assert(n < 10 ==> Seq::<char>::empty().push(digit_char(n as nat)) == seq![digit_char(n as nat)]);
    out
}

/// Different numbers have different decimal notations.
pub proof fn decimal_is_injective(a: nat, b: nat)
    requires
        decimal(a) == decimal(b),
    ensures
        a == b,
    decreases a,
{
    if a < 10 || b < 10 {
        if a >= 10 {
            decimal_is_not_empty(a / 10);
        }
        if b >= 10 {
            decimal_is_not_empty(b / 10);
        }
        assert(decimal(a).last() == digit_char(a % 10));
        assert(decimal(b).last() == digit_char(b % 10));
    } else {
        assert(decimal(a).drop_last() == decimal(a / 10));
        assert(decimal(b).drop_last() == decimal(b / 10));
        assert(decimal(a).last() == digit_char(a % 10));
        assert(decimal(b).last() == digit_char(b % 10));
        decimal_is_injective(a / 10, b / 10);
    }
}

/// A number has at least one digit.
pub proof fn decimal_is_not_empty(n: nat)
    ensures
        decimal(n).len() > 0,
{
}

/// Whether some character of a text has a number category.
pub open spec fn contains_number(s: Seq<char>) -> bool {
    exists|i: int| 0 <= i < s.len() && numeric(#[trigger] s[i])
}

/// Whether some character of a text is a decimal digit of ASCII.
pub open spec fn contains_digit(s: Seq<char>) -> bool {
    exists|i: int| 0 <= i < s.len() && '0' <= #[trigger] s[i] <= '9'
}

/// Whether a text contains a numeric character. The digits `0` to `9` are such
/// characters, and in a text of ASCII characters the only ones.
pub fn has_numbers(s: &str) -> (found: bool)
    ensures
        found == contains_number(s@),
        contains_digit(s@) ==> found,
        is_ascii_chars(s@) ==> found == contains_digit(s@),
{
    for c in it: s.chars()
        invariant
            it.seq() == s@,
            forall|j: int|
                0 <= j < it.index() ==> !numeric(#[trigger] s@[j]) && !('0' <= s@[j] <= '9'),
    {
        if c.is_numeric() {
            assert(numeric(s@[it.index()]));
            assert(s@[it.index()] == c);
            return true;
        }
    }
    false
}

} // verus!
