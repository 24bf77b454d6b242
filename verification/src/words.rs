//! What holds of the words and the tokens of a text.

use crate::text::{
    contains_digit, contains_number, decimal, delimiters_spaced, joined, numeric, occurrences,
    replaced, split_state, texts, tokens_of, trimmed, trimmed_end, trimmed_start, white_space,
    words,
};
use vstd::prelude::*;

verus! {

/// At least one character, and none of them white space.
pub open spec fn is_word(s: Seq<char>) -> bool {
    s.len() > 0 && forall|i: int| 0 <= i < s.len() ==> !white_space(#[trigger] s[i])
}

/// Words only.
pub open spec fn all_words(parts: Seq<Seq<char>>) -> bool {
    forall|i: int| 0 <= i < parts.len() ==> is_word(#[trigger] parts[i])
}

proof fn split_state_has_words(s: Seq<char>)
    ensures
        all_words(split_state(s).0),
        split_state(s).1.len() > 0 ==> is_word(split_state(s).1),
    decreases s.len(),
{
    if s.len() > 0 {
        split_state_has_words(s.drop_last());
    }
}

/// The words of a text are words: none is empty, and there is no white space in
/// them.
pub proof fn words_are_words(s: Seq<char>)
    ensures
        all_words(words(s)),
{
    split_state_has_words(s);
}

/// The tokens of a log line are words.
pub proof fn tokens_are_words(content: Seq<char>, delimiters: Seq<Seq<char>>)
    ensures
        all_words(tokens_of(content, delimiters)),
{
    if delimiters.len() == 0 {
        words_are_words(content);
    } else {
        words_are_words(delimiters_spaced(trimmed(content), delimiters));
    }
}

proof fn split_state_of_more(s: Seq<char>, word: Seq<char>)
    requires
        forall|i: int| 0 <= i < word.len() ==> !white_space(#[trigger] word[i]),
    ensures
        split_state(s + word) == (split_state(s).0, split_state(s).1 + word),
    decreases word.len(),
{
    if word.len() == 0 {
        assert(s + word =~= s);
        assert(split_state(s).1 + word =~= split_state(s).1);
    } else {
        let front = word.drop_last();
        assert forall|i: int| 0 <= i < front.len() implies !white_space(#[trigger] front[i]) by {
            assert(front[i] == word[i]);
        }
        split_state_of_more(s, front);
        assert((s + word).drop_last() =~= s + front);
        assert(!white_space(word[word.len() - 1]));
        assert((split_state(s).1 + front).push(word.last()) =~= split_state(s).1 + word);
    }
}

proof fn split_state_of_joined(parts: Seq<Seq<char>>)
    requires
        all_words(parts),
        parts.len() > 0,
    ensures
        split_state(joined(parts)) == (parts.drop_last(), parts.last()),
    decreases parts.len(),
{
    let last = parts.last();
    assert(is_word(parts[parts.len() - 1]));
    if parts.len() == 1 {
        let nothing = Seq::<char>::empty();
        split_state_of_more(nothing, last);
        assert(nothing + last =~= last);
        assert(parts.drop_last() =~= Seq::empty());
    } else {
        let front = parts.drop_last();
        assert forall|i: int| 0 <= i < front.len() implies is_word(#[trigger] front[i]) by {
            assert(front[i] == parts[i]);
        }
        split_state_of_joined(front);
        assert(is_word(front[front.len() - 1]));
        let start = joined(front).push(' ');
        assert(start.drop_last() =~= joined(front));
        assert(front.drop_last().push(front.last()) =~= front);
        assert(split_state(start) == (front, Seq::<char>::empty()));
        split_state_of_more(start, last);
        assert(Seq::<char>::empty() + last =~= last);
    }
}

/// Words that have been joined come apart into the same words again.
pub proof fn joining_loses_nothing(parts: Seq<Seq<char>>)
    requires
        all_words(parts),
    ensures
        words(joined(parts)) == parts,
{
    if parts.len() > 0 {
        split_state_of_joined(parts);
        assert(is_word(parts[parts.len() - 1]));
        assert(parts.drop_last().push(parts.last()) =~= parts);
    } else {
        assert(parts =~= Seq::empty());
    }
}

/// A part stands somewhere in a text.
pub open spec fn contains_text(s: Seq<char>, part: Seq<char>) -> bool {
    exists|i: int|
        #![trigger s.skip(i)]
        0 <= i <= s.len() && part.is_prefix_of(s.skip(i))
}

/// What a text does not contain, no stretch of it contains.
proof fn stretches_contain_no_more(s: Seq<char>, from: int, to: int, part: Seq<char>)
    requires
        0 <= from <= to <= s.len(),
        !contains_text(s, part),
    ensures
        !contains_text(s.subrange(from, to), part),
{
    let stretch = s.subrange(from, to);
    if contains_text(stretch, part) {
        let i = choose|i: int|
            #![trigger stretch.skip(i)]
            0 <= i <= stretch.len() && part.is_prefix_of(stretch.skip(i));
        assert forall|j: int| 0 <= j < part.len() implies part[j] == s.skip(from + i)[j] by {
            assert(stretch.skip(i)[j] == s[from + i + j]);
        }
        assert(part.is_prefix_of(s.skip(from + i)));
    }
}

/// What a text starts with after a replacement by spaces, and holds no space, it
/// started with before.
proof fn replaced_starts_alike(s: Seq<char>, from: Seq<char>, start: Seq<char>)
    requires
        from.len() > 0,
        !start.contains(' '),
        start.is_prefix_of(replaced(s, from, seq![' '])),
    ensures
        start.is_prefix_of(s),
    decreases s.len(),
{
    let after = replaced(s, from, seq![' ']);
    if start.len() > 0 && s.len() >= from.len() {
        assert(start[0] == after[0]);
        assert(start.contains(start[0]));
        let rest = replaced(s.skip(1), from, seq![' ']);
        assert(after == seq![s[0]] + rest);
        let tail = start.skip(1);
        assert forall|j: int| 0 <= j < tail.len() implies tail[j] == rest[j] by {
            assert(tail[j] == start[j + 1]);
            assert(after[j + 1] == rest[j]);
        }
        assert forall|j: int| 0 <= j < tail.len() implies tail[j] != ' ' by {
            assert(start.contains(start[j + 1]));
        }
        assert(tail.is_prefix_of(rest));
        replaced_starts_alike(s.skip(1), from, tail);
        assert forall|j: int| 0 <= j < start.len() implies start[j] == s[j] by {
            if j > 0 {
                assert(tail[j - 1] == s.skip(1)[j - 1]);
            }
        }
    }
}

/// A text has no occurrence left of what was replaced by spaces, and none new of
/// anything else without spaces.
proof fn replaced_contains_no_more(s: Seq<char>, from: Seq<char>, part: Seq<char>)
    requires
        from.len() > 0,
        part.len() > 0,
        !part.contains(' '),
        part == from || !contains_text(s, part),
    ensures
        !contains_text(replaced(s, from, seq![' ']), part),
    decreases s.len(),
{
    let after = replaced(s, from, seq![' ']);
    if contains_text(after, part) {
        let i = choose|i: int|
            #![trigger after.skip(i)]
            0 <= i <= after.len() && part.is_prefix_of(after.skip(i));
        assert(after.skip(i)[0] == after[i]);
        assert(part.contains(part[0]));
        if s.len() < from.len() {
            if part == from {
                assert(after.skip(i).len() < part.len());
            }
        } else {
            let found = s.take(from.len() as int) == from;
            let step = if found {
                from.len() as int
            } else {
                1
            };
            let rest = replaced(s.skip(step), from, seq![' ']);
            if part != from {
                stretches_contain_no_more(s, step, s.len() as int, part);
                assert(s.subrange(step, s.len() as int) =~= s.skip(step));
            }
            replaced_contains_no_more(s.skip(step), from, part);
            if i > 0 {
                assert(after.skip(i) =~= rest.skip(i - 1));
                assert(contains_text(rest, part));
            } else if !found {
                assert(after.skip(0) =~= after);
                replaced_starts_alike(s, from, part);
                assert(s.skip(0) =~= s);
                assert(s.take(from.len() as int) =~= s.subrange(0, from.len() as int));
                if part == from {
                    assert(s.take(from.len() as int) =~= from);
                }
                assert(contains_text(s, part));
            }
        }
    }
}

/// No delimiter that is a word is left after all have become spaces.
proof fn no_delimiter_is_left(s: Seq<char>, delimiters: Seq<Seq<char>>, k: int)
    requires
        all_words(delimiters),
        0 <= k < delimiters.len(),
    ensures
        !contains_text(delimiters_spaced(s, delimiters), delimiters[k]),
    decreases delimiters.len(),
{
    let front = delimiters.drop_last();
    let part = delimiters[k];
    assert(is_word(part));
    assert(is_word(delimiters[delimiters.len() - 1]));
    assert forall|i: int| 0 <= i < part.len() implies part[i] != ' ' by {
        assert(!white_space(part[i]));
    }
    if k < front.len() {
        assert forall|i: int| 0 <= i < front.len() implies is_word(#[trigger] front[i]) by {
            assert(front[i] == delimiters[i]);
        }
        no_delimiter_is_left(s, front, k);
    }
    replaced_contains_no_more(delimiters_spaced(s, front), delimiters.last(), part);
}

/// The words of a text are stretches of it: they contain nothing that it does not.
proof fn split_state_contains_no_more(s: Seq<char>, part: Seq<char>)
    requires
        !contains_text(s, part),
    ensures
        forall|i: int|
            0 <= i < split_state(s).0.len() ==> !contains_text(
                #[trigger] split_state(s).0[i],
                part,
            ),
        split_state(s).1.len() <= s.len(),
        split_state(s).1 == s.skip(s.len() - split_state(s).1.len()),
        !contains_text(split_state(s).1, part),
    decreases s.len(),
{
    if s.len() > 0 {
        let front = s.drop_last();
        stretches_contain_no_more(s, 0, front.len() as int, part);
        assert(s.subrange(0, front.len() as int) =~= front);
        split_state_contains_no_more(front, part);
        let word = split_state(s).1;
        let start = s.len() - word.len();
        if word.len() > 0 {
            assert(word == split_state(front).1.push(s.last()));
            assert forall|j: int| 0 <= j < word.len() implies word[j] == s.skip(start)[j] by {
                if j < word.len() - 1 {
                    assert(split_state(front).1[j] == front.skip(start)[j]);
                }
            }
        }
        assert(word =~= s.skip(start));
        stretches_contain_no_more(s, start, s.len() as int, part);
        assert(s.subrange(start, s.len() as int) =~= word);
    } else {
        assert(split_state(s).1 =~= s);
        assert(s.skip(0) =~= s);
    }
}

/// No token of a log line contains an extra delimiter, where none of those is empty
/// or has white space in it.
pub proof fn tokens_contain_no_delimiter(
    content: Seq<char>,
    delimiters: Seq<Seq<char>>,
    i: int,
    k: int,
)
    requires
        all_words(delimiters),
        0 <= i < tokens_of(content, delimiters).len(),
        0 <= k < delimiters.len(),
    ensures
        !contains_text(tokens_of(content, delimiters)[i], delimiters[k]),
{
    let spaced_line = delimiters_spaced(trimmed(content), delimiters);
    no_delimiter_is_left(trimmed(content), delimiters, k);
    split_state_contains_no_more(spaced_line, delimiters[k]);
}

/// White space only.
pub open spec fn is_gap(s: Seq<char>) -> bool {
    forall|i: int| 0 <= i < s.len() ==> white_space(#[trigger] s[i])
}

/// White space before, between and after words: some between any two of them, and
/// any or none at the ends.
pub open spec fn are_gaps(gaps: Seq<Seq<char>>) -> bool {
    &&& forall|i: int| 0 <= i < gaps.len() ==> is_gap(#[trigger] gaps[i])
    &&& forall|i: int| 0 < i < gaps.len() - 1 ==> (#[trigger] gaps[i]).len() > 0
}

/// The parts of a text with the gaps before, between and after them.
pub open spec fn spaced(parts: Seq<Seq<char>>, gaps: Seq<Seq<char>>) -> Seq<char>
    recommends
        gaps.len() == parts.len() + 1,
    decreases parts.len(),
{
    if parts.len() == 0 {
        gaps[0]
    } else {
        spaced(parts.drop_last(), gaps.drop_last()) + parts.last() + gaps.last()
    }
}

proof fn split_state_after_gap(s: Seq<char>, gap: Seq<char>)
    requires
        is_gap(gap),
    ensures
        split_state(s + gap) == if gap.len() == 0 {
            split_state(s)
        } else if split_state(s).1.len() == 0 {
            (split_state(s).0, Seq::<char>::empty())
        } else {
            (split_state(s).0.push(split_state(s).1), Seq::<char>::empty())
        },
    decreases gap.len(),
{
    if gap.len() == 0 {
        assert(s + gap =~= s);
    } else {
        let front = gap.drop_last();
        assert forall|i: int| 0 <= i < front.len() implies white_space(#[trigger] front[i]) by {
            assert(front[i] == gap[i]);
        }
        split_state_after_gap(s, front);
        assert((s + gap).drop_last() =~= s + front);
        assert(white_space(gap[gap.len() - 1]));
        assert(split_state(s).1.len() == 0 ==> split_state(s).1 =~= Seq::<char>::empty());
    }
}

proof fn split_state_of_spaced(parts: Seq<Seq<char>>, gaps: Seq<Seq<char>>)
    requires
        all_words(parts),
        gaps.len() == parts.len() + 1,
        are_gaps(gaps),
    ensures
        split_state(spaced(parts, gaps)) == if parts.len() > 0 && gaps.last().len() == 0 {
            (parts.drop_last(), parts.last())
        } else {
            (parts, Seq::<char>::empty())
        },
    decreases parts.len(),
{
    let nothing = Seq::<char>::empty();
    assert(is_gap(gaps[gaps.len() - 1]));
    if parts.len() == 0 {
        split_state_after_gap(nothing, gaps[0]);
        assert(nothing + gaps[0] =~= gaps[0]);
        assert(parts =~= Seq::empty());
    } else {
        let front = parts.drop_last();
        let front_gaps = gaps.drop_last();
        let word = parts.last();
        assert(is_word(parts[parts.len() - 1]));
        assert forall|i: int| 0 <= i < front.len() implies is_word(#[trigger] front[i]) by {
            assert(front[i] == parts[i]);
        }
        assert forall|i: int| 0 <= i < front_gaps.len() implies is_gap(
            #[trigger] front_gaps[i],
        ) by {
            assert(front_gaps[i] == gaps[i]);
        }
        assert forall|i: int| 0 < i < front_gaps.len() - 1 implies (#[trigger] front_gaps[i]).len()
            > 0 by {
            assert(front_gaps[i] == gaps[i]);
        }
        split_state_of_spaced(front, front_gaps);
        let start = spaced(front, front_gaps);
        if front.len() > 0 {
            assert(gaps[gaps.len() - 2].len() > 0);
            assert(front_gaps.last() == gaps[gaps.len() - 2]);
        }
        assert(split_state(start) == (front, nothing));
        split_state_of_more(start, word);
        assert(nothing + word =~= word);
        split_state_after_gap(start + word, gaps.last());
        assert(front.push(word) =~= parts);
    }
}

/// How much white space there is between words and at the ends of a text, and of
/// which kind, makes no difference to its words.
pub proof fn white_space_only_separates(parts: Seq<Seq<char>>, gaps: Seq<Seq<char>>)
    requires
        all_words(parts),
        gaps.len() == parts.len() + 1,
        are_gaps(gaps),
    ensures
        words(spaced(parts, gaps)) == parts,
        tokens_of(spaced(parts, gaps), Seq::empty()) == parts,
{
    split_state_of_spaced(parts, gaps);
    if parts.len() > 0 {
        assert(is_word(parts[parts.len() - 1]));
        assert(parts.drop_last().push(parts.last()) =~= parts);
    }
}

/// The text of each string stands in its place, whole.
pub proof fn texts_are_whole(strings: Seq<String>)
    ensures
        texts(strings).len() == strings.len(),
        forall|i: int| 0 <= i < strings.len() ==> #[trigger] texts(strings)[i] == strings[i]@,
{
}

/// Which characters are white space: among the ASCII ones the space, the tab and the
/// four after it; beyond them the next line, the spaces without a break, and the
/// spaces and separators of typography; no others.
pub proof fn white_space_by_code(c: char)
    ensures
        (c as u32) < 0x80 ==> (white_space(c) <==> c == ' ' || 0x09 <= c as u32 <= 0x0d),
        0x80 <= (c as u32) && (c as u32) < 0x2000 ==> (white_space(c) <==> c as u32 == 0x85
            || c as u32 == 0xa0 || c as u32 == 0x1680),
        0x2000 <= (c as u32) ==> (white_space(c) <==> c as u32 <= 0x200a || c as u32 == 0x2028
            || c as u32 == 0x2029 || c as u32 == 0x202f || c as u32 == 0x205f || c as u32
            == 0x3000),
{
}

proof fn split_state_after_break(a: Seq<char>, c: char, b: Seq<char>)
    requires
        white_space(c),
    ensures
        split_state(a.push(c) + b) == (words(a) + split_state(b).0, split_state(b).1),
    decreases b.len(),
{
    let start = a.push(c);
    assert(start.drop_last() =~= a);
    if b.len() == 0 {
        assert(start + b =~= start);
        assert(words(a) + split_state(b).0 =~= words(a));
        assert(split_state(start).1 =~= Seq::<char>::empty());
    } else {
        let front = b.drop_last();
        split_state_after_break(a, c, front);
        assert((start + b).drop_last() =~= start + front);
        assert((start + b).last() == b.last());
        let (done, word) = split_state(front);
        assert((words(a) + done).push(word) =~= words(a) + done.push(word));
    }
}

/// A white space character separates: the words of a text are those before it and
/// those after it.
pub proof fn white_space_separates(a: Seq<char>, c: char, b: Seq<char>)
    requires
        white_space(c),
    ensures
        words(a.push(c) + b) == words(a) + words(b),
{
    split_state_after_break(a, c, b);
    let (done, word) = split_state(b);
    assert((words(a) + done).push(word) =~= words(a) + done.push(word));
}

/// Nothing else separates: characters that are not white space are one word, of
/// whatever length.
pub proof fn nothing_else_separates(word: Seq<char>)
    requires
        forall|i: int| 0 <= i < word.len() ==> !white_space(#[trigger] word[i]),
    ensures
        words(word) == if word.len() == 0 {
            Seq::<Seq<char>>::empty()
        } else {
            seq![word]
        },
{
    let nothing = Seq::<char>::empty();
    split_state_of_more(nothing, word);
    assert(nothing + word =~= word);
    assert(words(word) =~= if word.len() == 0 {
        Seq::<Seq<char>>::empty()
    } else {
        seq![word]
    });
}

/// Parts are joined whole and in order, with one space between any two of them.
pub proof fn joining_puts_one_space_between(a: Seq<Seq<char>>, b: Seq<Seq<char>>)
    ensures
        a.len() == 1 ==> joined(a) == a[0],
        a.len() == 0 ==> joined(a).len() == 0,
        a.len() > 0 && b.len() > 0 ==> joined(a + b) == joined(a) + seq![' '] + joined(b),
    decreases b.len(),
{
    if a.len() > 0 && b.len() > 0 {
        let front = b.drop_last();
        assert((a + b).drop_last() =~= a + front);
        assert((a + b).last() == b.last());
        if front.len() == 0 {
            assert(a + front =~= a);
            assert(joined(a).push(' ') + b.last() =~= joined(a) + seq![' '] + joined(b));
        } else {
            joining_puts_one_space_between(a, front);
            assert((joined(a) + seq![' '] + joined(front)).push(' ') + b.last() =~= joined(a)
                + seq![' '] + (joined(front).push(' ') + b.last()));
        }
    }
}

/// A text in which nothing is to be replaced stays as it is.
pub proof fn nothing_is_replaced(s: Seq<char>, from: Seq<char>, to: Seq<char>)
    requires
        from.len() > 0,
        forall|i: int|
            0 <= i <= s.len() - from.len() ==> #[trigger] s.subrange(i, i + from.len()) != from,
    ensures
        replaced(s, from, to) == s,
    decreases s.len(),
{
    if s.len() >= from.len() {
        let rest = s.skip(1);
        assert(s.subrange(0, 0int + from.len()) =~= s.take(from.len() as int));
        assert forall|i: int| 0 <= i <= rest.len() - from.len() implies #[trigger] rest.subrange(
            i,
            i + from.len(),
        ) != from by {
            assert(rest.subrange(i, i + from.len()) =~= s.subrange(i + 1, i + 1 + from.len()));
        }
        nothing_is_replaced(rest, from, to);
        assert(seq![s[0]] + rest =~= s);
    }
}

/// The first occurrence is replaced, what stands before it stays, and behind it the
/// same goes on.
pub proof fn the_first_occurrence_is_replaced(
    before: Seq<char>,
    from: Seq<char>,
    behind: Seq<char>,
    to: Seq<char>,
)
    requires
        from.len() > 0,
        forall|i: int|
            0 <= i < before.len() ==> #[trigger] (before + from + behind).subrange(
                i,
                i + from.len(),
            ) != from,
    ensures
        replaced(before + from + behind, from, to) == before + to + replaced(behind, from, to),
    decreases before.len(),
{
    let s = before + from + behind;
    if before.len() == 0 {
        assert(s.take(from.len() as int) =~= from);
        assert(s.skip(from.len() as int) =~= behind);
        assert(before + to =~= to);
    } else {
        let rest = before.skip(1);
        assert(s.subrange(0, 0int + from.len()) =~= s.take(from.len() as int));
        assert(s.skip(1) =~= rest + from + behind);
        assert forall|i: int| 0 <= i < rest.len() implies #[trigger] (rest + from
            + behind).subrange(i, i + from.len()) != from by {
            assert((rest + from + behind).subrange(i, i + from.len()) =~= s.subrange(
                i + 1,
                i + 1 + from.len(),
            ));
        }
        the_first_occurrence_is_replaced(rest, from, behind, to);
        assert(seq![s[0]] + (rest + to + replaced(behind, from, to)) =~= before + to + replaced(
            behind,
            from,
            to,
        ));
    }
}

/// An empty text occurs before, between and behind all characters.
pub proof fn an_empty_text_occurs_everywhere(s: Seq<char>, c: char, to: Seq<char>)
    ensures
        replaced(Seq::empty(), Seq::empty(), to) == to,
        replaced(s.push(c), Seq::empty(), to) == replaced(s, Seq::empty(), to) + seq![c] + to,
{
    assert(s.push(c).drop_last() =~= s);
    assert(replaced(s, Seq::empty(), to).push(c) =~= replaced(s, Seq::empty(), to) + seq![c]);
}

proof fn trimming_the_start(gap: Seq<char>, s: Seq<char>)
    requires
        forall|i: int| 0 <= i < gap.len() ==> white_space(#[trigger] gap[i]),
        s.len() > 0 ==> !white_space(s[0]),
    ensures
        trimmed_start(gap + s) == s,
    decreases gap.len(),
{
    if gap.len() == 0 {
        assert(gap + s =~= s);
    } else {
        assert((gap + s).skip(1) =~= gap.skip(1) + s);
        assert((gap + s)[0] == gap[0]);
        assert forall|i: int| 0 <= i < gap.skip(1).len() implies white_space(
            #[trigger] gap.skip(1)[i],
        ) by {
            assert(gap.skip(1)[i] == gap[i + 1]);
        }
        trimming_the_start(gap.skip(1), s);
    }
}

proof fn trimming_the_end(s: Seq<char>, gap: Seq<char>)
    requires
        forall|i: int| 0 <= i < gap.len() ==> white_space(#[trigger] gap[i]),
        s.len() > 0 ==> !white_space(s.last()),
    ensures
        trimmed_end(s + gap) == s,
    decreases gap.len(),
{
    if gap.len() == 0 {
        assert(s + gap =~= s);
    } else {
        let front = gap.drop_last();
        assert((s + gap).drop_last() =~= s + front);
        assert((s + gap).last() == gap[gap.len() - 1]);
        assert forall|i: int| 0 <= i < front.len() implies white_space(#[trigger] front[i]) by {
            assert(front[i] == gap[i]);
        }
        trimming_the_end(s, front);
    }
}

/// Trimming takes the white space off both ends of a text and nothing else.
pub proof fn trimming_takes_the_ends_off(before: Seq<char>, s: Seq<char>, behind: Seq<char>)
    requires
        forall|i: int| 0 <= i < before.len() ==> white_space(#[trigger] before[i]),
        forall|i: int| 0 <= i < behind.len() ==> white_space(#[trigger] behind[i]),
        s.len() > 0 ==> !white_space(s[0]) && !white_space(s.last()),
    ensures
        trimmed(before + s + behind) == s,
{
    if s.len() > 0 {
        assert(before + s + behind =~= before + (s + behind));
        trimming_the_start(before, s + behind);
        trimming_the_end(s, behind);
    } else {
        let all = before + behind;
        assert(before + s + behind =~= all + s);
        assert forall|i: int| 0 <= i < all.len() implies white_space(#[trigger] all[i]) by {
            if i < before.len() {
                assert(all[i] == before[i]);
            } else {
                assert(all[i] == behind[i - before.len()]);
            }
        }
        trimming_the_start(all, s);
        assert(s =~= Seq::empty());
    }
}

/// Each delimiter in turn becomes a space wherever it occurs, and the tokens of a
/// line are the words of what that gives. Without delimiters they are the words of
/// the line.
pub proof fn tokens_are_what_delimiters_leave(
    content: Seq<char>,
    s: Seq<char>,
    delimiters: Seq<Seq<char>>,
    delimiter: Seq<char>,
)
    ensures
        tokens_of(content, Seq::empty()) == words(content),
        delimiters.len() > 0 ==> tokens_of(content, delimiters) == words(
            delimiters_spaced(trimmed(content), delimiters),
        ),
        delimiters_spaced(s, Seq::empty()) == s,
        delimiters_spaced(s, delimiters.push(delimiter)) == replaced(
            delimiters_spaced(s, delimiters),
            delimiter,
            seq![' '],
        ),
{
    assert(delimiters.push(delimiter).drop_last() =~= delimiters);
}

/// A digit is written as its character, and one digit more behind a number writes
/// ten times that number and the digit.
pub proof fn numbers_are_written_digit_by_digit(n: nat, digit: nat)
    requires
        digit < 10,
    ensures
        decimal(digit).len() == 1,
        decimal(digit)[0] as u32 == 48 + digit,
        n > 0 ==> decimal(10 * n + digit) == decimal(n) + decimal(digit),
{
    if n > 0 {
        assert((10 * n + digit) / 10 == n && (10 * n + digit) % 10 == digit);
        assert(decimal(10 * n + digit) =~= decimal(n) + decimal(digit));
    }
}

/// A text contains a number where one of its characters is numeric, wherever it
/// stands.
pub proof fn numbers_are_found_everywhere(a: Seq<char>, c: char, b: Seq<char>)
    ensures
        contains_number(a.push(c) + b) <==> contains_number(a) || numeric(c) || contains_number(
            b,
        ),
        contains_digit(a.push(c) + b) <==> contains_digit(a) || '0' <= c <= '9'
            || contains_digit(b),
        !contains_number(Seq::empty()),
        !contains_digit(Seq::empty()),
{
    let s = a.push(c) + b;
    assert(s[a.len() as int] == c);
    assert forall|i: int| 0 <= i < a.len() implies #[trigger] a[i] == s[i] by {}
    assert forall|i: int| 0 <= i < b.len() implies #[trigger] b[i] == s[a.len() + 1 + i] by {}
    if contains_number(s) {
        let i = choose|i: int| 0 <= i < s.len() && numeric(#[trigger] s[i]);
        if i < a.len() {
            assert(a[i] == s[i]);
        } else if i > a.len() {
            assert(b[i - a.len() - 1] == s[i]);
        }
    }
    if contains_digit(s) {
        let i = choose|i: int| 0 <= i < s.len() && '0' <= #[trigger] s[i] <= '9';
        if i < a.len() {
            assert(a[i] == s[i]);
        } else if i > a.len() {
            assert(b[i - a.len() - 1] == s[i]);
        }
    }
}

/// The occurrences in two sequences add up, and an item occurs once in itself alone.
pub proof fn occurrences_add_up<T>(a: Seq<T>, b: Seq<T>, x: T, y: T)
    ensures
        occurrences(a + b, x) == occurrences(a, x) + occurrences(b, x),
        occurrences(seq![y], x) == if y == x {
            1nat
        } else {
            0nat
        },
    decreases b.len(),
{
    assert(seq![y].drop_last() =~= Seq::<T>::empty());
    assert(occurrences(seq![y].drop_last(), x) == 0);
    if b.len() == 0 {
        assert(a + b =~= a);
    } else {
        assert((a + b).drop_last() =~= a + b.drop_last());
        occurrences_add_up(a, b.drop_last(), x, y);
    }
}

} // verus!
