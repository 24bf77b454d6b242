//! From the raw text of a log to its lines.

use crate::text::{string_of, texts};
use vstd::prelude::*;
use vstd::utf8::{decode_utf8, encode_utf8, encode_utf8_decode_utf8, valid_utf8};

verus! {

/// How many lines are read before they are worked on.
pub const BATCH_SIZE: usize = 8192;

/// A text without the given character at its end, however often it stands there.
pub open spec fn without_end(s: Seq<char>, c: char) -> Seq<char>
    decreases s.len(),
{
    if s.len() > 0 && s.last() == c {
        without_end(s.drop_last(), c)
    } else {
        s
    }
}

/// A line as it was read without what ends it: line feeds, and carriage returns
/// before them.
pub open spec fn line_content(s: Seq<char>) -> Seq<char> {
    without_end(without_end(s, '\n'), '\r')
}

/// Cuts off what ends a line.
pub fn trim_line_end(text: &str) -> (line: String)
    ensures
        line@ == line_content(text@),
{
    let mut len: usize = text.unicode_len();
    assert(text@.take(len as int) == text@);
    while len > 0 && text.get_char(len - 1) == '\n'
        invariant
            len <= text@.len(),
            without_end(text@, '\n') == without_end(text@.take(len as int), '\n'),
        decreases len,
    {
        assert(text@.take(len as int).drop_last() == text@.take(len - 1));
        len = len - 1;
    }
    let ghost feedless = text@.take(len as int);
    let ghost start = len;
    assert(feedless.take(len as int) == feedless);
    while len > 0 && text.get_char(len - 1) == '\r'
        invariant
            len <= start <= text@.len(),
            feedless == text@.take(start as int),
            without_end(feedless, '\r') == without_end(text@.take(len as int), '\r'),
        decreases len,
    {
        assert(text@.take(len as int).drop_last() == text@.take(len - 1));
        len = len - 1;
    }
    text.substring_char(0, len).to_string()
}

/// The text that bytes stand for in UTF-8, with replacement characters where they
/// are not valid UTF-8.
pub uninterp spec fn utf8_lossy(bytes: Seq<u8>) -> Seq<char>;

/// `String::from_utf8_lossy` depends on the bytes alone, and decodes those that
/// are valid UTF-8 exactly.
#[verifier::external_body]
fn decode_lossy(bytes: &[u8]) -> (text: String)
    ensures
        text@ == utf8_lossy(bytes@),
        valid_utf8(bytes@) ==> encode_utf8(text@) == bytes@,
{
    String::from_utf8_lossy(bytes).into_owned()
}

/// Lines that wait to be worked on.
pub struct Batch {
    pub lines: Vec<String>,
}

impl Batch {
    /// No lines yet.
    pub fn new() -> (batch: Batch)
        ensures
            batch.lines@ == Seq::<String>::empty(),
    {
        Batch { lines: Vec::new() }
    }

    /// Takes in a line as it was read, unless it is empty. Tells whether the batch
    /// is full.
    pub fn offer(&mut self, raw: &[u8]) -> (full: bool)
        ensures
            texts(final(self).lines@) == if line_content(utf8_lossy(raw@)).len() == 0 {
                texts(old(self).lines@)
            } else {
                texts(old(self).lines@).push(line_content(utf8_lossy(raw@)))
            },
            valid_utf8(raw@) ==> texts(final(self).lines@) == if line_content(
                decode_utf8(raw@),
            ).len() == 0 {
                texts(old(self).lines@)
            } else {
                texts(old(self).lines@).push(line_content(decode_utf8(raw@)))
            },
            full == (final(self).lines@.len() >= BATCH_SIZE),
    {
        let text = decode_lossy(raw);
        proof {
            encode_utf8_decode_utf8(text@);
        }
        self.offer_text(text.as_str())
    }

    /// Takes in the text of a line as it was read, unless nothing but its end is
    /// there. Tells whether the batch is full.
    pub fn offer_text(&mut self, text: &str) -> (full: bool)
        ensures
            texts(final(self).lines@) == if line_content(text@).len() == 0 {
                texts(old(self).lines@)
            } else {
                texts(old(self).lines@).push(line_content(text@))
            },
            full == (final(self).lines@.len() >= BATCH_SIZE),
    {
        let line = trim_line_end(text);
        if !line.as_str().is_empty() {
            let ghost before = texts(self.lines@);
            self.lines.push(line);
            assert(texts(self.lines@) =~= before.push(line@));
        }
        self.lines.len() >= BATCH_SIZE
    }
}

/// The finished lines of a text and the line that its end leaves unfinished. A
/// line feed ends a line, and a carriage return right before it belongs to the
/// end.
pub open spec fn line_state(s: Seq<char>) -> (Seq<Seq<char>>, Seq<char>)
    decreases s.len(),
{
    if s.len() == 0 {
        (Seq::empty(), Seq::empty())
    } else {
        let (done, line) = line_state(s.drop_last());
        if s.last() != '\n' {
            (done, line.push(s.last()))
        } else if line.len() > 0 && line.last() == '\r' {
            (done.push(line.drop_last()), Seq::empty())
        } else {
            (done.push(line), Seq::empty())
        }
    }
}

/// The lines of a text. The last one need not be ended.
pub open spec fn lines_of(s: Seq<char>) -> Seq<Seq<char>> {
    let (done, line) = line_state(s);
    if line.len() == 0 {
        done
    } else {
        done.push(line)
    }
}

/// The texts that are not empty, in the same order.
pub open spec fn not_empty(lines: Seq<Seq<char>>) -> Seq<Seq<char>>
    decreases lines.len(),
{
    if lines.len() == 0 {
        lines
    } else if lines.last().len() == 0 {
        not_empty(lines.drop_last())
    } else {
        not_empty(lines.drop_last()).push(lines.last())
    }
}

/// A line of a log, with its number.
pub struct NumberedLine {
    pub number: u64,
    pub text: String,
}

/// The texts of numbered lines.
pub open spec fn line_texts(lines: Seq<NumberedLine>) -> Seq<Seq<char>> {
    Seq::new(lines.len(), |i: int| lines[i].text@)
}

proof fn not_empty_push(lines: Seq<Seq<char>>, line: Seq<char>)
    ensures
        not_empty(lines.push(line)) == if line.len() == 0 {
            not_empty(lines)
        } else {
            not_empty(lines).push(line)
        },
{
    assert(lines.push(line).drop_last() =~= lines);
}

/// The lines of a log that are not empty, numbered from 1 on.
pub fn numbered_lines(input: &str) -> (lines: Vec<NumberedLine>)
    ensures
        line_texts(lines@) == not_empty(lines_of(input@)),
        lines@.len() == not_empty(lines_of(input@)).len(),
        forall|i: int|
            0 <= i < lines@.len() ==> (#[trigger] lines@[i]).number == i + 1 && lines@[i].text@
                == not_empty(lines_of(input@))[i],
{
    let mut kept: Vec<String> = Vec::new();
    let mut line: Vec<char> = Vec::new();
    assert(input@.take(0) == Seq::<char>::empty());
    for c in it: input.chars()
        invariant
            it.seq() == input@,
            texts(kept@) == not_empty(line_state(input@.take(it.index())).0),
            line@ == line_state(input@.take(it.index())).1,
    {
        let ghost done = line_state(input@.take(it.index())).0;
        proof {
            let seen = input@.take(it.index() + 1);
            assert(seen.drop_last() == input@.take(it.index()));
            assert(seen.last() == c);
        }
        if c == '\n' {
            let mut len: usize = line.len();
            if len > 0 && line[len - 1] == '\r' {
                len = len - 1;
            }
            let ghost ended = line@.take(len as int);
            proof {
                assert(line@.subrange(0, len as int) == ended);
                assert(ended == line@ || ended == line@.drop_last());
                not_empty_push(done, ended);
            }
            if len > 0 {
                let ghost before = texts(kept@);
                kept.push(string_of(&line, 0, len));
                assert(texts(kept@) =~= before.push(ended));
            }
            line = Vec::new();
        } else {
            line.push(c);
        }
    }
    assert(input@.take(input@.len() as int) == input@);
    if line.len() > 0 {
        let ghost before = texts(kept@);
        proof {
            assert(line@.subrange(0, line@.len() as int) == line@);
            not_empty_push(line_state(input@).0, line@);
        }
        kept.push(string_of(&line, 0, line.len()));
        assert(texts(kept@) =~= before.push(line@));
    }
    let mut lines: Vec<NumberedLine> = Vec::new();
    let mut i: usize = 0;
    while i < kept.len()
        invariant
            i <= kept@.len(),
            lines@.len() == i,
            forall|j: int|
                0 <= j < i ==> (#[trigger] lines@[j]).number == j + 1 && lines@[j].text@
                    == kept@[j]@,
        decreases kept@.len() - i,
    {
        lines.push(NumberedLine { number: i as u64 + 1, text: kept[i].clone() });
        i = i + 1;
    }
    proof {
        assert(line_texts(lines@) =~= texts(kept@));
        assert forall|j: int| 0 <= j < lines@.len() implies (#[trigger] lines@[j]).text@
            == not_empty(lines_of(input@))[j] by {
            assert(line_texts(lines@)[j] == lines@[j].text@);
        }
    }
    lines
}

/// The finished pieces of a text that is read up to each line feed, line feeds
/// included, and the piece that its end leaves unfinished.
pub open spec fn piece_state(s: Seq<char>) -> (Seq<Seq<char>>, Seq<char>)
    decreases s.len(),
{
    if s.len() == 0 {
        (Seq::empty(), Seq::empty())
    } else {
        let (done, piece) = piece_state(s.drop_last());
        if s.last() == '\n' {
            (done.push(piece.push('\n')), Seq::empty())
        } else {
            (done, piece.push(s.last()))
        }
    }
}

/// The pieces in which a text is read: up to each line feed, and the rest.
pub open spec fn pieces_of(s: Seq<char>) -> Seq<Seq<char>> {
    let (done, piece) = piece_state(s);
    if piece.len() == 0 {
        done
    } else {
        done.push(piece)
    }
}

/// What each piece holds besides its line end.
pub open spec fn contents(pieces: Seq<Seq<char>>) -> Seq<Seq<char>> {
    Seq::new(pieces.len(), |i: int| line_content(pieces[i]))
}

/// A text that ends in a carriage return.
pub open spec fn ends_in_return(s: Seq<char>) -> bool {
    s.len() > 0 && s.last() == '\r'
}

/// A piece offered to a batch adds what it holds to the lines of the pieces before
/// it, unless it holds nothing.
pub proof fn a_piece_adds_its_line(pieces: Seq<Seq<char>>, piece: Seq<char>)
    ensures
        not_empty(contents(pieces.push(piece))) == if line_content(piece).len() == 0 {
            not_empty(contents(pieces))
        } else {
            not_empty(contents(pieces)).push(line_content(piece))
        },
{
    assert(contents(pieces.push(piece)) =~= contents(pieces).push(line_content(piece)));
    not_empty_push(contents(pieces), line_content(piece));
}

proof fn pieces_hold_lines(s: Seq<char>)
    requires
        forall|i: int|
            0 <= i < line_state(s).0.len() ==> !ends_in_return(#[trigger] line_state(s).0[i]),
    ensures
        contents(piece_state(s).0) == line_state(s).0,
        piece_state(s).1 == line_state(s).1,
        forall|i: int|
            0 <= i < piece_state(s).1.len() ==> (#[trigger] piece_state(s).1[i]) != '\n',
    decreases s.len(),
{
    if s.len() > 0 {
        let front = s.drop_last();
        let before = line_state(front).0;
        let after = line_state(s).0;
        assert forall|i: int| 0 <= i < before.len() implies !ends_in_return(#[trigger] before[i]) by {
            assert(before[i] == after[i]);
        }
        pieces_hold_lines(front);
        let (done, piece) = piece_state(front);
        if s.last() == '\n' {
            let ended = piece.push('\n');
            assert(ended.drop_last() =~= piece);
            assert(piece.len() > 0 ==> piece[piece.len() - 1] != '\n');
            assert(without_end(piece, '\n') == piece);
            assert(without_end(ended, '\n') == piece);
            let line = after.last();
            assert(!ends_in_return(after[after.len() - 1]));
            assert(without_end(line, '\r') == line);
            assert(line_content(ended) == line);
            assert(contents(done.push(ended)) =~= contents(done).push(line_content(ended)));
        }
    } else {
        assert(contents(piece_state(s).0) =~= line_state(s).0);
    }
}

/// A log read piece by piece has the same lines as the same log taken as one text,
/// where none of those ends in a carriage return.
pub proof fn both_ways_give_the_same_lines(s: Seq<char>)
    requires
        forall|i: int| 0 <= i < lines_of(s).len() ==> !ends_in_return(#[trigger] lines_of(s)[i]),
    ensures
        contents(pieces_of(s)) == lines_of(s),
        not_empty(contents(pieces_of(s))) == not_empty(lines_of(s)),
{
    let (lines, line) = line_state(s);
    assert forall|i: int| 0 <= i < lines.len() implies !ends_in_return(#[trigger] lines[i]) by {
        assert(lines_of(s)[i] == lines[i]);
    }
    pieces_hold_lines(s);
    let (done, piece) = piece_state(s);
    if piece.len() > 0 {
        assert(piece[piece.len() - 1] != '\n');
        assert(without_end(piece, '\n') == piece);
        assert(lines_of(s)[lines.len() as int] == line);
        assert(!ends_in_return(line));
        assert(line_content(piece) == line);
        assert(contents(done.push(piece)) =~= contents(done).push(line_content(piece)));
    }
}

/// Which texts are dropped: those without characters and no others, in every place.
pub proof fn only_empty_texts_are_dropped(a: Seq<Seq<char>>, b: Seq<Seq<char>>, line: Seq<char>)
    ensures
        not_empty(a + b) == not_empty(a) + not_empty(b),
        not_empty(seq![line]) == if line.len() == 0 {
            Seq::<Seq<char>>::empty()
        } else {
            seq![line]
        },
    decreases b.len(),
{
    let nothing = Seq::<Seq<char>>::empty();
    not_empty_push(nothing, line);
    assert(nothing.push(line) =~= seq![line]);
    if b.len() == 0 {
        assert(a + b =~= a);
        assert(not_empty(a) + not_empty(b) =~= not_empty(a));
    } else {
        let front = b.drop_last();
        only_empty_texts_are_dropped(a, front, line);
        assert((a + b).drop_last() =~= a + front);
        assert((a + b).last() == b.last());
        assert((not_empty(a) + not_empty(front)).push(b.last()) =~= not_empty(a) + not_empty(
            front,
        ).push(b.last()));
    }
}

/// What stands before line ends at the end of a piece is its content, whole, of
/// whatever length: `carriages` are carriage returns and `feeds` line feeds.
pub proof fn a_piece_loses_its_line_end_only(
    line: Seq<char>,
    carriages: Seq<char>,
    feeds: Seq<char>,
)
    requires
        forall|i: int| 0 <= i < carriages.len() ==> #[trigger] carriages[i] == '\r',
        forall|i: int| 0 <= i < feeds.len() ==> #[trigger] feeds[i] == '\n',
        line.len() > 0 ==> line.last() != '\r',
        line.len() > 0 && carriages.len() == 0 ==> line.last() != '\n',
    ensures
        line_content(line + carriages + feeds) == line,
{
    let start = line + carriages;
    if carriages.len() > 0 {
        assert(start.last() == carriages[carriages.len() - 1]);
    } else {
        assert(start =~= line);
    }
    cutting_off(start, feeds, '\n');
    cutting_off(line, carriages, '\r');
}

proof fn cutting_off(s: Seq<char>, end: Seq<char>, c: char)
    requires
        forall|i: int| 0 <= i < end.len() ==> #[trigger] end[i] == c,
        s.len() > 0 ==> s.last() != c,
    ensures
        without_end(s + end, c) == s,
    decreases end.len(),
{
    if end.len() == 0 {
        assert(s + end =~= s);
    } else {
        assert((s + end).drop_last() =~= s + end.drop_last());
        assert((s + end).last() == end[end.len() - 1]);
        cutting_off(s, end.drop_last(), c);
    }
}

proof fn line_state_without_feeds(a: Seq<char>, b: Seq<char>)
    requires
        forall|i: int| 0 <= i < b.len() ==> #[trigger] b[i] != '\n',
    ensures
        line_state(a + b) == (line_state(a).0, line_state(a).1 + b),
    decreases b.len(),
{
    if b.len() == 0 {
        assert(a + b =~= a);
        assert(line_state(a).1 + b =~= line_state(a).1);
    } else {
        let front = b.drop_last();
        line_state_without_feeds(a, front);
        assert((a + b).drop_last() =~= a + front);
        assert((a + b).last() == b[b.len() - 1]);
        assert((line_state(a).1 + front).push(b.last()) =~= line_state(a).1 + b);
    }
}

proof fn line_state_after_feed(a: Seq<char>, b: Seq<char>)
    ensures
        line_state(a.push('\n')).1.len() == 0,
        line_state(a.push('\n') + b) == (
            line_state(a.push('\n')).0 + line_state(b).0,
            line_state(b).1,
        ),
    decreases b.len(),
{
    let start = a.push('\n');
    let done = line_state(start).0;
    assert(start.drop_last() =~= a);
    if b.len() == 0 {
        assert(start + b =~= start);
        assert(done + line_state(b).0 =~= done);
        assert(line_state(start).1 =~= Seq::<char>::empty());
    } else {
        let front = b.drop_last();
        line_state_after_feed(a, front);
        assert((start + b).drop_last() =~= start + front);
        assert((start + b).last() == b.last());
        let (more, line) = line_state(front);
        assert((done + more).push(line) =~= done + more.push(line));
        if line.len() > 0 {
            assert((done + more).push(line.drop_last()) =~= done + more.push(line.drop_last()));
        }
    }
}

/// A line feed separates: the lines of a text are those up to it and those after it.
pub proof fn a_line_feed_separates(a: Seq<char>, b: Seq<char>)
    ensures
        lines_of(a.push('\n') + b) == lines_of(a.push('\n')) + lines_of(b),
{
    line_state_after_feed(a, b);
    let done = line_state(a.push('\n')).0;
    let (more, line) = line_state(b);
    assert((done + more).push(line) =~= done + more.push(line));
}

/// Nothing else separates, and a line loses its end only: a text without line feeds is
/// one line as it is, and with a line feed behind it, or a carriage return and a
/// line feed, it is one line too, whole, of whatever length.
pub proof fn a_line_loses_its_end_only(line: Seq<char>)
    requires
        forall|i: int| 0 <= i < line.len() ==> #[trigger] line[i] != '\n',
    ensures
        line.len() > 0 ==> lines_of(line) == seq![line],
        line.len() == 0 ==> lines_of(line) == Seq::<Seq<char>>::empty(),
        (line.len() > 0 ==> line.last() != '\r') ==> lines_of(line.push('\n')) == seq![line],
        lines_of(line.push('\r').push('\n')) == seq![line],
{
    let nothing = Seq::<char>::empty();
    let none = Seq::<Seq<char>>::empty();
    line_state_without_feeds(nothing, line);
    assert(nothing + line =~= line);
    assert(line_state(line) == (none, line));
    assert(none.push(line) =~= seq![line]);
    assert(line.push('\n').drop_last() =~= line);
    let returned = line.push('\r');
    assert(returned.drop_last() =~= line);
    assert(line_state(returned) == (none, returned));
    assert(returned.push('\n').drop_last() =~= returned);
    assert(lines_of(line.push('\n')) == line_state(line.push('\n')).0);
}

/// Lines written one after the other, each with a line feed or a carriage return and
/// a line feed behind it, are the lines of what is written: nothing is lost and
/// nothing is added.
pub proof fn written_lines_are_read_back(lines: Seq<Seq<char>>, written: Seq<Seq<char>>)
    requires
        written.len() == lines.len(),
        forall|i: int, j: int|
            0 <= i < lines.len() && 0 <= j < lines[i].len() ==> #[trigger] lines[i][j] != '\n',
        forall|i: int|
            0 <= i < lines.len() ==> {
                ||| #[trigger] written[i] == lines[i].push('\r').push('\n')
                ||| written[i] == lines[i].push('\n') && (lines[i].len() > 0 ==> lines[i].last()
                    != '\r')
            },
    ensures
        lines_of(written.flatten()) == lines,
    decreases lines.len(),
{
    if lines.len() == 0 {
        assert(written.flatten() =~= Seq::<char>::empty());
        assert(lines_of(written.flatten()) =~= lines);
    } else {
        let rest = lines.skip(1);
        let written_rest = written.skip(1);
        assert forall|i: int, j: int| 0 <= i < rest.len() && 0 <= j < rest[i].len() implies
            #[trigger] rest[i][j] != '\n' by {
            assert(rest[i] == lines[i + 1]);
            assert(lines[i + 1][j] != '\n');
        }
        assert forall|i: int| 0 <= i < rest.len() implies {
            ||| #[trigger] written_rest[i] == rest[i].push('\r').push('\n')
            ||| written_rest[i] == rest[i].push('\n') && (rest[i].len() > 0 ==> rest[i].last()
                != '\r')
        } by {
            assert(written_rest[i] == written[i + 1]);
        }
        written_lines_are_read_back(rest, written_rest);
        let first = lines[0];
        assert forall|j: int| 0 <= j < first.len() implies #[trigger] first[j] != '\n' by {
            assert(lines[0][j] != '\n');
        }
        a_line_loses_its_end_only(first);
        let start = written[0].drop_last();
        assert(written[0] =~= start.push('\n'));
        assert(written.drop_first() =~= written_rest);
        assert(written.flatten() == written[0] + written_rest.flatten());
        a_line_feed_separates(start, written_rest.flatten());
        assert(seq![first] + rest =~= lines);
    }
}

} // verus!
