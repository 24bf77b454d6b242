# ctrlb_decompose

Compresses raw log lines into structural patterns. Lines are grouped into clusters
with a common template (the Drain method: a prefix tree of fixed depth over the
tokens of a line, and the most similar cluster in its leaf), and the parts in which
the lines of a cluster differ are classified: integers, floats, durations,
timestamps, addresses, UUIDs, hexadecimal identifiers, plain strings.

The library is written in Verus. Every function states what it returns and changes
as a function of its inputs, and is proved to do so.

## Layout

- `src/types.rs`, `src/args.rs`: shared types; the arguments of the program and the
  output that they ask for.
- `src/input.rs`: from the raw text of a log to its lines.
- `src/text.rs`, `src/words.rs`: words, delimiters, decimal numbers, and what holds of
  words and tokens.
- `src/extraction/classify.rs`, `kinds.rs`: what kind of value a text is, and what
  holds of the kinds.
- `src/extraction/cluster.rs`, `cache.rs`, `keeping.rs`: clusters, the bounded cache of
  those used last, on top of the `lru` crate, and what it keeps after any calls.
- `src/extraction/tree.rs`, `growth.rs`: the prefix tree, and how it grows.
- `src/extraction/matching.rs`: the similarity of a line and a template, and the best
  of several clusters.
- `src/extraction/state.rs`: the state of the grouping as a mathematical value, and
  what each operation makes of it.
- `src/extraction/drain3.rs`: `Drain`, which carries these operations out.
- `src/extraction/laws.rs`, `history.rs`: what holds of the grouping as a whole, call by
  call and after any calls.
- `app/`: the command line, reading files and standard input, and the stages around
  the grouping.

The similarity threshold is a fraction held exactly (`Ratio`), not a floating-point
number.

## What is trusted

The contracts of a few functions of other crates and of `std` are believed, not
proved: those of `lru::LruCache` in `cache.rs`, of `regex::Regex` in `classify.rs`,
and of `char::is_whitespace`, `char::is_numeric`, `String::push` and
`String::from_utf8_lossy` in `text.rs` and `input.rs`. Each stands beside the function
with a comment that says what is claimed.
