use ctrlb_decompose::input::{numbered_lines, trim_line_end, Batch, BATCH_SIZE};
use ctrlb_decompose::text::{has_numbers, join, replace, split_words, to_decimal, trim};
use ctrlb_decompose::types::{FormatOptions, OutputMode};
use ctrlb_decompose::Args;

fn args() -> Args {
    Args {
        file: None,
        human: false,
        llm: false,
        json: false,
        top: 20,
        context: 0,
        no_color: false,
        no_banner: false,
        quiet: false,
    }
}

#[test]
fn json_comes_before_llm_and_llm_before_human() {
    assert_eq!(args().output_mode(), OutputMode::Human);
    assert_eq!(Args { human: true, ..args() }.output_mode(), OutputMode::Human);
    assert_eq!(Args { llm: true, human: true, ..args() }.output_mode(), OutputMode::Llm);
    assert_eq!(Args { json: true, llm: true, ..args() }.output_mode(), OutputMode::Json);
}

#[test]
fn the_llm_form_has_two_example_lines() {
    assert_eq!(Args { llm: true, ..args() }.to_format_options().context, 2);
    assert_eq!(Args { llm: true, context: 5, ..args() }.to_format_options().context, 5);
    assert_eq!(
        Args { top: 3, no_color: true, ..args() }.to_format_options(),
        FormatOptions {
            top: 3,
            context: 0,
            no_color: true,
            no_banner: false,
            output_mode: OutputMode::Human,
        }
    );
}

#[test]
fn a_dash_stands_for_standard_input() {
    assert!(args().input_path().is_none());
    assert!(Args { file: Some("-".to_string()), ..args() }.input_path().is_none());
    let args = Args { file: Some("a.log".to_string()), ..args() };
    assert_eq!(args.input_path().unwrap(), "a.log");
}

#[test]
fn lines_that_are_not_empty_are_numbered() {
    let lines: Vec<(u64, String)> = numbered_lines("a\r\n\nb\r\r\n\r\nc\rd\r")
        .into_iter()
        .map(|l| (l.number, l.text))
        .collect();
    assert_eq!(
        lines,
        vec![
            (1, "a".to_string()),
            (2, "b\r".to_string()),
            (3, "c\rd\r".to_string()),
        ]
    );
    assert!(numbered_lines("").is_empty());
    assert!(numbered_lines("\n\r\n").is_empty());
}

#[test]
fn numbering_agrees_with_the_lines_of_a_text() {
    for input in ["", "\n", "a", "a\n", "a\nb", "\r\n\r\r\nx\r", "a\n\n\nb\r\n\r"] {
        let expected: Vec<&str> = input.lines().filter(|l| !l.is_empty()).collect();
        let found: Vec<String> = numbered_lines(input).into_iter().map(|l| l.text).collect();
        assert_eq!(found, expected);
    }
}

#[test]
fn line_ends_are_cut_off() {
    assert_eq!(trim_line_end("a b\r\n"), "a b");
    assert_eq!(trim_line_end("a\r\r\n\n"), "a");
    assert_eq!(trim_line_end("a\n\r"), "a\n");
    assert_eq!(trim_line_end("\r\n"), "");
    assert_eq!(trim_line_end("é"), "é");
}

#[test]
fn a_batch_takes_lines_until_it_is_full() {
    let mut batch = Batch::new();
    assert!(!batch.offer(b"\r\n"));
    assert!(batch.lines.is_empty());
    assert!(!batch.offer(b"first\xff line\n"));
    assert_eq!(batch.lines, vec!["first\u{fffd} line".to_string()]);
    while batch.lines.len() < BATCH_SIZE - 1 {
        assert!(!batch.offer("ü\n".as_bytes()));
    }
    assert!(batch.offer_text("last\r\n"));
    assert_eq!(batch.lines.len(), 8192);
    assert_eq!(batch.lines[1], "ü");
    assert_eq!(batch.lines[8191], "last");
}

#[test]
fn words_are_split_as_std_splits_them() {
    for text in ["", " ", "a", " a  b ", "a\u{85}b\u{2028}c", "x\u{1680}\u{205f}y\u{180e}z"] {
        let expected: Vec<&str> = text.split_whitespace().collect();
        assert_eq!(split_words(text), expected);
        assert_eq!(trim(text), text.trim());
    }
}

#[test]
fn text_is_replaced_as_std_replaces_it() {
    for text in ["", "aaa", "abab", "xaay", "ü=ü"] {
        for from in ["", "a", "aa", "ab", "=", "zzzzzz"] {
            for to in ["", " ", "aa"] {
                assert_eq!(replace(text, from, to), text.replace(from, to));
            }
        }
    }
}

#[test]
fn words_are_joined_with_one_space() {
    assert_eq!(join(&vec![]), "");
    assert_eq!(join(&vec!["a".to_string()]), "a");
    assert_eq!(join(&vec!["a".to_string(), String::new(), "b".to_string()]), "a  b");
}

#[test]
fn numbers_are_written_in_decimal() {
    for n in [0, 9, 10, 105, 99999, usize::MAX] {
        assert_eq!(to_decimal(n), n.to_string());
    }
}

#[test]
fn numbers_are_found_in_every_script() {
    assert!(has_numbers("a1"));
    assert!(has_numbers("x²"));
    assert!(has_numbers("٣"));
    assert!(!has_numbers("abc-<*>"));
    assert!(!has_numbers(""));
}

#[test]
fn both_ways_give_the_same_lines() {
    for input in ["", "a", "a\nb\n", "a\r\n\r\nb", "\n\n", "x\ry\r\nz\n"] {
        let mut batch = Batch::new();
        for piece in input.split_inclusive('\n') {
            batch.offer(piece.as_bytes());
        }
        let lines: Vec<String> = numbered_lines(input).into_iter().map(|l| l.text).collect();
        assert_eq!(batch.lines, lines);
    }
    // Only one carriage return belongs to the end of a line of a text.
    let mut batch = Batch::new();
    batch.offer(b"a\r\r\n");
    assert_eq!(batch.lines, vec!["a".to_string()]);
    assert_eq!(numbered_lines("a\r\r\n")[0].text, "a\r");
}

#[test]
fn joining_loses_nothing() {
    let words = vec!["get".to_string(), "<*>".to_string(), "é".to_string()];
    assert_eq!(split_words(&join(&words)), words);
    assert!(split_words(&join(&Vec::new())).is_empty());
}

#[test]
fn ascii_texts_have_numbers_where_they_have_digits() {
    for c in 0u8..128 {
        let text = format!("v{}", c as char);
        assert_eq!(has_numbers(&text), c.is_ascii_digit());
    }
    assert!(has_numbers("v2"));
    assert!(has_numbers("é2"));
}
