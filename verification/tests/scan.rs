//! End-to-end scans: whole buffers through `count_matches`, under all three
//! representations.

use jsonscan::engine::count_matches;
use jsonscan::engine::record_matches_borrowed;
use jsonscan::engine::record_matches_interned;
use jsonscan::engine::record_matches_owned;
use jsonscan::engine::split_lines;
use jsonscan::engine::Mode;
use jsonscan::value_intern::Interner;

const MATCHING: &str = r#"{"subArts":[{"subSubArts":[{"size":"extra snug fit"}]}]}"#;
const LOOSE: &str = r#"{"subArts":[{"subSubArts":[{"size":"loose"}]}]}"#;

#[test]
fn scenario_matching_line_counts_one() {
    let input = format!("{}\n", MATCHING);
    let bytes = input.as_bytes();
    assert_eq!(count_matches(bytes, Mode::Owned), 1);
    assert_eq!(count_matches(bytes, Mode::Borrowed), 1);
    assert_eq!(count_matches(bytes, Mode::Interned), 1);
}

#[test]
fn scenario_loose_line_counts_zero() {
    let input = format!("{}\n", LOOSE);
    let bytes = input.as_bytes();
    assert_eq!(count_matches(bytes, Mode::Owned), 0);
    assert_eq!(count_matches(bytes, Mode::Borrowed), 0);
    assert_eq!(count_matches(bytes, Mode::Interned), 0);
}

#[test]
fn scenario_mixed_lines_skip_non_matching() {
    // The second line is well-formed JSON but its boolean makes it a parse
    // failure in this grammar; it contributes nothing and does not stop the
    // scan.
    let input = format!("{}\n{}\n", MATCHING, r#"{"subArts": true}"#);
    let bytes = input.as_bytes();
    assert_eq!(count_matches(bytes, Mode::Owned), 1);
    assert_eq!(count_matches(bytes, Mode::Borrowed), 1);
    assert_eq!(count_matches(bytes, Mode::Interned), 1);
}

#[test]
fn boolean_record_is_skipped_not_fatal() {
    // A bare boolean record between two valid records: the valid ones still
    // count, the boolean one contributes nothing.
    let input = format!("{}\ntrue\n{}\n", MATCHING, MATCHING);
    let bytes = input.as_bytes();
    assert_eq!(count_matches(bytes, Mode::Owned), 2);
    assert_eq!(count_matches(bytes, Mode::Borrowed), 2);
    assert_eq!(count_matches(bytes, Mode::Interned), 2);
}

#[test]
fn representations_agree_on_larger_input() {
    let lines = [
        MATCHING,
        LOOSE,
        r#"{"subArts":{"subSubArts":{"size":"very snug"}}}"#,
        r#"{"subArts":[{"subSubArts":[{"size":42}]}]}"#,
        r#"{"other":1}"#,
        "not json at all",
        r#"[{"subArts":[{"subSubArts":[{"size":"snug"}]}]}]"#,
        "",
    ];
    let input = lines.join("\n");
    let bytes = input.as_bytes();
    let owned = count_matches(bytes, Mode::Owned);
    let borrowed = count_matches(bytes, Mode::Borrowed);
    let interned = count_matches(bytes, Mode::Interned);
    assert_eq!(owned, 3);
    assert_eq!(owned, borrowed);
    assert_eq!(owned, interned);
}

#[test]
fn shuffling_records_keeps_the_count() {
    let lines = [MATCHING, LOOSE, r#"{"a":1}"#, MATCHING, "true"];
    let shuffled = [LOOSE, MATCHING, "true", MATCHING, r#"{"a":1}"#];
    let a = lines.join("\n");
    let b = shuffled.join("\n");
    assert_eq!(
        count_matches(a.as_bytes(), Mode::Owned),
        count_matches(b.as_bytes(), Mode::Owned)
    );
    assert_eq!(count_matches(a.as_bytes(), Mode::Owned), 2);
}

#[test]
fn per_record_matchers_agree() {
    let mut cache = Interner::new();
    for line in [MATCHING, LOOSE, "true", "", "[1, 2]"] {
        let b = line.as_bytes();
        let owned = record_matches_owned(b);
        let borrowed = record_matches_borrowed(b);
        let interned = record_matches_interned(b, &mut cache);
        assert_eq!(owned, borrowed);
        assert_eq!(owned, interned);
    }
    assert!(record_matches_owned(MATCHING.as_bytes()));
    assert!(!record_matches_owned(LOOSE.as_bytes()));
}

#[test]
fn split_lines_gives_newline_delimited_ranges() {
    let bytes = b"ab\nc\n\nd";
    let ranges = split_lines(bytes);
    let chunks: Vec<&[u8]> = ranges.iter().map(|&(a, b2)| &bytes[a..b2]).collect();
    assert_eq!(chunks, vec![&b"ab"[..], &b"c"[..], &b""[..], &b"d"[..]]);
}

#[test]
fn carriage_return_line_endings_still_parse() {
    // Splitting is on line feed alone; the carriage return left at the end
    // of each record is ordinary whitespace to the grammar.
    let input = format!("{}\r\n{}\r\n", MATCHING, LOOSE);
    let bytes = input.as_bytes();
    assert_eq!(count_matches(bytes, Mode::Owned), 1);
    assert_eq!(count_matches(bytes, Mode::Borrowed), 1);
    assert_eq!(count_matches(bytes, Mode::Interned), 1);
}

#[test]
fn duplicate_keys_on_the_path_all_contribute() {
    // The second "subArts" pair is not shadowed by the first: maps keep
    // duplicates, and the lookup follows every pair with a matching key.
    let first = r#"{"subArts":[{"subSubArts":[{"size":"loose"}]}],"#;
    let second = r#""subArts":[{"subSubArts":[{"size":"snug"}]}]}"#;
    let input = format!("{}{}\n", first, second);
    assert_eq!(count_matches(input.as_bytes(), Mode::Owned), 1);
    assert_eq!(count_matches(input.as_bytes(), Mode::Borrowed), 1);
    assert_eq!(count_matches(input.as_bytes(), Mode::Interned), 1);
}

#[test]
fn whitespace_heavy_record_matches() {
    let line = "  { \"subArts\" : [ { \"subSubArts\" : [ { \"size\" : \"snug\" } ] } ] }  ";
    assert_eq!(count_matches(line.as_bytes(), Mode::Owned), 1);
}

#[test]
fn empty_input_counts_zero() {
    assert_eq!(count_matches(b"", Mode::Owned), 0);
    assert_eq!(count_matches(b"", Mode::Borrowed), 0);
    assert_eq!(count_matches(b"", Mode::Interned), 0);
}
