//! Parsing details, the query capability on concrete values, and the
//! string-interning cache.

use jsonscan::parse::parse_record;
use jsonscan::queryable::pred;
use jsonscan::queryable::Queryable;
use jsonscan::value_borrow::ValueBorrow;
use jsonscan::value_intern::Interner;
use jsonscan::value_intern::InternedString;
use jsonscan::value_intern::ValueIntern;
use jsonscan::value_owned::ValueOwned;
use std::rc::Rc;

fn parsed_number(line: &str) -> Option<i64> {
    match parse_record(line.as_bytes()) {
        Some(ValueBorrow::Number(n)) => Some(n),
        _ => None,
    }
}

#[test]
fn numbers_parse_with_the_documented_policies() {
    assert_eq!(parsed_number("0"), Some(0));
    assert_eq!(parsed_number(" 42 "), Some(42));
    assert_eq!(parsed_number("-7"), Some(-7));
    assert_eq!(parsed_number("-0"), Some(0));
    assert_eq!(parsed_number("9223372036854775807"), Some(i64::MAX));
    assert_eq!(parsed_number("-9223372036854775808"), Some(i64::MIN));
    // Above the signed maximum but within unsigned range: wraps to negative.
    assert_eq!(parsed_number("9223372036854775808"), Some(i64::MIN));
    assert_eq!(parsed_number("18446744073709551615"), Some(-1));
    // Outside unsigned range, or below the signed minimum: a parse failure.
    assert!(parse_record(b"18446744073709551616").is_none());
    assert!(parse_record(b"-9223372036854775809").is_none());
}

#[test]
fn disallowed_tokens_fail_the_record() {
    assert!(parse_record(b"null").is_none());
    assert!(parse_record(b"true").is_none());
    assert!(parse_record(b"false").is_none());
    assert!(parse_record(b"3.14").is_none());
    assert!(parse_record(b"1e5").is_none());
    assert!(parse_record(br#"{"a": null}"#).is_none());
}

#[test]
fn syntax_errors_fail_the_record() {
    assert!(parse_record(b"").is_none());
    assert!(parse_record(b"   ").is_none());
    assert!(parse_record(br#"{"a":1"#).is_none());
    assert!(parse_record(b"[1, 2").is_none());
    assert!(parse_record(b"[1,]").is_none());
    assert!(parse_record(b"1 2").is_none());
    assert!(parse_record(b"01").is_none());
    assert!(parse_record(br#""unterminated"#).is_none());
    // A string with an escape sequence is rejected, not unescaped.
    assert!(parse_record(br#""ab\ncd""#).is_none());
}

#[test]
fn strings_and_structures_parse() {
    assert!(matches!(
        parse_record(br#""plain""#),
        Some(ValueBorrow::Text { .. })
    ));
    assert!(parse_record(" { } ".as_bytes()).is_some());
    assert!(parse_record("[ ]".as_bytes()).is_some());
    assert!(parse_record(r#"{"a": [1, "x"], "b": {"c": 2}}"#.as_bytes()).is_some());
    // Non-ASCII content passes through as raw bytes.
    assert!(parse_record(r#""héllo""#.as_bytes()).is_some());
}

fn owned_nums(vs: Vec<&ValueOwned>) -> Vec<i64> {
    vs.iter()
        .map(|v| match v {
            ValueOwned::Number(n) => *n,
            _ => panic!("expected a number"),
        })
        .collect()
}

fn obj(key: &str, n: i64) -> ValueOwned {
    ValueOwned::Object(vec![(
        ValueOwned::Text(key.as_bytes().to_vec()),
        ValueOwned::Number(n),
    )])
}

#[test]
fn get_all_on_leaves_is_empty() {
    let num = ValueOwned::Number(7);
    let txt = ValueOwned::Text(b"subArts".to_vec());
    assert!(num.get_all(b"", b"subArts").is_empty());
    assert!(txt.get_all(b"", b"subArts").is_empty());
}

#[test]
fn get_all_on_maps_keeps_duplicates_in_order() {
    let m = ValueOwned::Object(vec![
        (ValueOwned::Text(b"k".to_vec()), ValueOwned::Number(1)),
        (ValueOwned::Text(b"other".to_vec()), ValueOwned::Number(9)),
        (ValueOwned::Text(b"k".to_vec()), ValueOwned::Number(2)),
        (ValueOwned::Number(5), ValueOwned::Number(3)),
    ]);
    assert_eq!(owned_nums(m.get_all(b"", b"k")), vec![1, 2]);
    // A non-string key is legal and never matches a string-keyed query.
    assert_eq!(owned_nums(m.get_all(b"", b"missing")), vec![]);
}

#[test]
fn get_all_distributes_over_array_elements() {
    let a = obj("k", 1);
    let b = ValueOwned::Object(vec![
        (ValueOwned::Text(b"k".to_vec()), ValueOwned::Number(2)),
        (ValueOwned::Text(b"k".to_vec()), ValueOwned::Number(3)),
    ]);
    let av = obj("k", 1);
    let bv = ValueOwned::Object(vec![
        (ValueOwned::Text(b"k".to_vec()), ValueOwned::Number(2)),
        (ValueOwned::Text(b"k".to_vec()), ValueOwned::Number(3)),
    ]);
    let arr = ValueOwned::Array(vec![av, bv]);
    let mut expected = owned_nums(a.get_all(b"", b"k"));
    expected.extend(owned_nums(b.get_all(b"", b"k")));
    assert_eq!(owned_nums(arr.get_all(b"", b"k")), expected);
    assert_eq!(owned_nums(arr.get_all(b"", b"k")), vec![1, 2, 3]);
}

#[test]
fn contains_is_a_string_substring_test() {
    let txt = ValueOwned::Text(b"extra snug fit".to_vec());
    assert!(txt.contains(b"", b"snug"));
    assert!(txt.contains(b"", b""));
    assert!(!txt.contains(b"", b"loose"));
    let num = ValueOwned::Number(7);
    assert!(!num.contains(b"", b"7"));
    let arr = ValueOwned::Array(vec![ValueOwned::Text(b"snug".to_vec())]);
    assert!(!arr.contains(b"", b"snug"));
}

#[test]
fn pred_follows_the_fixed_path_only() {
    let line = br#"{"subArts":[{"subSubArts":[{"size":"snug"}]}]}"#;
    let v = parse_record(line).expect("parses");
    assert!(pred(&v, line));
    // The same text under a different path does not match.
    let line2 = br#"{"subArts":[{"elsewhere":[{"size":"snug"}]}]}"#;
    let v2 = parse_record(line2).expect("parses");
    assert!(!pred(&v2, line2));
}

#[test]
fn interning_same_content_reuses_the_allocation() {
    let mut cache = Interner::new();
    let a = InternedString::new(&mut cache, b"size");
    let b = InternedString::new(&mut cache, b"other");
    let c = InternedString::new(&mut cache, b"size");
    assert_eq!(a.id, c.id);
    assert_ne!(a.id, b.id);
    // Identity of the backing storage, not merely equal content.
    assert!(Rc::ptr_eq(&a.text, &c.text));
    assert!(!Rc::ptr_eq(&a.text, &b.text));
    assert_eq!(cache.entries.len(), 2);
    assert_eq!(&*a.text, b"size");
}

#[test]
fn interning_deduplicates_across_records() {
    let mut cache = Interner::new();
    let line1 = br#"{"size":"snug"}"#;
    let line2 = br#"{"size":"loose"}"#;
    let b1 = parse_record(line1).expect("parses");
    let b2 = parse_record(line2).expect("parses");
    let _v1 = ValueIntern::from_borrow(&b1, line1, &mut cache);
    let n_after_first = cache.entries.len();
    let _v2 = ValueIntern::from_borrow(&b2, line2, &mut cache);
    // "size" is shared; only "loose" is new in the second record.
    assert_eq!(n_after_first, 2);
    assert_eq!(cache.entries.len(), 3);
}

#[test]
fn interned_values_answer_queries_from_the_cache_storage() {
    let mut cache = Interner::new();
    let line = br#"{"subArts":[{"subSubArts":[{"size":"extra snug fit"}]}]}"#;
    let b = parse_record(line).expect("parses");
    let v = ValueIntern::from_borrow(&b, line, &mut cache);
    assert!(pred(&v, b""));
    let loose = br#"{"subArts":[{"subSubArts":[{"size":"loose"}]}]}"#;
    let b2 = parse_record(loose).expect("parses");
    let v2 = ValueIntern::from_borrow(&b2, loose, &mut cache);
    assert!(!pred(&v2, b""));
}
