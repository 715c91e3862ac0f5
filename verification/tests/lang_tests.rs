use langfile::aggregate::aggregate_contents;
use langfile::cache::ResidentCache;
use langfile::decoder::{decode, DecodedValue};
use langfile::errors::{validate_directory, validate_file, LangError};
use langfile::generate::generate_defs;
use langfile::parser::parse;

fn pair(a: &str, b: &str) -> (String, String) {
    (a.to_string(), b.to_string())
}

#[test]
fn single_line_quoted_entry() {
    // concrete scenario: greeting = "Hello"
    let t = parse("greeting = \"Hello\"");
    assert_eq!(t.len(), 1);
    assert_eq!(t.get("greeting").unwrap().as_str(), "Hello");
    let d = decode(t.get("greeting").unwrap());
    assert_eq!(d, DecodedValue::Scalar("Hello".to_string()));
}

#[test]
fn bare_scalar_stored_verbatim() {
    let t = parse("answer = 42");
    assert_eq!(t.get("answer").unwrap().as_str(), "42");
    assert_eq!(decode("42"), DecodedValue::Scalar("42".to_string()));
}

#[test]
fn comments_blanks_and_malformed_lines_are_skipped() {
    let text = "# a comment\n\n   # indented comment\nno equals here\n = missing key\nk = v\n";
    let t = parse(text);
    assert_eq!(t.len(), 1);
    assert_eq!(t.get("k").unwrap().as_str(), "v");
    assert!(t.get("no equals here").is_none());
}

#[test]
fn multi_line_array_scenario() {
    // concrete scenario: a two-element array spanning four lines
    let text = "items = [\n  \"a\",\n  \"b\",\n]";
    let t = parse(text);
    let raw = t.get("items").unwrap();
    assert_eq!(raw.as_str(), "[\n  \"a\",\n  \"b\",\n]");
    let d = decode(raw);
    assert_eq!(
        d,
        DecodedValue::StringArray(vec!["a".to_string(), "b".to_string()])
    );
}

#[test]
fn array_length_matches_quoted_line_count() {
    // lines that are not quoted strings are dropped silently
    let text = "xs = [\n  \"one\",\n  oops,\n  \"two\"\n  , \n]";
    let t = parse(text);
    let d = decode(t.get("xs").unwrap());
    match d {
        DecodedValue::StringArray(v) => {
            assert_eq!(v, vec!["one".to_string(), "two".to_string()]);
        },
        DecodedValue::Scalar(_) => panic!("expected an array"),
    }
}

#[test]
fn single_line_array_stored_without_decoding() {
    let t = parse("xs = [\"a\", \"b\"]");
    assert_eq!(t.get("xs").unwrap().as_str(), "[\"a\", \"b\"]");
}

#[test]
fn unterminated_string_committed_at_end_of_input() {
    // the closing quote never comes; the buffer is committed, trimmed
    let t = parse("msg = \"abc\ndef");
    assert_eq!(t.get("msg").unwrap().as_str(), "\"abc\ndef");
}

#[test]
fn unterminated_string_trailing_whitespace_trimmed() {
    let t = parse("msg = \"abc\ndef   \n");
    assert_eq!(t.get("msg").unwrap().as_str(), "\"abc\ndef");
}

#[test]
fn escaped_quote_does_not_terminate_string() {
    let text = "msg = \"first\nsecond\\\"\nthird\"";
    let t = parse(text);
    assert_eq!(t.get("msg").unwrap().as_str(), "\"first\nsecond\\\"\nthird\"");
    let d = decode(t.get("msg").unwrap());
    assert_eq!(
        d,
        DecodedValue::Scalar("first\nsecond\"\nthird".to_string())
    );
}

#[test]
fn comment_lines_are_data_inside_a_continuation() {
    // comments are only recognised outside continuations
    let text = "msg = \"a\n# still part of the string\nb\"";
    let t = parse(text);
    assert_eq!(
        t.get("msg").unwrap().as_str(),
        "\"a\n# still part of the string\nb\""
    );
}

#[test]
fn trailing_whitespace_is_stripped_per_line() {
    let t = parse("k = v   \t\n");
    assert_eq!(t.get("k").unwrap().as_str(), "v");
}

#[test]
fn empty_value_opens_continuation_on_next_line() {
    // value-on-next-line form: `key =` then the content, ended by a quote
    let text = "msg =\n\"hello\"";
    let t = parse(text);
    assert_eq!(t.get("msg").unwrap().as_str(), "\"hello\"");
}

#[test]
fn lone_quote_opens_continuation() {
    let text = "msg = \"\nworld\"";
    let t = parse(text);
    assert_eq!(t.get("msg").unwrap().as_str(), "\"\nworld\"");
    assert_eq!(
        decode(t.get("msg").unwrap()),
        DecodedValue::Scalar("\nworld".to_string())
    );
}

#[test]
fn scalar_escapes_are_decoded() {
    assert_eq!(
        decode("\"a\\nb\\\"c\""),
        DecodedValue::Scalar("a\nb\"c".to_string())
    );
}

#[test]
fn decode_is_pure() {
    // decoding the same raw value twice yields equal results
    let raws = ["\"x\\ny\"", "[\n\"a\",\n]", "plain", "  spaced  ", "\""];
    for raw in raws.iter() {
        assert_eq!(decode(raw), decode(raw));
    }
}

#[test]
fn later_entry_wins_for_duplicate_key() {
    let t = parse("k = one\nk = two\n");
    assert_eq!(t.get("k").unwrap().as_str(), "two");
    assert_eq!(t.len(), 1);
}

#[test]
fn aggregation_builds_two_level_mapping() {
    let files = vec![
        pair("en", "hi = \"Hi {name}\""),
        pair("fr", "hi = \"Bonjour {name}\""),
    ];
    let agg = aggregate_contents(&files);
    assert_eq!(agg.len(), 2);
    let en = agg.get("en").unwrap();
    assert_eq!(en.get("hi").unwrap().as_str(), "Hi {name}");
    let fr = agg.get("fr").unwrap();
    assert_eq!(fr.get("hi").unwrap().as_str(), "Bonjour {name}");
    assert!(agg.get("de").is_none());
}

#[test]
fn aggregation_key_set_ignores_order() {
    let a = vec![pair("en", "k = a"), pair("fr", "k = b"), pair("de", "k = c")];
    let b = vec![pair("de", "k = c"), pair("en", "k = a"), pair("fr", "k = b")];
    let ta = aggregate_contents(&a);
    let tb = aggregate_contents(&b);
    for id in ["en", "fr", "de"].iter() {
        assert!(ta.get(id).is_some());
        assert!(tb.get(id).is_some());
    }
    assert_eq!(ta.len(), tb.len());
}

#[test]
fn cache_starts_empty_and_serves_stored_copy() {
    let mut cache = ResidentCache::new();
    assert!(cache.lookup().is_none());
    let agg = aggregate_contents(&vec![pair("en", "k = v")]);
    cache.store(&agg);
    let served = cache.lookup().expect("cache should hit after store");
    assert_eq!(served.get("en").unwrap().get("k").unwrap().as_str(), "v");
}

#[test]
fn invalidate_forces_rebuild() {
    // after invalidation a lookup misses, so the caller re-reads from disk;
    // the rebuilt (changed) content is then served
    let mut cache = ResidentCache::new();
    let before = aggregate_contents(&vec![pair("en", "k = old")]);
    cache.store(&before);
    assert!(cache.lookup().is_some());
    cache.invalidate();
    assert!(cache.lookup().is_none());
    let after = aggregate_contents(&vec![pair("en", "k = new")]);
    cache.store(&after);
    let served = cache.lookup().unwrap();
    assert_eq!(served.get("en").unwrap().get("k").unwrap().as_str(), "new");
}

#[test]
fn not_a_directory_error() {
    // concrete scenario: aggregating over a path that is a regular file
    let r = validate_directory("some/file.txt", false);
    let e = r.unwrap_err();
    assert_eq!(e, LangError::NotADirectory("some/file.txt".to_string()));
    assert_eq!(e.message(), "Path 'some/file.txt' is not a directory");
    assert!(validate_directory("some/dir", true).is_ok());
}

#[test]
fn not_a_file_error() {
    let r = validate_file("missing.lang", false);
    let e = r.unwrap_err();
    assert_eq!(e, LangError::NotAFile("missing.lang".to_string()));
    assert_eq!(e.message(), "Path 'missing.lang' is not a file");
    assert!(validate_file("present.lang", true).is_ok());
}

#[test]
fn io_error_message_carries_cause() {
    let e = LangError::IoError("disk on fire".to_string());
    assert_eq!(e.message(), "disk on fire");
}

#[test]
fn generated_defs_with_placeholder_callable() {
    // concrete scenario: two resources, placeholder generation enabled
    let files = vec![
        pair("en", "hi = \"Hi {name}\""),
        pair("fr", "hi = \"Bonjour {name}\""),
    ];
    let agg = aggregate_contents(&files);
    let defs = generate_defs(&agg, true);
    let expected = "/* eslint-disable */\n\
                    export interface Lang {\n\
                    \x20   /** Hi {name} */\n\
                    \x20   'hi': (args: { name: string }) => string;\n\
                    }\n\n\
                    export interface Langs {\n\
                    \x20   'en': Lang;\n\
                    \x20   'fr': Lang;\n\
                    }\n\n\
                    export const langs: Langs;\n";
    assert_eq!(defs, expected);
}

#[test]
fn generated_defs_without_placeholder_option() {
    let agg = aggregate_contents(&vec![pair("en", "hi = \"Hi {name}\"")]);
    let defs = generate_defs(&agg, false);
    assert!(defs.contains("    'hi': string;\n"));
    assert!(!defs.contains("=> string"));
}

#[test]
fn generated_defs_array_field_and_doc_block() {
    let agg = aggregate_contents(&vec![pair("en", "xs = [\n\"a\",\n\"b\",\n]")]);
    let defs = generate_defs(&agg, true);
    assert!(defs.contains("    'xs': string[];\n"));
    // the multi-line raw value becomes a block comment
    assert!(defs.contains("    /**\n"));
    assert!(defs.contains("     * [\n"));
    assert!(defs.contains("     */\n"));
}

#[test]
fn generated_defs_distinct_placeholders_in_first_occurrence_order() {
    let agg = aggregate_contents(&vec![pair(
        "en",
        "msg = \"{b} and {a} and {b}\"",
    )]);
    let defs = generate_defs(&agg, true);
    assert!(defs.contains("    'msg': (args: { b: string, a: string }) => string;\n"));
}

#[test]
fn generated_defs_empty_table() {
    let agg = aggregate_contents(&Vec::new());
    let defs = generate_defs(&agg, true);
    let expected = "/* eslint-disable */\n\
                    export interface Lang {\n\
                    }\n\n\
                    export interface Langs {\n\
                    }\n\n\
                    export const langs: Langs;\n";
    assert_eq!(defs, expected);
}
