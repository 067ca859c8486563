use flate2::write::GzEncoder;
use std::io::Write;
use std::path::Path;
use trace::json::{Json, JsonFloat, JsonNumber};
use trace::order::{is_text_less, sort_positions, Descending};
use trace::outputs::{analyze_output, convert_output, merge_output, trace_name};
use trace::path::{
    extension_of, join_paths, name_of, parent_of, replace_extension, stem_of_path,
};
use trace::text::{
    is_white_space, join_texts, parse_unsigned, push_padded, signed_text, split_lines, split_text,
    strip_prefix, trimmed, unsigned_text, without_leading,
};
use trace::util::{
    is_gzip, open_reader, read_maybe_gzipped, validate_trace_files, PathError, PathStatus, ReadError,
};

// Files

fn gzipped(data: &[u8]) -> Vec<u8> {
    let mut encoder = GzEncoder::new(Vec::new(), flate2::Compression::default());
    encoder.write_all(data).unwrap();
    encoder.finish().unwrap()
}

#[test]
fn test_read_plain_file() {
    let content = read_maybe_gzipped(br#"{"traceEvents":[]}"#.to_vec()).unwrap();
    assert_eq!(content, r#"{"traceEvents":[]}"#);
}

#[test]
fn test_read_gzipped_file() {
    let content = read_maybe_gzipped(gzipped(b"hello gzip")).unwrap();
    assert_eq!(content, "hello gzip");
}

#[test]
fn files_that_cannot_be_read() {
    assert!(matches!(read_maybe_gzipped(vec![0x1f, 0x8b]), Err(ReadError::Decompress(_))));
    let whole = gzipped(b"some content to cut");
    assert!(matches!(
        read_maybe_gzipped(whole[..whole.len() - 1].to_vec()),
        Err(ReadError::Decompress(_))
    ));
    assert!(matches!(read_maybe_gzipped(gzipped(&[0xff])), Err(ReadError::DecompressedText(_))));
    assert!(matches!(read_maybe_gzipped(vec![0x1f, 0x8b + 1]), Err(ReadError::Text(_))));
    assert!(matches!(read_maybe_gzipped(vec![0xff]), Err(ReadError::Text(_))));
    // One byte of the magic is text.
    assert_eq!(read_maybe_gzipped(vec![0x1f]).unwrap(), "\u{1f}");
    assert_eq!(read_maybe_gzipped(vec![]).unwrap(), "");
    assert_eq!(read_maybe_gzipped("é\u{10FFFF}".as_bytes().to_vec()).unwrap(), "é\u{10FFFF}");
}

#[test]
fn only_the_first_member_is_read() {
    let mut two = gzipped(b"first");
    two.extend(gzipped(b"second"));
    assert!(is_gzip(&two));
    assert_eq!(open_reader(two).unwrap(), b"first");
    assert!(!is_gzip(b"first"));
    assert_eq!(open_reader(vec![0xff, 0x00]).unwrap(), [0xff, 0x00]);
}

fn status(path: &str, exists: bool, is_file: bool) -> PathStatus {
    PathStatus { path: path.to_string(), exists, is_file }
}

#[test]
fn test_validate_missing_file() {
    let result = validate_trace_files(&[status("/nonexistent/file.json", false, false)]);
    assert!(result.is_err());
}

#[test]
fn first_unusable_file_decides() {
    assert!(validate_trace_files(&[]).is_ok());
    assert!(validate_trace_files(&[status("a", true, true), status("b", true, true)]).is_ok());
    match validate_trace_files(&[
        status("a", true, true),
        status("b", true, false),
        status("c", false, false),
    ]) {
        Err(PathError::NotAFile(path)) => assert_eq!(path, "b"),
        other => panic!("{:?}", other),
    }
    match validate_trace_files(&[status("c", false, false), status("b", true, false)]) {
        Err(PathError::NotFound(path)) => assert_eq!(path, "c"),
        other => panic!("{:?}", other),
    }
}

// Paths

const PATHS: [&str; 42] = [
    "", "/", "//", ".", "..", "./", "../", "/.", "/..", "a", "a/", "a//", "a/.", "a/./", "a/..",
    "./a", "./a/.", "/a", "//a", "/a/b", "a/b", "a//b", "a/b/", "a/b//.", "a/./b", "a.md", ".md",
    "..md", "a.", "a.b.c", "x/a.b.c", "x/.a.b", "x/..", "x/...", "...", "./.x", "/x/./", "a.md/",
    "a.b/c", "é/ü.ö", "./.", "././/",
];

fn text_of(p: Option<&Path>) -> Option<String> {
    p.map(|p| p.to_str().unwrap().to_string())
}

#[test]
fn paths_are_taken_apart_as_the_standard_library_does() {
    for p in PATHS {
        let path = Path::new(p);
        let own = |s: Option<&str>| s.map(|s| s.to_string());
        assert_eq!(name_of(p), own(path.file_name().map(|s| s.to_str().unwrap())), "{:?}", p);
        assert_eq!(extension_of(p), own(path.extension().map(|s| s.to_str().unwrap())), "{:?}", p);
        assert_eq!(stem_of_path(p), own(path.file_stem().map(|s| s.to_str().unwrap())), "{:?}", p);
        assert_eq!(parent_of(p), text_of(path.parent()), "{:?}", p);
        let mut replaced = path.to_path_buf();
        replaced.set_extension("json");
        assert_eq!(replace_extension(p, "json"), replaced.to_str().unwrap(), "{:?}", p);
    }
}

#[test]
fn paths_are_joined_as_the_standard_library_does() {
    for p in PATHS {
        for q in PATHS {
            assert_eq!(join_paths(p, q), Path::new(p).join(q).to_str().unwrap(), "{:?} {:?}", p, q);
        }
    }
}

#[test]
fn outputs_of_the_commands() {
    let target = analyze_output("out/report.md".to_string());
    assert_eq!(target.dir.as_deref(), Some("out"));
    assert_eq!(target.file, "out/report.md");
    let target = analyze_output("report.md".to_string());
    assert_eq!(target.dir.as_deref(), Some(""));
    let target = analyze_output(".".to_string());
    assert_eq!(target.dir.as_deref(), Some("."));
    assert_eq!(target.file, "./comparison.md");
    let target = analyze_output("out.markdown".to_string());
    assert_eq!(target.dir.as_deref(), Some("out.markdown"));
    assert_eq!(target.file, "out.markdown/comparison.md");
    let target = merge_output("/".to_string());
    assert!(target.dir.is_none());
    assert_eq!(target.file, "/");
    let target = convert_output("a/report.nsys-rep", None);
    assert_eq!(target.dir.as_deref(), Some("a"));
    assert_eq!(target.file, "a/report.json");
    let target = convert_output("a/report.nsys-rep", Some("b/x".to_string()));
    assert_eq!(target.dir.as_deref(), Some("b"));
    assert_eq!(target.file, "b/x");
}

#[test]
fn traces_are_named_by_their_files() {
    assert_eq!(trace_name("/data/run1.json"), "run1");
    assert_eq!(trace_name("run2.json.gz"), "run2.json");
    assert_eq!(trace_name(".."), "..");
}

// Texts

#[test]
fn numbers_are_written_and_read() {
    for n in [0, 9, 10, 1_000_000, u64::MAX - 1, u64::MAX] {
        assert_eq!(unsigned_text(n), n.to_string());
        assert_eq!(parse_unsigned(&n.to_string()), Some(n));
    }
    for i in [0, -1, 1, i64::MIN, i64::MAX, -10] {
        assert_eq!(signed_text(i), i.to_string());
    }
    for s in ["", "+", "-", "-1", "-0", "+1", "++1", "007", " 1", "1 ", "1_0", "18446744073709551615",
        "18446744073709551616", "99999999999999999999", "00018446744073709551615", "٣", "a"]
    {
        assert_eq!(parse_unsigned(s), s.parse::<u64>().ok(), "{:?}", s);
    }
}

#[test]
fn white_space_is_that_of_the_standard_library() {
    for code in 0..0x11_0000u32 {
        if let Some(c) = char::from_u32(code) {
            assert_eq!(is_white_space(c), c.is_whitespace(), "{:x}", code);
        }
    }
}

const TEXTS: [&str; 14] = [
    "", "a", "a\nb", "a\n", "\n", "\r\n", "a\r\nb\rc\r", "\n\n", " x ", "\u{3000}y\u{85}", "a:b:c", ":",
    "//a/", "a\r\r\n",
];

#[test]
fn texts_are_taken_apart_as_the_standard_library_does() {
    for s in TEXTS {
        let lines: Vec<String> = s.lines().map(|l| l.to_string()).collect();
        assert_eq!(split_lines(s), lines, "{:?}", s);
        assert_eq!(trimmed(s), s.trim(), "{:?}", s);
        let parts = s.split_once(':').map(|(a, b)| (a.to_string(), b.to_string()));
        assert_eq!(split_text(s, ':'), parts, "{:?}", s);
        assert_eq!(without_leading(s, '/'), s.trim_start_matches('/'), "{:?}", s);
        for p in TEXTS {
            assert_eq!(strip_prefix(s, p), s.strip_prefix(p).map(|r| r.to_string()), "{:?} {:?}", s, p);
            assert_eq!(is_text_less(s, p), s < p, "{:?} {:?}", s, p);
        }
    }
}

#[test]
fn texts_are_joined_and_padded() {
    let parts = ["a".to_string(), String::new(), "c".to_string()];
    assert_eq!(join_texts(&parts, ", "), "a, , c");
    assert_eq!(join_texts(&[], ", "), "");
    let mut line = String::from("|");
    push_padded(&mut line, "né", 4);
    push_padded(&mut line, "long", 2);
    assert_eq!(line, format!("|{:<4}{:<2}", "né", "long"));
}

#[test]
fn sorting_is_stable() {
    assert_eq!(sort_positions(&[3i64, 1, 2, 1]), [1, 3, 2, 0]);
    assert_eq!(sort_positions(&[Descending(3i64), Descending(1), Descending(3)]), [0, 2, 1]);
    let names = ["b".to_string(), "a".to_string(), "b".to_string(), "é".to_string()];
    assert_eq!(sort_positions(&names), [1, 0, 2, 3]);
}

// Documents

const DOCUMENTS: [&str; 20] = [
    "null", "true", "false", "0", "-1", "9223372036854775808", "-9223372036854775808", "1.25", "-0",
    "-0.0", "1e300", "123456789012345678901234567890", "\"\"", "\"a\\u0001\\\"\\\\/\\n\\u00e9\\ud83d\\ude00\"", "[]",
    "[1, [2, []], {}]", "{}", "{\"b\": 1, \"a\": {\"d\": null, \"c\": [true]}}",
    "{\"x\": 1, \"x\": 2}", "0.1e-7",
];

#[test]
fn documents_are_written_as_serde_json_writes_them() {
    for text in DOCUMENTS {
        let value: serde_json::Value = serde_json::from_str(text).unwrap();
        let document = Json::parse(text.as_bytes()).unwrap();
        assert_eq!(document.to_text(), serde_json::to_string(&value).unwrap(), "{}", text);
        assert_eq!(Json::from_value(value.clone()).to_text(), value.to_string(), "{}", text);
        assert_eq!(document.as_u64(), value.as_u64(), "{}", text);
        assert_eq!(document.as_i64(), value.as_i64(), "{}", text);
        assert_eq!(document.as_str(), value.as_str(), "{}", text);
        for key in ["a", "b", "x", ""] {
            let found = document.get(key).map(|j| j.to_text());
            assert_eq!(found, value.get(key).map(|v| v.to_string()), "{} {}", text, key);
        }
    }
}

#[test]
fn what_is_no_document() {
    for text in ["", "nul", "[1,]", "{\"a\":}", "1 2", "\"\\x\"", "01", "[1"] {
        assert!(Json::parse(text.as_bytes()).is_err(), "{}", text);
        assert!(serde_json::from_slice::<serde_json::Value>(text.as_bytes()).is_err(), "{}", text);
    }
    assert!(Json::parse(&[b'"', 0xff, b'"']).is_err());
}

#[test]
fn documents_are_made_of_plain_values() {
    assert_eq!(Json::from_i64(-3).to_text(), "-3");
    assert_eq!(Json::from_i64(i64::MIN).to_text(), i64::MIN.to_string());
    assert_eq!(Json::from_i64(7).as_u64(), Some(7));
    assert_eq!(Json::from_text("a\"b").to_text(), "\"a\\\"b\"");
    assert_eq!(Json::from_text("tab\t").to_text(), "\"tab\\t\"");
    assert_eq!(Json::Bool(true).to_value(), serde_json::Value::from(true));
    assert_eq!(Json::Null.to_value(), serde_json::Value::Null);
    assert_eq!(JsonNumber::PosInt(u64::MAX).to_text(), "18446744073709551615");
    // A number from zero on is held as such.
    assert_eq!(JsonNumber::NegInt(4).to_value(), serde_json::Value::from(4u64));
}

#[test]
fn fields_are_stored_by_name() {
    let field = |name: &str, i: i64| (name.to_string(), Json::from_i64(i));
    let document = Json::Object(vec![field("b", 1), field("é", 2), field("a", 3), field("b", 4), field("Z", 5)]);
    assert_eq!(document.to_text(), r#"{"Z":5,"a":3,"b":4,"é":2}"#);
    // What is read comes in that order, and is stored as it is.
    for text in DOCUMENTS {
        let value: serde_json::Value = serde_json::from_str(text).unwrap();
        assert_eq!(Json::from_value(value.clone()).to_value(), value, "{}", text);
    }
}

#[test]
fn floats_are_what_is_no_whole_number() {
    let number = |text: &str| JsonFloat::from_value(serde_json::from_str(text).unwrap());
    for text in ["1.25", "-0.0", "1e300"] {
        let float = number(text).unwrap();
        let value: serde_json::Value = serde_json::from_str(text).unwrap();
        assert_eq!(JsonNumber::Float(float).to_text(), value.to_string());
    }
    for text in ["1", "-1", "null", "\"1.5\"", "[1.5]"] {
        assert!(number(text).is_none(), "{}", text);
    }
    assert!(JsonFloat::from_value(serde_json::Value::from(f64::NAN)).is_none());
}
