use teamy_bend::lexer::ParseError;
use teamy_bend::loader::{is_import_line, parent, simple_alias};
use teamy_bend::machine::RuntimeError;
use teamy_bend::numeric_text::eq_ignore_ascii_case;
use teamy_bend::paths::{extension, join, lexical_path, normalize_namespace, split_segments};
use teamy_bend::term::{nat_term, nat_value};
use teamy_bend::text::{lines, split_whitespace, trim};

fn chars(s: &str) -> Vec<char> {
    s.chars().collect()
}

#[test]
fn a_written_natural_reads_back_as_itself() {
    for count in [0, 1, 2, 17, 4096] {
        assert_eq!(nat_value(&nat_term(count)), Some(count));
    }
}

#[test]
fn paths_split_join_and_cancel_lexically() {
    assert_eq!(split_segments("/a//./b/"), vec!["a", "b"]);
    assert_eq!(lexical_path("/a/./b/../c"), "/a/c");
    assert_eq!(lexical_path("../x/../../y"), "../../y");
    assert_eq!(lexical_path("a/b/.."), "a");
    assert_eq!(normalize_namespace("/lib/../std/List"), "std/List");
    assert_eq!(join("dir", "file.bend"), "dir/file.bend");
    assert_eq!(join("dir/", "file.bend"), "dir/file.bend");
    assert_eq!(join("dir", "/abs.bend"), "/abs.bend");
    assert_eq!(join("", "rel.bend"), "rel.bend");
    assert_eq!(extension("a/b.c/file.bend"), Some("bend".to_owned()));
    assert_eq!(extension("a/.hidden"), None);
    assert_eq!(extension("a/.."), None);
    assert_eq!(extension("noext"), None);
    assert_eq!(parent("/a/b/c"), "/a/b");
    assert_eq!(parent("/a/b/"), "/a");
    assert_eq!(parent("/a"), "/");
    assert_eq!(parent("file"), "");
    assert_eq!(parent("/"), ".");
    assert_eq!(parent(""), ".");
}

#[test]
fn words_names_and_keywords() {
    assert_eq!(split_whitespace(&chars("  import  A\tB \n")), vec!["import", "A", "B"]);
    assert!(split_whitespace(&chars(" \t ")).is_empty());
    assert!(is_import_line(&chars("import")));
    assert!(is_import_line(&chars("import Base")));
    assert!(!is_import_line(&chars("imports")));
    assert!(simple_alias("_List2"));
    assert!(!simple_alias("2List"));
    assert!(!simple_alias(""));
    assert!(!simple_alias("a-b"));
    assert!(eq_ignore_ascii_case(&chars("InFiNiTy"), "infinity"));
    assert!(!eq_ignore_ascii_case(&chars("nan"), "inf"));
}

#[test]
fn failures_describe_their_location_and_cause() {
    let error = ParseError { source: "main.bend".to_owned(), line: 3, column: 14, message: "expected `)`".to_owned() };
    assert_eq!(error.describe(), "main.bend:3:14: expected `)`");
    assert_eq!(RuntimeError::UndefinedReference("f".to_owned()).message(), "undefined runtime reference f");
    assert_eq!(RuntimeError::NatBound.message(), "native Nat exceeds the 48-bit bound");
}

#[test]
fn lines_match_str_lines_and_trim_matches_str_trim() {
    for text in ["", "a", "a\n", "a\r\nb", "a\n\nb\n", "x\r", "\r\n\r\n", "one\ntwo\r\nthree\r"] {
        let ours: Vec<String> = lines(text).into_iter().map(|l| l.into_iter().collect()).collect();
        let expected: Vec<String> = text.lines().map(str::to_owned).collect();
        assert_eq!(ours, expected, "lines of {text:?}");
    }
    for text in ["", "   ", " a b ", "\t\u{3000}x\u{2029}", "y"] {
        let ours: String = trim(&chars(text)).into_iter().collect();
        assert_eq!(ours, text.trim(), "trim of {text:?}");
    }
}
