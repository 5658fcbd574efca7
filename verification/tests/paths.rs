use notebook::error::Error;
use notebook::path::{file_name, join, parent, split_path};
use notebook::text::{ends_with_char, glue, to_decimal};

#[test]
fn split_path_drops_empty_segments() {
    assert_eq!(split_path(""), Vec::<String>::new());
    assert_eq!(split_path("/"), Vec::<String>::new());
    assert_eq!(split_path("///"), Vec::<String>::new());
    assert_eq!(split_path("a"), vec!["a"]);
    assert_eq!(split_path("/a"), vec!["a"]);
    assert_eq!(split_path("a/"), vec!["a"]);
    assert_eq!(split_path("/a/b/c"), vec!["a", "b", "c"]);
    assert_eq!(split_path("a//b"), vec!["a", "b"]);
    assert_eq!(split_path("test_folder/test_folder/grand_child_test_folder"),
        vec!["test_folder", "test_folder", "grand_child_test_folder"]);
}

#[test]
fn split_path_keeps_segments_verbatim() {
    assert_eq!(split_path("A/a"), vec!["A", "a"]);
    assert_eq!(split_path("./a/../b"), vec![".", "a", "..", "b"]);
    assert_eq!(split_path("ä/日本 語/x y"), vec!["ä", "日本 語", "x y"]);
}

#[test]
fn join_adds_one_separator() {
    assert_eq!(join("", "a"), "a");
    assert_eq!(join("a", "b"), "a/b");
    assert_eq!(join("/a/b", "c"), "/a/b/c");
    assert_eq!(split_path(&join("a/b", "c/d")), vec!["a", "b", "c", "d"]);
}

#[test]
fn parent_drops_the_last_segment() {
    assert_eq!(parent("a/b/c"), "a/b");
    assert_eq!(parent("/a/b/"), "a");
    assert_eq!(parent("a"), "");
    assert_eq!(parent(""), "");
    assert_eq!(parent("/"), "");
}

#[test]
fn file_name_is_the_last_segment() {
    assert_eq!(file_name("a/b/c"), "c");
    assert_eq!(file_name("/a/"), "a");
    assert_eq!(file_name("/"), "");
    assert_eq!(file_name(""), "");
}

#[test]
fn decimal_numerals() {
    assert_eq!(to_decimal(0), "0");
    assert_eq!(to_decimal(7), "7");
    assert_eq!(to_decimal(10), "10");
    assert_eq!(to_decimal(1234567890), "1234567890");
    assert_eq!(to_decimal(usize::MAX), usize::MAX.to_string());
}

#[test]
fn text_helpers() {
    assert!(ends_with_char("a/", '/'));
    assert!(!ends_with_char("a", '/'));
    assert!(!ends_with_char("", '/'));
    assert!(ends_with_char("é", 'é'));
    assert_eq!(glue("ab", "cd"), "abcd");
}

#[test]
fn error_messages() {
    assert_eq!(Error::NotFound.message(), "NotFound");
    assert_eq!(Error::NamelessFolder.message(), "NamelessFolder");
    assert_eq!(Error::BookLessNote.message(), "BookLessNote");
    assert_eq!(Error::NonEmptyBook.message(), "NonEmptyBook");
    assert_eq!(Error::OverwriteNotAllowed.message(), "OverwriteNotAllowed");
}
