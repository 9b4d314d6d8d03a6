use extscan::pathname::{
    eq_ignore_ascii_case, extension_of, last_index, lower_char_exec, lowered_equals, split_char,
    str_eq, with_extension,
};

#[test]
fn lower_char_folds_ascii_uppercase() {
    assert_eq!(lower_char_exec('A'), 'a');
    assert_eq!(lower_char_exec('Z'), 'z');
    assert_eq!(lower_char_exec('M'), 'm');
    assert_eq!(lower_char_exec('a'), 'a');
    assert_eq!(lower_char_exec('0'), '0');
    assert_eq!(lower_char_exec('.'), '.');
    assert_eq!(lower_char_exec('é'), 'é');
}

#[test]
fn case_insensitive_equality() {
    assert!(eq_ignore_ascii_case("TXT", "txt"));
    assert!(eq_ignore_ascii_case("Jpg", "jPG"));
    assert!(eq_ignore_ascii_case("", ""));
    assert!(!eq_ignore_ascii_case("txt", "text"));
    assert!(!eq_ignore_ascii_case("txt", "tx"));
}

#[test]
fn lowered_equality_folds_left_side_only() {
    assert!(lowered_equals("TXT", "txt"));
    assert!(lowered_equals("txt", "txt"));
    assert!(!lowered_equals("txt", "TXT"));
    assert!(!lowered_equals("pdf", "jpg"));
}

#[test]
fn exact_string_equality() {
    assert!(str_eq("???", "???"));
    assert!(!str_eq("??", "???"));
    assert!(!str_eq("abc", "abd"));
    assert!(str_eq("", ""));
}

#[test]
fn last_index_finds_final_occurrence() {
    assert_eq!(last_index("a.b.c", '.'), Some(3));
    assert_eq!(last_index("abc", '.'), None);
    assert_eq!(last_index(".abc", '.'), Some(0));
    assert_eq!(last_index("", '.'), None);
}

#[test]
fn extension_after_final_dot() {
    assert_eq!(extension_of("photo.pdf"), Some(String::from("pdf")));
    assert_eq!(extension_of("a/b/c.tar.gz"), Some(String::from("gz")));
    assert_eq!(extension_of("doc.TXT"), Some(String::from("TXT")));
}

#[test]
fn extension_missing_or_hidden() {
    assert_eq!(extension_of("Makefile"), None);
    assert_eq!(extension_of(".gitignore"), None);
    assert_eq!(extension_of("dir.d/file"), None);
    assert_eq!(extension_of("a.b/c"), None);
    assert_eq!(extension_of("trailing."), Some(String::from("")));
}

#[test]
fn with_extension_replaces_suffix() {
    assert_eq!(with_extension("a.pdf", "jpg"), "a.jpg");
    assert_eq!(with_extension("dir/a.pdf", "jpg"), "dir/a.jpg");
    assert_eq!(with_extension("noext", "jpg"), "noext.jpg");
    assert_eq!(with_extension(".hidden", "jpg"), ".hidden.jpg");
    assert_eq!(with_extension("a.tar.gz", "zip"), "a.tar.zip");
}

#[test]
fn split_on_separator() {
    let parts = split_char("jpeg/jpg/jpe/jfif", '/');
    let parts: Vec<&str> = parts.iter().map(|s| s.as_str()).collect();
    assert_eq!(parts, vec!["jpeg", "jpg", "jpe", "jfif"]);
}

#[test]
fn split_without_separator_is_whole() {
    let parts = split_char("pdf", '/');
    assert_eq!(parts.len(), 1);
    assert_eq!(parts[0], "pdf");
}

#[test]
fn split_keeps_empty_pieces() {
    let parts = split_char("/a//b/", '/');
    let parts: Vec<&str> = parts.iter().map(|s| s.as_str()).collect();
    assert_eq!(parts, vec!["", "a", "", "b", ""]);
    let parts = split_char("", '/');
    let parts: Vec<&str> = parts.iter().map(|s| s.as_str()).collect();
    assert_eq!(parts, vec![""]);
}
