use stillkit::paths::{file_name, join, parent, strip_prefix, with_extension, with_file_name};

#[test]
fn a_leading_dot_is_kept_as_std_keeps_it() {
    assert_eq!(with_file_name("./a", "b"), "./b");
    assert_eq!(with_extension("./photo.jpg", "png"), "./photo.png");
    assert_eq!(parent("./a"), Some(".".to_string()));
    assert_eq!(parent("."), Some(String::new()));
    assert_eq!(join(".", "a"), "./a");
    assert_eq!(join("./out", "x.jpg"), "./out/x.jpg");
    assert_eq!(file_name("."), None);
    assert_eq!(strip_prefix("./a/b", "./a"), Some("b".to_string()));
    assert_eq!(strip_prefix("./a/b", "a"), None);
}

#[test]
fn other_paths_are_read_in_normal_form() {
    assert_eq!(with_file_name("a/./b", "c"), "a/c");
    assert_eq!(with_file_name("/x/y.jpg", "z.jpg"), "/x/z.jpg");
    assert_eq!(parent("/"), None);
    assert_eq!(parent(""), None);
    assert_eq!(parent("a"), Some(String::new()));
    assert_eq!(join("a", "/b"), "/b");
    assert_eq!(file_name("a/.."), None);
    assert_eq!(file_name(".hidden"), Some(".hidden".to_string()));
}
