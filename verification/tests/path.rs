use jamf::document::HTMLFile;
use jamf::path::is_markup_path;

fn target(path: &str) -> Option<String> {
    HTMLFile { contents: String::new(), path: path.to_string() }.output_path()
}

#[test]
fn extension_is_replaced() {
    assert_eq!(target("notes.jamf"), Some(String::from("notes.html")));
}

#[test]
fn parent_directory_is_kept() {
    assert_eq!(target("./docs/notes.jamf"), Some(String::from("./docs/notes.html")));
    assert_eq!(target("/srv/site.jamf/index.jamf"), Some(String::from("/srv/site.jamf/index.html")));
}

#[test]
fn only_the_last_extension_is_replaced() {
    assert_eq!(target("a.b.jamf"), Some(String::from("a.b.html")));
    assert_eq!(target("x.jamf.jamf"), Some(String::from("x.jamf.html")));
}

#[test]
fn names_of_several_bytes_are_kept() {
    assert_eq!(target("naïve/日本語.jamf"), Some(String::from("naïve/日本語.html")));
}

#[test]
fn other_paths_have_no_target() {
    assert_eq!(target(""), None);
    assert_eq!(target("notes.md"), None);
    assert_eq!(target("notes.jamf.bak"), None);
    assert_eq!(target("notes.JAMF"), None);
    assert_eq!(target("notesjamf"), None);
    assert_eq!(target("jamf"), None);
}

#[test]
fn extension_alone_is_no_file_name() {
    assert_eq!(target(".jamf"), None);
    assert_eq!(target("docs/.jamf"), None);
}

#[test]
fn markup_paths_are_recognised() {
    assert!(is_markup_path("notes.jamf"));
    assert!(is_markup_path("./a/b.jamf"));
    assert!(is_markup_path("é.jamf"));
    assert!(!is_markup_path("notes.html"));
    assert!(!is_markup_path(".jamf"));
    assert!(!is_markup_path("a/.jamf"));
    assert!(!is_markup_path(""));
}
