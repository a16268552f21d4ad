use media_scan::extension::{classify, file_extension, is_listed};

fn list(items: &[&str]) -> Vec<String> {
    items.iter().map(|s| s.to_string()).collect()
}

#[test]
fn extension_is_the_final_dot_suffix() {
    assert_eq!(file_extension("a.tar.gz"), Some("gz".to_string()));
    assert_eq!(file_extension("photo.jpg"), Some("jpg".to_string()));
    assert_eq!(file_extension("a.b.c.d"), Some("d".to_string()));
}

#[test]
fn tar_gz_is_classified_as_gz_only() {
    assert_eq!(classify("a.tar.gz", &list(&["gz"])), Some("gz".to_string()));
    assert_eq!(classify("a.tar.gz", &list(&["tar"])), None);
    assert_eq!(classify("a.tar.gz", &list(&["tar.gz"])), None);
    assert_eq!(classify("a.tar.gz", &list(&["tar", "tar.gz", "gz"])), Some("gz".to_string()));
}

#[test]
fn name_without_dot_has_no_extension() {
    assert_eq!(file_extension("README"), None);
    assert_eq!(file_extension(""), None);
}

#[test]
fn name_ending_in_dot_has_no_extension() {
    assert_eq!(file_extension("archive."), None);
    assert_eq!(file_extension("a.b."), None);
    assert_eq!(file_extension("."), None);
    assert_eq!(file_extension(".."), None);
}

#[test]
fn name_starting_with_dot_has_the_rest_as_extension() {
    assert_eq!(file_extension(".jpg"), Some("jpg".to_string()));
}

#[test]
fn extension_of_non_ascii_name() {
    assert_eq!(file_extension("übung.résumé"), Some("résumé".to_string()));
    assert_eq!(file_extension("日本.語"), Some("語".to_string()));
}

#[test]
fn matching_is_exact_and_case_sensitive() {
    let exts = list(&["jpg", "png"]);
    assert!(is_listed(&"jpg".to_string(), &exts));
    assert!(is_listed(&"png".to_string(), &exts));
    assert!(!is_listed(&"JPG".to_string(), &exts));
    assert!(!is_listed(&"jp".to_string(), &exts));
    assert!(!is_listed(&"jpgx".to_string(), &exts));
    assert!(!is_listed(&"".to_string(), &exts));
    assert!(!is_listed(&"jpg".to_string(), &list(&[])));
}

#[test]
fn classify_skips_what_is_not_media() {
    let exts = list(&["jpg", "png"]);
    assert_eq!(classify("a.jpg", &exts), Some("jpg".to_string()));
    assert_eq!(classify("a.JPG", &exts), None);
    assert_eq!(classify("b.txt", &exts), None);
    assert_eq!(classify("jpg", &exts), None);
    assert_eq!(classify("a.jpg.", &exts), None);
}

#[test]
fn untrimmed_extension_does_not_match() {
    let exts = list(&["jpg", " png"]);
    assert_eq!(classify("a.png", &exts), None);
    assert_eq!(classify("a. png", &exts), Some(" png".to_string()));
}
