use media_scan::config::{
    parse_extensions, ScanConfig, DEFAULT_MEDIA_EXTENSIONS, DEFAULT_START_DIRECTORY,
};

fn list(items: &[&str]) -> Vec<String> {
    items.iter().map(|s| s.to_string()).collect()
}

#[test]
fn default_list_has_fifteen_extensions() {
    let parsed = parse_extensions(DEFAULT_MEDIA_EXTENSIONS);
    assert_eq!(
        parsed,
        list(&[
            "mp4", "mp3", "jpg", "png", "docx", "wma", "pdf", "psd", "jpeg", "gif", "doc", "avi",
            "wmv", "flv", "mov"
        ])
    );
}

#[test]
fn default_start_directory_is_here() {
    assert_eq!(DEFAULT_START_DIRECTORY, "./");
}

#[test]
fn split_keeps_order_and_duplicates() {
    assert_eq!(parse_extensions("jpg,png"), list(&["jpg", "png"]));
    assert_eq!(parse_extensions("b,a,b"), list(&["b", "a", "b"]));
}

#[test]
fn split_of_single_piece() {
    assert_eq!(parse_extensions("jpg"), list(&["jpg"]));
}

#[test]
fn split_of_empty_list_is_one_empty_piece() {
    assert_eq!(parse_extensions(""), list(&[""]));
}

#[test]
fn split_keeps_empty_pieces() {
    assert_eq!(parse_extensions("a,,b"), list(&["a", "", "b"]));
    assert_eq!(parse_extensions(",a"), list(&["", "a"]));
    assert_eq!(parse_extensions("a,"), list(&["a", ""]));
    assert_eq!(parse_extensions(","), list(&["", ""]));
}

#[test]
fn split_does_not_trim() {
    assert_eq!(parse_extensions("jpg, png"), list(&["jpg", " png"]));
}

#[test]
fn split_agrees_with_std() {
    for text in ["", "a", "a,b", ",,", "mp4,mp3,jpg", "é,ü,,語", " a , b "] {
        let expected: Vec<String> = text.split(',').map(|s| s.to_string()).collect();
        assert_eq!(parse_extensions(text), expected);
        assert_eq!(parse_extensions(text).join(","), text);
    }
}

#[test]
fn config_holds_what_it_was_given() {
    let config = ScanConfig::new("./".to_string(), Some("out/".to_string()), "jpg,png");
    assert_eq!(config.start_directory, "./");
    assert_eq!(config.target_directory, Some("out/".to_string()));
    assert_eq!(config.media_extensions, list(&["jpg", "png"]));
    let plain = ScanConfig::new("/data".to_string(), None, "gif");
    assert_eq!(plain.target_directory, None);
    assert_eq!(plain.media_extensions, list(&["gif"]));
}
