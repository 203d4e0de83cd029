use extension_tally::extension;

#[test]
fn extension_after_last_period() {
    assert_eq!(extension("a.txt"), Some("txt".to_string()));
    assert_eq!(extension("archive.tar.gz"), Some("gz".to_string()));
    assert_eq!(extension(".bashrc"), Some("bashrc".to_string()));
}

#[test]
fn no_period_means_no_extension() {
    assert_eq!(extension("e"), None);
    assert_eq!(extension("Makefile"), None);
    assert_eq!(extension(""), None);
}

#[test]
fn trailing_period_gives_empty_extension() {
    assert_eq!(extension("archive."), Some(String::new()));
    assert_eq!(extension("."), Some(String::new()));
}

#[test]
fn extension_case_is_kept() {
    assert_eq!(extension("photo.JPG"), Some("JPG".to_string()));
    assert_ne!(extension("photo.JPG"), extension("photo.jpg"));
}

#[test]
fn extension_of_non_ascii_name() {
    assert_eq!(extension("résumé.pdf"), Some("pdf".to_string()));
    assert_eq!(extension("data.ñandú"), Some("ñandú".to_string()));
}
