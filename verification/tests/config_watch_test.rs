use microdns::config_watch::{is_relevant_path, reloaded};
use microdns::error::Error;

#[test]
fn relevant_filters() {
    assert!(is_relevant_path("/data/etc/microdns.json", "microdns.json"));
    assert!(!is_relevant_path(
        "/data/etc/.microdns.json",
        "microdns.json"
    ));
    assert!(!is_relevant_path(
        "/data/etc/microdns.json~",
        "microdns.json"
    ));
    assert!(!is_relevant_path("/data/etc/other.json", "microdns.json"));
}

#[test]
fn a_bad_file_keeps_the_old_config() {
    assert_eq!(reloaded(1, Ok(2)), 2);
    assert_eq!(reloaded(1, Err(Error::Config("bad".into()))), 1);
}
