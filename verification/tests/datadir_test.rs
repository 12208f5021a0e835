use std::path::PathBuf;

use microdns::datadir::{join, path, root, DEFAULT_ROOT, ENV_DATA_DIR};

#[test]
fn default_root_is_data() {
    // Cannot safely mutate env in parallel tests; just check absolute join.
    let p = PathBuf::from(DEFAULT_ROOT)
        .join("etc")
        .join("microdns.json");
    assert!(p.is_absolute());
    assert!(p.ends_with("etc/microdns.json"));
}

#[test]
fn root_comes_from_the_environment_where_absolute() {
    assert_eq!(ENV_DATA_DIR, "DATA_DIR");
    assert_eq!(root(Some("/srv")), "/srv");
    assert_eq!(root(Some("")), DEFAULT_ROOT);
    assert_eq!(root(Some("relative")), DEFAULT_ROOT);
    assert_eq!(root(None), DEFAULT_ROOT);
}

#[test]
fn joins_like_paths() {
    assert_eq!(join("/data", "etc"), "/data/etc");
    assert_eq!(join("/data/", "etc"), "/data/etc");
    assert_eq!(path("/data", "etc", "microdns.json"), "/data/etc/microdns.json");
    let p = PathBuf::from("/data").join("run").join("x.sock");
    assert_eq!(path("/data", "run", "x.sock"), p.to_str().unwrap());
}
