use clipwise::paths::{db_path_for, socket_path_for};
use std::path::{Path, PathBuf};

#[test]
fn socket_path_filename_is_correct() {
    let path = socket_path_for(Some("/run/user/1000"), Some("/home/someone"));
    assert_eq!(Path::new(&path).file_name().unwrap(), "clipwise.sock");
    let path = socket_path_for(None, Some("/home/someone"));
    assert_eq!(Path::new(&path).file_name().unwrap(), "clipwise.sock");
    let path = socket_path_for(None, None);
    assert_eq!(Path::new(&path).file_name().unwrap(), "clipwise.sock");
}

#[test]
fn socket_path_uses_xdg_runtime_dir() {
    let path = socket_path_for(Some("/tmp/clipwise_test_xdg"), Some("/home/someone"));
    assert_eq!(PathBuf::from(path), PathBuf::from("/tmp/clipwise_test_xdg/clipwise.sock"));
}

#[test]
fn socket_path_falls_back_to_home_then_tmp() {
    assert_eq!(socket_path_for(None, Some("/home/ann")), "/home/ann/.local/share/clipwise/clipwise.sock");
    assert_eq!(socket_path_for(None, Some("/home/ann/")), "/home/ann/.local/share/clipwise/clipwise.sock");
    assert_eq!(socket_path_for(None, None), "/tmp/clipwise.sock");
    assert_eq!(socket_path_for(Some("/run/user/7/"), None), "/run/user/7/clipwise.sock");
    assert_eq!(socket_path_for(Some(""), None), "clipwise.sock");
}

#[test]
fn socket_path_matches_pathbuf_join() {
    for dir in ["/run/user/1000", "/run/user/1000/", "rel/dir", ""] {
        let expected = PathBuf::from(dir).join("clipwise.sock");
        assert_eq!(PathBuf::from(socket_path_for(Some(dir), None)), expected);
    }
    let expected = PathBuf::from("/home/bo").join(".local").join("share").join("clipwise").join("clipwise.sock");
    assert_eq!(PathBuf::from(socket_path_for(None, Some("/home/bo"))), expected);
}

#[test]
fn db_path_is_under_home() {
    assert_eq!(db_path_for("/home/ann"), "/home/ann/.local/share/clipwise/db");
    assert_eq!(PathBuf::from(db_path_for("/home/ann")), PathBuf::from("/home/ann").join(".local/share/clipwise/db"));
}
