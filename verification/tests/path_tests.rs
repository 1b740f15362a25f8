use rsync_core::path_utils::{
    exceeds_max_path, is_daemon_path, is_remote_path, is_unc_path, parse_remote_path,
    to_unix_separators,
};

#[test]
fn test_is_unc_path() {
    assert!(is_unc_path(r"\\server\share"));
    assert!(is_unc_path(r"\\server\share\folder"));
    assert!(!is_unc_path(r"C:\folder"));
    assert!(!is_unc_path(r"\\?\C:\folder"));
}

#[test]
fn test_to_unix_separators() {
    assert_eq!(to_unix_separators(r"folder\subfolder\file.txt"), "folder/subfolder/file.txt");
    assert_eq!(to_unix_separators("folder/subfolder/file.txt"), "folder/subfolder/file.txt");
}

#[test]
fn test_exceeds_max_path() {
    assert!(!exceeds_max_path("short.txt"));

    let long_name = "a".repeat(300);
    assert!(exceeds_max_path(&long_name));
}

#[test]
fn test_is_remote_path() {
    assert!(is_remote_path("user@host:/path/to/file"));
    assert!(is_remote_path("host:/path/to/file"));
    assert!(!is_remote_path("C:\\Users\\user\\file.txt"));
    assert!(!is_remote_path("/path/to/file"));
    assert!(!is_remote_path("\\\\server\\share"));
}

#[test]
fn test_parse_remote_path() {
    let (user_host, path) = parse_remote_path("user@host:/path/to/file");
    assert_eq!(user_host, Some(("user".to_string(), "host".to_string())));
    assert_eq!(path, "/path/to/file");

    let (user_host, path) = parse_remote_path("host:/path/to/file");
    assert_eq!(user_host, Some(("".to_string(), "host".to_string())));
    assert_eq!(path, "/path/to/file");

    let (user_host, path) = parse_remote_path("C:\\Users\\user\\file.txt");
    assert_eq!(user_host, None);
    assert_eq!(path, "C:\\Users\\user\\file.txt");
}

#[test]
fn test_is_daemon_path() {
    assert!(is_daemon_path("rsync://host/module/path"));
    assert!(!is_daemon_path("host:/path"));
    assert!(!is_daemon_path("rsync:/"));
}
