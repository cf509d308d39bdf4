use cviz::socket::{socket_path, ActivityEvent};

#[test]
fn socket_path_is_hash_of_repo_path() {
    assert_eq!(socket_path("/home/user/repo"), "/tmp/cviz-9c2357f5.sock");
    assert_eq!(socket_path(""), "/tmp/cviz-00000000.sock");
    assert_eq!(socket_path("a"), "/tmp/cviz-00000061.sock");
}

#[test]
fn socket_path_matches_wrapping_fold() {
    let path = "/var/lib/some/rather/long/repository/path/that/wraps/the/hash";
    let hash: u32 = path.bytes().fold(0u32, |acc, b| acc.wrapping_mul(31).wrapping_add(b as u32));
    assert_eq!(socket_path(path), format!("/tmp/cviz-{:08x}.sock", hash));
}

#[test]
fn socket_path_is_deterministic() {
    assert_eq!(socket_path("/repo/x"), socket_path("/repo/x"));
    assert_ne!(socket_path("/repo/x"), socket_path("/repo/y"));
}

#[test]
fn activity_event_holds_its_fields() {
    let e = ActivityEvent {
        file: "src/main.rs".to_string(),
        action: "edit".to_string(),
        agent: "editor".to_string(),
        timestamp: 1711000000,
    };
    assert_eq!(e.file, "src/main.rs");
    assert_eq!(e.timestamp, 1711000000);
}
