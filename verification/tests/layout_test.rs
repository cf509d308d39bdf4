use cviz::pipeline::layout::{coupling_degrees, file_kind, resolve_pairs, time_bounds, FileKind};

#[test]
fn file_kinds() {
    assert_eq!(file_kind("src/main.rs"), FileKind::Rust);
    assert_eq!(file_kind("Cargo.toml"), FileKind::Toml);
    assert_eq!(file_kind("README.md"), FileKind::Markdown);
    assert_eq!(file_kind("tests/run.py"), FileKind::Test);
    assert_eq!(file_kind("tests/layout_test.rs"), FileKind::Rust);
    assert_eq!(file_kind("assets/logo.png"), FileKind::Other);
    assert_eq!(file_kind("rs"), FileKind::Other);
}

#[test]
fn pairs_resolve_to_node_positions() {
    let ids: Vec<String> = vec!["a.rs".into(), "b.rs".into(), "z.rs".into()];
    let pairs: Vec<(String, String)> = vec![
        ("a.rs".into(), "b.rs".into()),
        ("z.rs".into(), "a.rs".into()),
        ("a.rs".into(), "gone.rs".into()),
    ];
    assert_eq!(resolve_pairs(&ids, &pairs), vec![Some((0, 1)), Some((2, 0)), None]);
}

#[test]
fn coupling_counts_distinct_pairs() {
    // (0,1) twice in both orders counts once; (1,2) once.
    let edges = vec![(0, 1), (1, 0), (1, 2)];
    assert_eq!(coupling_degrees(4, &edges), vec![1, 2, 1, 0]);
    assert_eq!(coupling_degrees(2, &vec![]), vec![0, 0]);
}

#[test]
fn time_bounds_are_extremes() {
    assert_eq!(time_bounds(&vec![1000, 900, 100]), Some((100, 1000)));
    assert_eq!(time_bounds(&vec![7]), Some((7, 7)));
    assert_eq!(time_bounds(&vec![]), None);
}
