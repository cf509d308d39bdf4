use cviz::pipeline::git_collector::{
    collect_file_graph, count_lines, touched_files, CoChange, CommitRecord, DiskFile, FileGraph,
};
use cviz::scene::FileInfo;

fn commit(timestamp: i64, files: &[&str]) -> Option<CommitRecord> {
    Some(CommitRecord { timestamp, files: files.iter().map(|f| f.to_string()).collect() })
}

fn present(lines: usize) -> DiskFile {
    DiskFile { exists: true, lines: Some(lines) }
}

fn file<'a>(graph: &'a FileGraph, id: &str) -> &'a FileInfo {
    graph.files.iter().find(|f| f.path == id).unwrap()
}

fn pair<'a>(graph: &'a FileGraph, a: &str, b: &str) -> Option<&'a CoChange> {
    graph.co_change.iter().find(|c| (c.a == a && c.b == b) || (c.a == b && c.b == a))
}

fn score(graph: &FileGraph, a: &str, b: &str) -> f32 {
    pair(graph, a, b).map(|c| c.together as f32 / c.either as f32).unwrap_or(0.0)
}

/// The history of the repository built by the original test, newest first:
/// an empty initial commit, then a+b, a+c, a+b, a+c.
fn test_history() -> Vec<Option<CommitRecord>> {
    vec![
        commit(1400, &["a.rs", "c.rs"]),
        commit(1300, &["a.rs", "b.rs"]),
        commit(1200, &["a.rs", "c.rs"]),
        commit(1100, &["a.rs", "b.rs"]),
        commit(1000, &[]),
    ]
}

#[test]
fn test_co_change_matrix() {
    let walk = test_history();
    let ids = touched_files(&walk, 500);
    let disk: Vec<DiskFile> = ids.iter().map(|_| present(1)).collect();
    let graph = collect_file_graph(&walk, 500, &disk);

    assert_eq!(graph.files.len(), 3);
    assert_eq!(file(&graph, "a.rs").commit_count, 4);
    assert_eq!(file(&graph, "b.rs").commit_count, 2);
    assert_eq!(file(&graph, "c.rs").commit_count, 2);

    // a+b co-changed in 2 commits out of 4 (a) + 2 (b) - 2 (together) = 4 union -> score = 2/4 = 0.5
    let ab_score = score(&graph, "a.rs", "b.rs");
    assert!(ab_score > 0.1, "a+b score was {} (expected > 0.1)", ab_score);

    // a+c co-changed in 2 commits
    let ac_score = score(&graph, "a.rs", "c.rs");
    assert!(ac_score > 0.1, "a+c score was {} (expected > 0.1)", ac_score);
}

#[test]
fn co_change_counts_are_exact() {
    let walk = test_history();
    let ids = touched_files(&walk, 500);
    let disk: Vec<DiskFile> = ids.iter().map(|_| present(1)).collect();
    let graph = collect_file_graph(&walk, 500, &disk);
    let ab = pair(&graph, "a.rs", "b.rs").unwrap();
    assert_eq!((ab.together, ab.either), (2, 4));
    let ac = pair(&graph, "a.rs", "c.rs").unwrap();
    assert_eq!((ac.together, ac.either), (2, 4));
    // b and c never changed together: no entry.
    assert!(pair(&graph, "b.rs", "c.rs").is_none());
    assert_eq!(graph.co_change.len(), 2);
    assert_eq!(score(&graph, "a.rs", "b.rs"), 0.5);
}

#[test]
fn touched_files_in_order_of_first_appearance() {
    let walk = vec![
        commit(3, &["z.rs", "a.rs", "z.rs"]),
        None,
        commit(2, &["m.rs", "a.rs"]),
    ];
    let ids = touched_files(&walk, 10);
    assert_eq!(ids, vec!["z.rs".to_string(), "a.rs".to_string(), "m.rs".to_string()]);
}

#[test]
fn last_modified_is_newest_commit() {
    let walk = vec![commit(50, &["a.rs"]), commit(90, &["a.rs"]), commit(10, &["a.rs"])];
    let disk = vec![present(7)];
    let graph = collect_file_graph(&walk, 10, &disk);
    let a = file(&graph, "a.rs");
    assert_eq!(a.last_modified, 90);
    assert_eq!(a.commit_count, 3);
    assert_eq!(a.lines, 7);
}

#[test]
fn deleted_files_are_left_out() {
    let walk = vec![commit(5, &["gone.rs", "kept.rs"])];
    let ids = touched_files(&walk, 10);
    assert_eq!(ids, vec!["gone.rs".to_string(), "kept.rs".to_string()]);
    let disk = vec![DiskFile { exists: false, lines: None }, DiskFile { exists: true, lines: None }];
    let graph = collect_file_graph(&walk, 10, &disk);
    assert_eq!(graph.files.len(), 1);
    assert_eq!(graph.files[0].path, "kept.rs");
    // unreadable content counts as zero lines
    assert_eq!(graph.files[0].lines, 0);
    assert!(graph.co_change.is_empty());
}

#[test]
fn commit_window_counts_unreadable_entries() {
    // The window holds the first two walk entries, one of which could not be read.
    let walk = vec![None, commit(2, &["a.rs"]), commit(1, &["b.rs"])];
    let ids = touched_files(&walk, 2);
    assert_eq!(ids, vec!["a.rs".to_string()]);
    let graph = collect_file_graph(&walk, 2, &vec![present(1)]);
    assert_eq!(graph.files.len(), 1);
    assert_eq!(file(&graph, "a.rs").commit_count, 1);
}

#[test]
fn empty_history_gives_empty_graph() {
    let walk: Vec<Option<CommitRecord>> = vec![];
    assert!(touched_files(&walk, 500).is_empty());
    let graph = collect_file_graph(&walk, 500, &vec![]);
    assert!(graph.files.is_empty());
    assert!(graph.co_change.is_empty());
}

#[test]
fn either_is_union_of_commit_sets() {
    // a in 3 commits, b in 2, together in 1: either = 3 + 2 - 1 = 4.
    let walk = vec![
        commit(4, &["a.rs"]),
        commit(3, &["a.rs", "b.rs"]),
        commit(2, &["a.rs"]),
        commit(1, &["b.rs"]),
        commit(0, &["c.rs"]),
    ];
    let ids = touched_files(&walk, 10);
    let disk: Vec<DiskFile> = ids.iter().map(|_| present(1)).collect();
    let graph = collect_file_graph(&walk, 10, &disk);
    let ab = pair(&graph, "a.rs", "b.rs").unwrap();
    let ca = file(&graph, "a.rs").commit_count;
    let cb = file(&graph, "b.rs").commit_count;
    assert_eq!((ca, cb), (3, 2));
    assert_eq!(ab.together, 1);
    assert_eq!(ab.either, ca + cb - ab.together);
    assert!(ab.together <= ab.either);
}

#[test]
fn lines_are_counted_like_str_lines() {
    assert_eq!(count_lines(""), 0);
    assert_eq!(count_lines("one"), 1);
    assert_eq!(count_lines("one\n"), 1);
    assert_eq!(count_lines("one\ntwo"), 2);
    assert_eq!(count_lines("one\n\nthree\n"), 3);
    assert_eq!(count_lines("\n"), 1);
    assert_eq!(count_lines("a\r\nb\r\n"), 2);
    let text = "fn a() {}\nfn b() {}\n// é\n";
    assert_eq!(count_lines(text), text.lines().count());
}
