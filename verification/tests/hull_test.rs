use cviz::render::hull::{dir_hue_degrees, fan_edges, group_by_directory};

fn dirs(v: &[&str]) -> Vec<String> {
    v.iter().map(|s| s.to_string()).collect()
}

#[test]
fn groups_by_directory_in_first_appearance_order() {
    let groups = group_by_directory(&dirs(&["src", "", "tests", "src", "src", "tests", ""]));
    let got: Vec<(String, Vec<usize>)> = groups.into_iter().map(|g| (g.dir, g.members)).collect();
    assert_eq!(
        got,
        vec![("src".to_string(), vec![0, 3, 4]), ("tests".to_string(), vec![2, 5])]
    );
}

#[test]
fn no_directories_no_groups() {
    assert!(group_by_directory(&dirs(&["", ""])).is_empty());
    assert!(group_by_directory(&dirs(&[])).is_empty());
}

#[test]
fn hue_is_fnv_hash_mod_360() {
    assert_eq!(dir_hue_degrees("src/render"), 306);
    assert_eq!(dir_hue_degrees("src"), 123);
    assert_eq!(dir_hue_degrees(""), 61);
    let d = "some/deeper/directory/name";
    let h = d.bytes().fold(2166136261u32, |acc, b| acc.wrapping_mul(16777619).wrapping_add(b as u32));
    assert_eq!(dir_hue_degrees(d), h % 360);
}

#[test]
fn fan_closes_the_polygon() {
    assert_eq!(fan_edges(4), vec![(0, 1), (1, 2), (2, 3), (3, 0)]);
    assert_eq!(fan_edges(0), vec![]);
}
