use cviz::render::state::{selection_effects, SelectionEffect};

#[test]
fn selection_highlights_one_and_dims_others() {
    let ids: Vec<String> = vec!["a.rs".into(), "b.rs".into(), "c.rs".into()];
    let sel = "b.rs".to_string();
    let e = selection_effects(Some(&sel), &ids, 4).unwrap();
    assert_eq!(
        e,
        vec![
            SelectionEffect::Dim,
            SelectionEffect::Highlight,
            SelectionEffect::Dim,
            SelectionEffect::Keep
        ]
    );
}

#[test]
fn no_selection_no_effects() {
    let ids: Vec<String> = vec!["a.rs".into()];
    assert!(selection_effects(None, &ids, 1).is_none());
}
