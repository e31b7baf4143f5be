use xnote_core::perf::{
    apply_folder_order, count_filter_matches, filter_query, folder_of_path, folder_tree,
    group_notes_by_folder,
};

fn strings(v: &[&str]) -> Vec<String> {
    v.iter().map(|s| s.to_string()).collect()
}

#[test]
fn folder_of_path_takes_what_precedes_the_last_slash() {
    assert_eq!(folder_of_path("notes/a/b.md"), "notes/a");
    assert_eq!(folder_of_path("top.md"), "");
}

#[test]
fn notes_group_by_folder_in_order() {
    let g = group_notes_by_folder(&strings(&["notes/b.md", "x.md", "notes/a/c.md", "notes/a.md"]));
    assert_eq!(
        g,
        vec![
            (String::new(), strings(&["x.md"])),
            ("notes".to_string(), strings(&["notes/a.md", "notes/b.md"])),
            ("notes/a".to_string(), strings(&["notes/a/c.md"])),
        ]
    );
}

#[test]
fn folder_tree_holds_top_and_every_parent() {
    assert_eq!(
        folder_tree(&strings(&["notes/a/b", "x", ""])),
        strings(&["", "notes", "notes/a"])
    );
}

#[test]
fn saved_order_comes_first_then_the_rest_each_once() {
    let out = apply_folder_order(&strings(&["a", "b", "c"]), &strings(&["c", "x", "a", "c"]));
    assert_eq!(out, strings(&["c", "a", "b"]));
    let none = apply_folder_order(&strings(&["b", "a", "b"]), &Vec::new());
    assert_eq!(none, strings(&["b", "a"]));
}

#[test]
fn filter_counts_paths_containing_the_query() {
    let q = filter_query("  NoTe ");
    assert_eq!(q, "note");
    let paths = strings(&["notes/alpha.md", "notes/beta.md", "misc/x.md"]);
    assert_eq!(count_filter_matches(&paths, &q), 2);
    assert_eq!(count_filter_matches(&paths, "alp"), 1);
    assert_eq!(count_filter_matches(&paths, ""), 0);
}
