use zg::paths::{
    covering_index_roots, db_path, file_name, find_index_root, has_zg_component, hidden_dir,
    index_root_candidates, join_path, parent, relative_path, state_path,
};

#[test]
fn index_files_live_under_the_hidden_directory() {
    assert_eq!(hidden_dir("/r"), "/r/.zg");
    assert_eq!(db_path("/r"), "/r/.zg/index.db");
    assert!(state_path("/r").starts_with("/r/.zg/"));
    assert_eq!(join_path("/r", "a.md"), "/r/a.md");
}

#[test]
fn parents_walk_up_to_the_root() {
    assert_eq!(parent("/a/b").as_deref(), Some("/a"));
    assert_eq!(parent("/a").as_deref(), Some("/"));
    assert_eq!(parent("/"), None);
}

#[test]
fn candidates_are_listed_nearest_first() {
    assert_eq!(index_root_candidates("/a/b", true), vec!["/a/b", "/a", "/"]);
    assert_eq!(index_root_candidates("/a/b/note.md", false), vec!["/a/b", "/a", "/"]);
}

#[test]
fn nested_roots_use_nearest_ancestor_for_search() {
    let candidates = index_root_candidates("/r/journal", true);
    let indexed = vec![true, true, false];
    assert_eq!(find_index_root(&candidates, &indexed).as_deref(), Some("/r/journal"));
    assert_eq!(covering_index_roots(&candidates, &indexed), vec!["/r/journal", "/r"]);
    assert_eq!(find_index_root(&candidates, &vec![false, false, false]), None);
}

#[test]
fn relative_paths_need_a_common_prefix() {
    assert_eq!(relative_path("/r", "/r/a/b.md").as_deref(), Some("a/b.md"));
    assert_eq!(relative_path("/r", "/rx/b.md"), None);
}

#[test]
fn hidden_index_directories_are_recognised() {
    assert!(has_zg_component("/r/.zg/index.db"));
    assert!(!has_zg_component("/r/notes/zg.md"));
}

#[test]
fn file_names_are_the_last_component() {
    let name: String = file_name("/r/notes/a.md").unwrap().into_iter().collect();
    assert_eq!(name, "a.md");
    assert!(file_name("/").is_none());
}
