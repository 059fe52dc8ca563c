use laziergit::status::{FileEntry, Kind};
use laziergit::tree::{build, flatten, RowKind};
use std::collections::HashSet;

fn entry(path: &str) -> FileEntry {
    FileEntry {
        path: path.to_string(),
        staged: false,
        unstaged: true,
        untracked: false,
        kind: Kind::Modified,
    }
}

#[test]
fn builds_tree_dirs_first_and_flattens_in_order() {
    let files = vec![entry("src/a.rs"), entry("src/b.rs"), entry("README.md")];
    let forest = build(&files);
    let rows = flatten(&forest, &HashSet::new());

    // dirs first: src/ folder (a.rs, b.rs) then README.md
    assert_eq!(rows.len(), 4);
    assert!(matches!(rows[0].kind, RowKind::Dir));
    assert_eq!(rows[0].name, "src");
    assert_eq!(rows[1].depth, 1);
    assert!(matches!(rows[1].kind, RowKind::File { .. }));
    assert_eq!(rows[3].name, "README.md");
    assert_eq!(rows[3].depth, 0);
    assert!(rows[3].is_last);
}

#[test]
fn collapsing_a_dir_hides_children() {
    let files = vec![entry("src/a.rs"), entry("src/b.rs"), entry("README.md")];
    let forest = build(&files);
    let dir_id = forest[0].id;
    let rows = flatten(&forest, &HashSet::from([dir_id]));

    assert_eq!(rows.len(), 2);
    assert!(matches!(rows[0].kind, RowKind::Dir));
    assert!(!rows[0].expanded);
    assert_eq!(rows[1].name, "README.md");
}

#[test]
fn ids_are_preorder_and_paths_join_segments() {
    let files = vec![entry("b/y.rs"), entry("a/x/z.rs"), entry("c.rs")];
    let forest = build(&files);
    assert_eq!(forest.len(), 3);
    assert_eq!(forest[0].name, "a");
    assert_eq!(forest[0].id, 0);
    assert_eq!(forest[0].children[0].path, "a/x");
    assert_eq!(forest[0].children[0].id, 1);
    assert_eq!(forest[0].children[0].children[0].path, "a/x/z.rs");
    assert_eq!(forest[0].children[0].children[0].file, Some(1));
    assert_eq!(forest[1].name, "b");
    assert_eq!(forest[1].id, 3);
    assert_eq!(forest[2].name, "c.rs");
    assert_eq!(forest[2].id, 5);
    assert_eq!(forest[2].file, Some(2));
    assert!(!forest[2].is_dir());
}

#[test]
fn repeated_path_keeps_last_index() {
    let files = vec![entry("x.rs"), entry("x.rs")];
    let forest = build(&files);
    assert_eq!(forest.len(), 1);
    assert_eq!(forest[0].file, Some(1));
}

#[test]
fn rows_show_nodes_in_preorder_when_nothing_is_folded() {
    let files = vec![entry("b/y.rs"), entry("a/x/z.rs"), entry("c.rs"), entry("a/w.rs")];
    let forest = build(&files);
    let rows = flatten(&forest, &HashSet::new());
    assert_eq!(rows.len(), 7);
    for (i, row) in rows.iter().enumerate() {
        assert_eq!(row.id, i);
    }
}

#[test]
fn depth_grows_by_one_exactly_after_an_open_folder() {
    let files = vec![entry("a/x/z.rs"), entry("a/w.rs"), entry("b/y.rs"), entry("c.rs")];
    let forest = build(&files);
    let folded = HashSet::from([forest[0].children[0].id]);
    for collapsed in [HashSet::new(), folded] {
        let rows = flatten(&forest, &collapsed);
        assert_eq!(rows[0].depth, 0);
        assert!(!rows[rows.len() - 1].expanded);
        for i in 1..rows.len() {
            assert!(rows[i].depth <= rows[i - 1].depth + 1);
            assert_eq!(rows[i].depth == rows[i - 1].depth + 1, rows[i - 1].expanded);
        }
    }
}

#[test]
fn siblings_have_distinct_names_folders_first() {
    let files = vec![entry("a/x.rs"), entry("b"), entry("a/z/w.rs"), entry("a/y.rs")];
    let forest = build(&files);
    let top: Vec<&str> = forest.iter().map(|n| n.name.as_str()).collect();
    assert_eq!(top, vec!["a", "b"]);
    let inside: Vec<&str> = forest[0].children.iter().map(|n| n.name.as_str()).collect();
    assert_eq!(inside, vec!["z", "x.rs", "y.rs"]);
}
