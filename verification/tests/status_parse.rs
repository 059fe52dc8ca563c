use laziergit::status::{parse, parse_text, Kind};

#[test]
fn parses_branch_ordinary_and_untracked() {
    let raw = b"# branch.head main\x00# branch.ab +1 -2\x001 .M N... 100644 100644 100644 aaaa bbbb src/main.rs\x00? new file.txt\x00";
    let status = parse(raw);

    assert_eq!(status.branch.name, "main");
    assert_eq!(status.branch.ahead, 1);
    assert_eq!(status.branch.behind, 2);
    assert_eq!(status.files.len(), 2);

    let modified = &status.files[0];
    assert_eq!(modified.path, "src/main.rs");
    assert!(modified.unstaged && !modified.staged);
    assert_eq!(modified.kind, Kind::Modified);

    let untracked = &status.files[1];
    assert_eq!(untracked.path, "new file.txt");
    assert!(untracked.untracked);
}

#[test]
fn parses_staged_and_rename_with_spaces() {
    let raw = b"1 A. N... 000000 100644 100644 0000 cccc added.rs\x002 R. N... 100644 100644 100644 dddd eeee R100 new name.rs\x00old name.rs\x00";
    let status = parse(raw);

    assert_eq!(status.files.len(), 2);

    let added = &status.files[0];
    assert_eq!(added.path, "added.rs");
    assert!(added.staged && !added.unstaged);
    assert_eq!(added.kind, Kind::Added);

    let renamed = &status.files[1];
    assert_eq!(renamed.path, "new name.rs");
    assert_eq!(renamed.kind, Kind::Renamed);
}

#[test]
fn parses_unmerged_conflict_with_spaces() {
    let raw = b"u UU N... 100644 100644 100644 100644 aaaa bbbb cccc conflicted file.txt\x00";
    let status = parse(raw);

    assert_eq!(status.files.len(), 1);
    assert_eq!(status.files[0].path, "conflicted file.txt");
    assert_eq!(status.files[0].kind, Kind::Conflicted);
}

#[test]
fn upstream_and_unparsable_counts() {
    let status = parse_text("# branch.upstream origin/main\0# branch.ab +x -3\0");
    assert_eq!(status.branch.upstream.as_deref(), Some("origin/main"));
    assert_eq!(status.branch.ahead, 0);
    assert_eq!(status.branch.behind, 3);
    assert!(status.files.is_empty());
}

#[test]
fn invalid_utf8_becomes_replacement_character() {
    let status = parse(b"? bad\xffname\x00");
    assert_eq!(status.files[0].path, "bad\u{fffd}name");
    assert_eq!(status.files[0].kind.letter(), '?');
}

#[test]
fn short_record_has_empty_path() {
    let status = parse_text("1 M.\0");
    assert_eq!(status.files.len(), 1);
    assert_eq!(status.files[0].path, "");
    assert!(status.files[0].staged);
    assert_eq!(status.files[0].kind, Kind::Modified);
}
