use laziergit::diff::{gutter_width, join_chunks, parse, parse_checked, Kind};

#[test]
fn pairs_equal_runs_and_stacks_unequal() {
    let diff = "diff --git a/x b/x\n--- a/x\n+++ b/x\n@@ -1,3 +1,4 @@\n a\n-b\n+B\n+C\n c\n";
    let rows = parse(diff, false);

    // hunk, context a, [del b | empty], [empty | add B], [empty | add C], context c
    assert_eq!(rows.len(), 6);
    assert_eq!(rows[0].left.kind, Kind::Hunk);

    assert_eq!(rows[1].left.kind, Kind::Context);
    assert_eq!(rows[1].left.num, Some(1));
    assert_eq!(rows[1].left.text, "a");

    assert_eq!(rows[2].left.kind, Kind::Del);
    assert_eq!(rows[2].left.text, "b");
    assert_eq!(rows[2].right.kind, Kind::Empty);

    assert_eq!(rows[3].right.kind, Kind::Add);
    assert_eq!(rows[3].right.text, "B");
    assert_eq!(rows[4].right.text, "C");

    assert_eq!(rows[5].left.num, Some(3));
    assert_eq!(rows[5].right.num, Some(4));
}

#[test]
fn zips_balanced_replacement_side_by_side() {
    let diff = "@@ -5,1 +5,1 @@\n-old line\n+new line\n";
    let rows = parse(diff, false);

    assert_eq!(rows.len(), 2);
    let change = &rows[1];
    assert_eq!(change.left.kind, Kind::Del);
    assert_eq!(change.left.num, Some(5));
    assert_eq!(change.left.text, "old line");
    assert_eq!(change.right.kind, Kind::Add);
    assert_eq!(change.right.num, Some(5));
    assert_eq!(change.right.text, "new line");
}

#[test]
fn multi_file_emits_banners_only_when_enabled() {
    let diff = "diff --git a/x.rs b/x.rs\n--- a/x.rs\n+++ b/x.rs\n@@ -1 +1 @@\n-a\n+b\ndiff --git a/y.rs b/y.rs\n--- a/y.rs\n+++ b/y.rs\n@@ -1 +1 @@\n-c\n+d\n";

    let with = parse(diff, true);
    let banners: Vec<&str> = with
        .iter()
        .filter(|r| r.left.kind == Kind::File)
        .map(|r| r.left.text.as_str())
        .collect();
    assert_eq!(banners, vec!["x.rs", "y.rs"]);

    let without = parse(diff, false);
    assert!(without.iter().all(|r| r.left.kind != Kind::File));
}

#[test]
fn tabs_expand_to_stops_and_cr_is_dropped() {
    let rows = parse("@@ -1 +1 @@\n a\tb\r\n-\tx\n+ab\tc\n", false);
    assert_eq!(rows[1].left.text, "a   b");
    assert_eq!(rows[2].left.text, "    x");
    assert_eq!(rows[2].right.text, "ab  c");
}

#[test]
fn binary_notice_before_any_hunk() {
    let rows = parse("diff --git a/p.png b/p.png\nBinary files a/p.png and b/p.png differ\n", false);
    assert_eq!(rows.len(), 1);
    assert_eq!(rows[0].left.kind, Kind::Hunk);
    assert_eq!(rows[0].left.text, "Binary file differs");
}

#[test]
fn no_newline_marker_is_skipped_and_blank_is_context() {
    let rows = parse("@@ -7,2 +9,2 @@\n-x\n\\ No newline at end of file\n+y\n\n", false);
    assert_eq!(rows.len(), 3);
    assert_eq!(rows[1].left.num, Some(7));
    assert_eq!(rows[1].right.num, Some(9));
    assert_eq!(rows[2].left.kind, Kind::Context);
    assert_eq!(rows[2].left.num, Some(8));
    assert_eq!(rows[2].right.num, Some(10));
    assert_eq!(rows[2].left.text, "");
}

#[test]
fn malformed_hunk_header_is_ignored() {
    let rows = parse("@@ -x +1 @@\n+a\n", false);
    assert!(rows.is_empty());
}

#[test]
fn gutter_fits_largest_number_between_two_and_five() {
    assert_eq!(gutter_width(&[]), 2);
    let rows = parse("@@ -123 +4567 @@\n x\n", false);
    assert_eq!(gutter_width(&rows), 4);
    let rows = parse("@@ -1234567 +1 @@\n x\n", false);
    assert_eq!(gutter_width(&rows), 5);
}

#[test]
fn line_numbers_past_u32_are_refused() {
    assert!(parse_checked("@@ -4294967295 +1 @@\n a\n a\n", false).is_none());
    assert!(parse_checked("@@ -4294967294 +1 @@\n a\n", false).is_some());
    assert_eq!(parse_checked("@@ -1 +1 @@\n-a\n+b\n", false).map(|r| r.len()), Some(2));
}

#[test]
fn chunks_join_with_line_breaks() {
    let joined = join_chunks(&vec!["a\nb".to_string(), String::new(), "c\n".to_string(), "d".to_string()]);
    assert_eq!(joined, "a\nb\nc\nd\n");
}

#[test]
fn banners_only_add_rows() {
    let diff = "diff --git a/x.rs b/x.rs\n@@ -1 +1 @@\n-a\n+b\ndiff --git a/y b/y\nBinary files a/y and b/y differ\n";
    let with = parse(diff, true);
    let without = parse(diff, false);
    let kept: Vec<(Kind, Option<u32>, String)> = with
        .iter()
        .filter(|r| r.left.kind != Kind::File)
        .map(|r| (r.left.kind, r.left.num, r.left.text.clone()))
        .collect();
    let plain: Vec<(Kind, Option<u32>, String)> =
        without.iter().map(|r| (r.left.kind, r.left.num, r.left.text.clone())).collect();
    assert_eq!(kept, plain);
    let banners: Vec<&str> = with
        .iter()
        .filter(|r| r.left.kind == Kind::File)
        .map(|r| r.right.text.as_str())
        .collect();
    assert_eq!(banners, vec!["x.rs", "y"]);
}
