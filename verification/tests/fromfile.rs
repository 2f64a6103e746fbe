use lstr::entry::{parse_fromfile, TreeEntry};
use lstr::sort::{sort_entries_hierarchically, SortOptions};
use std::path::Path;

fn parse(lines: &[&str], root: &str, all: bool, max_depth: Option<usize>) -> Vec<TreeEntry> {
    let input = lines.join("\n");
    let lines: Vec<String> = input.lines().map(String::from).collect();
    parse_fromfile(&lines, root, all, max_depth)
}

fn find<'a>(entries: &'a [TreeEntry], rel: &str) -> Option<&'a TreeEntry> {
    entries.iter().find(|e| Path::new(e.path().as_str()).ends_with(rel))
}

#[test]
fn dir_inferred_from_trailing_slash() {
    let entries = parse(&["a/"], "/root", false, None);
    assert_eq!(entries.len(), 1);
    assert!(find(&entries, "a").unwrap().is_dir());
}

#[test]
fn dir_inferred_from_ancestor_prefix() {
    let entries = parse(&["a/b.txt"], "/root", false, None);
    assert_eq!(entries.len(), 2);
    assert!(find(&entries, "a").unwrap().is_dir());
    assert!(!find(&entries, "a/b.txt").unwrap().is_dir());
}

#[test]
fn leaf_dir_flag_does_not_downgrade_ancestor_either_order() {
    let forward = parse(&["a/b.txt", "a/"], "/root", false, None);
    assert!(find(&forward, "a").unwrap().is_dir());

    let reverse = parse(&["a/", "a/b.txt"], "/root", false, None);
    assert!(find(&reverse, "a").unwrap().is_dir());
}

#[test]
fn ancestor_wins_over_contradictory_bare_leaf() {
    let entries = parse(&["a.txt", "a.txt/nested.txt"], "/root", false, None);
    assert!(find(&entries, "a.txt").unwrap().is_dir());
    assert!(!find(&entries, "a.txt/nested.txt").unwrap().is_dir());
}

#[test]
fn hidden_components_dropped_entirely_when_not_all() {
    let entries = parse(&[".git/config"], "/root", false, None);
    assert!(entries.is_empty());

    let entries = parse(&["visible/.hidden/file.txt"], "/root", false, None);
    assert!(entries.is_empty());
}

#[test]
fn hidden_components_kept_when_all() {
    let entries = parse(&[".git/config"], "/root", true, None);
    assert_eq!(entries.len(), 2);
    assert!(find(&entries, ".git").unwrap().is_dir());
    assert!(!find(&entries, ".git/config").unwrap().is_dir());
}

#[test]
fn max_depth_truncates_like_a_real_walk() {
    let entries = parse(&["a/b/c.txt"], "/root", false, Some(2));
    assert_eq!(entries.len(), 2);
    assert!(find(&entries, "a").unwrap().is_dir());
    assert!(find(&entries, "a/b").unwrap().is_dir());

    let entries = parse(&["a/b/c.txt"], "/root", false, Some(3));
    assert_eq!(entries.len(), 3);
    assert!(!find(&entries, "a/b/c.txt").unwrap().is_dir());
}

#[test]
fn blank_lines_crlf_dot_slash_and_double_slash_are_handled() {
    let entries = parse(&["", "./a//b.txt\r", ""], "/root", false, None);
    assert_eq!(entries.len(), 2);
    assert!(find(&entries, "a").unwrap().is_dir());
    assert!(!find(&entries, "a/b.txt").unwrap().is_dir());
}

#[test]
fn duplicate_lines_deduplicate() {
    let entries = parse(&["a/b.txt", "a/b.txt"], "/root", false, None);
    assert_eq!(entries.len(), 2);
}

#[test]
fn entries_are_rooted_at_the_given_path() {
    let entries = parse(&["a/b.txt"], "/root", false, None);
    let leaf = find(&entries, "a/b.txt").unwrap();
    assert_eq!(Path::new(leaf.path().as_str()), Path::new("/root/a/b.txt"));
}

#[test]
fn depths_count_the_kept_components() {
    let entries = parse(&["a/b/c.txt"], "/root", false, None);
    assert_eq!(find(&entries, "a").unwrap().depth(), 1);
    assert_eq!(find(&entries, "a/b").unwrap().depth(), 2);
    assert_eq!(find(&entries, "a/b/c.txt").unwrap().depth(), 3);
}

#[test]
fn entries_come_in_first_occurrence_order() {
    let entries = parse(&["b.txt", "a/x", "b.txt"], "/root", false, None);
    let paths: Vec<&str> = entries.iter().map(|e| e.path().as_str()).collect();
    assert_eq!(paths, vec!["/root/b.txt", "/root/a", "/root/a/x"]);
}

#[test]
fn listed_names_are_final_components() {
    let entries = parse(&["a/b.txt"], "/root", false, None);
    assert_eq!(find(&entries, "a/b.txt").unwrap().file_name(), "b.txt");
    assert_eq!(find(&entries, "a").unwrap().file_name(), "a");
}

#[test]
fn max_depth_zero_keeps_nothing() {
    let entries = parse(&["a/b.txt", "c"], "/root", false, Some(0));
    assert!(entries.is_empty());
}

#[test]
fn listing_rebuilds_depth_first_regardless_of_line_order() {
    for lines in [
        vec!["b/y.txt", "a/x.txt", "b/"],
        vec!["b/", "a/x.txt", "b/y.txt"],
        vec!["a/x.txt", "b/y.txt"],
    ] {
        let mut entries = parse(&lines, "/root", false, None);
        let before = entries.len();
        sort_entries_hierarchically(&mut entries, &SortOptions::default());
        assert_eq!(entries.len(), before);
        let paths: Vec<&str> = entries.iter().map(|e| e.path().as_str()).collect();
        assert_eq!(paths, vec!["/root/a", "/root/a/x.txt", "/root/b", "/root/b/y.txt"]);
        let depths: Vec<usize> = entries.iter().map(|e| e.depth()).collect();
        assert_eq!(depths, vec![1, 2, 1, 2]);
    }
}
