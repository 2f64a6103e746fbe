use lstr::entry::{EntryMeta, FileKind, TreeEntry, WalkedEntry};
use lstr::natural::compare_natural;
use lstr::order::{char_sort_priority, Order};
use lstr::sort::{
    compare_case_insensitive, compare_default_order, get_extension, is_dotfile, sort_entries,
    SortOptions, SortType,
};
use std::cmp::Ordering;

#[test]
fn test_case_insensitive_name_sorting() {
    let result = compare_case_insensitive("Apple", "banana");
    assert_eq!(result, Order::Less);
}

#[test]
fn test_case_sensitive_name_sorting() {
    let name_a = "Apple";
    let name_b = "banana";

    let result = name_a.cmp(name_b);
    assert_eq!(result, Ordering::Less);
    assert_eq!(compare_default_order("Apple", "banana"), Order::Less);
}

#[test]
fn test_natural_sorting() {
    let result = compare_natural("file1.txt", "file10.txt");
    assert_eq!(result, Order::Less);

    let lexicographic = "file1.txt".cmp("file10.txt");
    assert_eq!(lexicographic, Ordering::Less);

    let natural_result = compare_natural("file2.txt", "file10.txt");
    let lexicographic_result = "file2.txt".cmp("file10.txt");

    assert_eq!(natural_result, Order::Less);
    assert_eq!(lexicographic_result, Ordering::Greater);
}

#[test]
fn test_extension_extraction() {
    assert_eq!(get_extension("file.txt"), "txt");
    assert_eq!(get_extension("file.tar.gz"), "gz");
    assert_eq!(get_extension("file"), "");
    assert_eq!(get_extension(".hidden"), "");
}

#[test]
fn test_sort_options_default() {
    let options = SortOptions::default();
    assert_eq!(options.sort_type, SortType::Name);
    assert!(!options.directories_first);
    assert!(!options.case_sensitive);
    assert!(!options.natural_sort);
    assert!(!options.reverse);
    assert!(!options.dotfiles_first);
}

#[test]
fn test_reverse_sorting() {
    let normal = compare_case_insensitive("apple", "banana");
    assert_eq!(normal, Order::Less);
    assert_eq!(normal.reverse(), Order::Greater);
}

#[test]
fn test_default_sort_order() {
    assert_eq!(compare_default_order("1file", "Afile"), Order::Less);
    assert_eq!(compare_default_order("Afile", "afile"), Order::Less);
    assert_eq!(compare_default_order("afile", "zfile"), Order::Less);

    assert_eq!(compare_default_order("1file", "2file"), Order::Less);
    assert_eq!(compare_default_order("Afile", "Bfile"), Order::Less);
    assert_eq!(compare_default_order("afile", "bfile"), Order::Less);
}

#[test]
fn test_char_sort_priority() {
    assert_eq!(char_sort_priority('0'), 0);
    assert_eq!(char_sort_priority('9'), 0);
    assert_eq!(char_sort_priority('A'), 1);
    assert_eq!(char_sort_priority('Z'), 1);
    assert_eq!(char_sort_priority('a'), 2);
    assert_eq!(char_sort_priority('z'), 2);
    assert_eq!(char_sort_priority('_'), 3);
    assert_eq!(char_sort_priority('-'), 3);
}

#[test]
fn test_is_dotfile() {
    assert!(is_dotfile(".hidden"));
    assert!(is_dotfile(".git"));
    assert!(!is_dotfile("visible.txt"));
    assert!(!is_dotfile("normal"));
}

fn walked(path: &str, depth: usize, kind: FileKind, len: u64, modified: Option<i128>) -> TreeEntry {
    let name = path.rsplit('/').next().unwrap().to_string();
    TreeEntry::Walked(WalkedEntry {
        path: path.to_string(),
        depth,
        file_name: name,
        file_type: Some(kind),
        metadata: Some(EntryMeta { len, modified, mode: 0o644, kind }),
    })
}

fn file(path: &str, len: u64) -> TreeEntry {
    walked(path, 1, FileKind::Other, len, None)
}

fn dir(path: &str) -> TreeEntry {
    walked(path, 1, FileKind::Dir, 4096, None)
}

fn names(entries: &[TreeEntry]) -> Vec<String> {
    entries.iter().map(|e| e.file_name()).collect()
}

#[test]
fn sorts_case_insensitively_by_default() {
    let mut entries = vec![file("r/banana", 1), file("r/Cherry", 1), file("r/apple", 1)];
    sort_entries(&mut entries, &SortOptions::default());
    assert_eq!(names(&entries), vec!["apple", "banana", "Cherry"]);
}

#[test]
fn case_sensitive_puts_uppercase_first() {
    let mut entries = vec![file("r/banana", 1), file("r/Cherry", 1), file("r/apple", 1)];
    let options = SortOptions { case_sensitive: true, ..SortOptions::default() };
    sort_entries(&mut entries, &options);
    assert_eq!(names(&entries), vec!["Cherry", "apple", "banana"]);
}

#[test]
fn natural_sort_orders_numbers_by_value() {
    let mut entries = vec![file("r/file10", 1), file("r/file2", 1), file("r/file1", 1)];
    let options = SortOptions { natural_sort: true, ..SortOptions::default() };
    sort_entries(&mut entries, &options);
    assert_eq!(names(&entries), vec!["file1", "file2", "file10"]);
}

#[test]
fn size_sort_is_stable_and_reversible() {
    let mut entries = vec![file("r/a", 30), file("r/b", 10), file("r/c", 30), file("r/d", 20)];
    let options = SortOptions { sort_type: SortType::Size, ..SortOptions::default() };
    sort_entries(&mut entries, &options);
    assert_eq!(names(&entries), vec!["b", "d", "a", "c"]);

    let mut entries = vec![file("r/a", 30), file("r/b", 10), file("r/c", 30), file("r/d", 20)];
    let options = SortOptions { sort_type: SortType::Size, reverse: true, ..SortOptions::default() };
    sort_entries(&mut entries, &options);
    assert_eq!(names(&entries), vec!["a", "c", "d", "b"]);
}

#[test]
fn directories_first_then_names() {
    let mut entries = vec![file("r/a.txt", 1), dir("r/zdir"), file("r/b.txt", 1), dir("r/adir")];
    let options = SortOptions { directories_first: true, ..SortOptions::default() };
    sort_entries(&mut entries, &options);
    assert_eq!(names(&entries), vec!["adir", "zdir", "a.txt", "b.txt"]);
}

#[test]
fn dotfiles_first_orders_the_four_categories() {
    let mut entries = vec![file("r/file", 1), file("r/.dotfile", 1), dir("r/folder"), dir("r/.dotfolder")];
    let options = SortOptions { dotfiles_first: true, ..SortOptions::default() };
    sort_entries(&mut entries, &options);
    assert_eq!(names(&entries), vec![".dotfolder", "folder", ".dotfile", "file"]);
}

#[test]
fn modified_sort_puts_unknown_times_last() {
    let mut entries = vec![
        walked("r/late", 1, FileKind::Other, 1, Some(300)),
        walked("r/unknown", 1, FileKind::Other, 1, None),
        walked("r/early", 1, FileKind::Other, 1, Some(-5)),
    ];
    let options = SortOptions { sort_type: SortType::Modified, ..SortOptions::default() };
    sort_entries(&mut entries, &options);
    assert_eq!(names(&entries), vec!["early", "late", "unknown"]);
}

#[test]
fn extension_sort_falls_back_to_names() {
    let mut entries = vec![file("r/b.rs", 1), file("r/a.txt", 1), file("r/a.rs", 1), file("r/noext", 1)];
    let options = SortOptions { sort_type: SortType::Extension, ..SortOptions::default() };
    sort_entries(&mut entries, &options);
    assert_eq!(names(&entries), vec!["noext", "a.rs", "b.rs", "a.txt"]);
}

#[test]
fn case_insensitive_comparison_lowercases() {
    assert_eq!(compare_case_insensitive("B", "a"), Order::Greater);
    assert_eq!(compare_case_insensitive("ABC", "abc"), Order::Equal);
}

#[test]
fn default_order_puts_prefix_first() {
    assert_eq!(compare_default_order("abc", "abcd"), Order::Less);
    assert_eq!(compare_default_order("abc", "abc"), Order::Equal);
    assert_eq!(compare_default_order("a_", "aZ"), Order::Greater);
}

#[test]
fn sort_type_names() {
    assert_eq!(SortType::Name.name(), "name");
    assert_eq!(SortType::Size.name(), "size");
    assert_eq!(SortType::Modified.name(), "modified");
    assert_eq!(SortType::Extension.name(), "extension");
    assert_eq!(SortType::default(), SortType::Name);
}

#[test]
fn natural_sort_still_puts_directories_first() {
    let mut entries = vec![file("r/file2", 1), dir("r/dir10"), file("r/file10", 1), dir("r/dir2")];
    let options = SortOptions { natural_sort: true, directories_first: true, ..SortOptions::default() };
    sort_entries(&mut entries, &options);
    assert_eq!(names(&entries), vec!["dir2", "dir10", "file2", "file10"]);
    let mut entries = vec![file("r/f", 1), dir("r/.d"), file("r/.f", 1), dir("r/d")];
    let options = SortOptions { natural_sort: true, dotfiles_first: true, ..SortOptions::default() };
    sort_entries(&mut entries, &options);
    assert_eq!(names(&entries), vec![".d", "d", ".f", "f"]);
}
