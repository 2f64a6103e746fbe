use lstr::color::{colored_to_ratatui, ls_to_colored, ls_to_ratatui_style, LsColor, LsStyle, TermColor, TuiColor, TuiStyle};
use lstr::columns::{count_entries, footer, permissions_column, retain_dirs, size_column, tree_line, Annotations};
use lstr::entry::{EntryMeta, FileKind, TreeEntry, WalkedEntry};
use lstr::html::{file_item, join_parts, render_html, HTML_STYLE};
use lstr::json::{render_json, JsonValue};
use lstr::limits::{apply_display_limits, TreeNode};
use lstr::link::{hyperlink, linked_name};
use lstr::sort::{sort_entries_hierarchically, SortOptions};
use lstr::view::{build_tree_info, compute_cumulative_sizes, html_escape, summary_label};

fn walked(path: &str, depth: usize, dir: bool, len: u64) -> TreeEntry {
    let kind = if dir { FileKind::Dir } else { FileKind::Other };
    TreeEntry::Walked(WalkedEntry {
        path: path.to_string(),
        depth,
        file_name: path.rsplit('/').next().unwrap().to_string(),
        file_type: Some(kind),
        metadata: Some(EntryMeta { len, modified: None, mode: if dir { 0o755 } else { 0o644 }, kind }),
    })
}

fn sample() -> Vec<TreeEntry> {
    vec![
        walked("r/src", 1, true, 100),
        walked("r/src/main.rs", 2, false, 1000),
        walked("r/src/lib.rs", 2, false, 2000),
        walked("r/README.md", 1, false, 50),
    ]
}

fn no_annotations() -> Annotations {
    Annotations { show_size: false, show_permissions: false, du_sizes: None, git_marks: vec![] }
}

#[test]
fn tree_connectors_follow_siblings() {
    let info = build_tree_info(&[1, 2, 2, 1]);
    let got: Vec<(String, &str)> = info;
    assert_eq!(got[0], (String::new(), "├──"));
    assert_eq!(got[1], ("│   ".to_string(), "├──"));
    assert_eq!(got[2], ("│   ".to_string(), "└──"));
    assert_eq!(got[3], (String::new(), "└──"));
}

#[test]
fn tree_prefix_blank_under_last_ancestor() {
    let info = build_tree_info(&[1, 2, 3, 2]);
    assert_eq!(info[0].1, "└──");
    assert_eq!(info[1].0, "    ");
    assert_eq!(info[1].1, "├──");
    assert_eq!(info[2].0, "    │   ");
    assert_eq!(info[2].1, "└──");
    assert_eq!(info[3].0, "    ");
    assert_eq!(info[3].1, "└──");
    assert!(build_tree_info(&[]).is_empty());
}

#[test]
fn cumulative_sizes_roll_up() {
    let entries = sample();
    let (sizes, total) = compute_cumulative_sizes(&entries);
    assert_eq!(sizes, vec![3100, 1000, 2000, 50]);
    assert_eq!(total, 3150);
}

#[test]
fn summary_labels() {
    assert_eq!(summary_label(3, 0), "[+3 files]");
    assert_eq!(summary_label(1, 2), "[+1 file, +2 more]");
    assert_eq!(summary_label(0, 5), "[+5 more]");
    assert_eq!(summary_label(0, 0), "[]");
}

#[test]
fn html_escaping() {
    assert_eq!(html_escape("a<b>&\"c'"), "a&lt;b&gt;&amp;&quot;c&#39;");
    assert_eq!(html_escape("plain"), "plain");
}

#[test]
fn hierarchical_sort_keeps_children_under_parents() {
    let mut entries = vec![
        walked("r/zeta", 1, false, 1),
        walked("r/b/y", 2, false, 1),
        walked("r/alpha", 1, true, 1),
        walked("r/alpha/x", 2, false, 1),
        walked("r/b", 1, true, 1),
        walked("r/alpha/a", 2, false, 1),
    ];
    sort_entries_hierarchically(&mut entries, &SortOptions::default());
    let paths: Vec<&str> = entries.iter().map(|e| e.path().as_str()).collect();
    assert_eq!(paths, vec!["r/alpha", "r/alpha/a", "r/alpha/x", "r/b", "r/b/y", "r/zeta"]);
    let depths: Vec<usize> = entries.iter().map(|e| e.depth()).collect();
    assert_eq!(depths, vec![1, 2, 2, 1, 2, 1]);
    let info = build_tree_info(&depths);
    let lines: Vec<String> = info.iter().map(|(p, c)| format!("{p}{c}")).collect();
    assert_eq!(lines, vec!["├──", "│   ├──", "│   └──", "├──", "│   └──", "└──"]);
}

#[test]
fn hierarchical_sort_drops_orphans_and_reverses_siblings() {
    let mut entries = vec![
        walked("r/b", 1, true, 1),
        walked("r/missing/z", 2, false, 1),
        walked("r/b/y", 2, false, 1),
        walked("r/b/x", 2, false, 1),
        walked("r/a", 1, false, 1),
    ];
    let options = SortOptions { reverse: true, ..SortOptions::default() };
    sort_entries_hierarchically(&mut entries, &options);
    let paths: Vec<&str> = entries.iter().map(|e| e.path().as_str()).collect();
    assert_eq!(paths, vec!["r/b", "r/b/y", "r/b/x", "r/a"]);
}

#[test]
fn hierarchical_sort_ignores_input_order() {
    let spec: [(&str, usize, bool, u64); 6] = [
        ("r/zeta", 1, false, 1),
        ("r/b/y", 2, false, 1),
        ("r/alpha", 1, true, 1),
        ("r/alpha/x", 2, false, 1),
        ("r/b", 1, true, 1),
        ("r/alpha/a", 2, false, 1),
    ];
    let listed = |order: [usize; 6]| -> Vec<TreeEntry> {
        order.iter().map(|&i| walked(spec[i].0, spec[i].1, spec[i].2, spec[i].3)).collect()
    };
    let paths = |v: &Vec<TreeEntry>| v.iter().map(|e| e.path().clone()).collect::<Vec<String>>();
    let mut first = listed([0, 1, 2, 3, 4, 5]);
    let mut second = listed([5, 4, 3, 2, 1, 0]);
    let mut third = listed([3, 0, 5, 1, 4, 2]);
    sort_entries_hierarchically(&mut first, &SortOptions::default());
    sort_entries_hierarchically(&mut second, &SortOptions::default());
    sort_entries_hierarchically(&mut third, &SortOptions::default());
    assert_eq!(paths(&first), vec!["r/alpha", "r/alpha/a", "r/alpha/x", "r/b", "r/b/y", "r/zeta"]);
    assert_eq!(paths(&first), paths(&second));
    assert_eq!(paths(&first), paths(&third));
    let by_size = SortOptions { sort_type: lstr::sort::SortType::Size, ..SortOptions::default() };
    let mut size_a = vec![walked("r/big", 1, false, 9), walked("r/small", 1, false, 2)];
    let mut size_b = vec![walked("r/small", 1, false, 2), walked("r/big", 1, false, 9)];
    sort_entries_hierarchically(&mut size_a, &by_size);
    sort_entries_hierarchically(&mut size_b, &by_size);
    assert_eq!(paths(&size_a), paths(&size_b));
}

#[test]
fn hierarchical_natural_sort_ignores_input_order() {
    let spec: [(&str, usize, bool); 5] = [
        ("r/file10", 1, false),
        ("r/dir", 1, true),
        ("r/dir/v2", 2, false),
        ("r/file2", 1, false),
        ("r/dir/v11", 2, false),
    ];
    let listed = |order: [usize; 5]| -> Vec<TreeEntry> {
        order.iter().map(|&i| walked(spec[i].0, spec[i].1, spec[i].2, 1)).collect()
    };
    let paths = |v: &Vec<TreeEntry>| v.iter().map(|e| e.path().clone()).collect::<Vec<String>>();
    let natural = SortOptions { natural_sort: true, directories_first: true, ..SortOptions::default() };
    let mut first = listed([0, 1, 2, 3, 4]);
    let mut second = listed([4, 3, 2, 1, 0]);
    let mut third = listed([2, 0, 4, 1, 3]);
    sort_entries_hierarchically(&mut first, &natural);
    sort_entries_hierarchically(&mut second, &natural);
    sort_entries_hierarchically(&mut third, &natural);
    assert_eq!(paths(&first), vec!["r/dir", "r/dir/v2", "r/dir/v11", "r/file2", "r/file10"]);
    assert_eq!(paths(&first), paths(&second));
    assert_eq!(paths(&first), paths(&third));
}

fn node_text(n: &TreeNode) -> String {
    match n {
        TreeNode::Entry { entry, index } => format!("{}#{}", entry.path(), index),
        TreeNode::Summary { depth, hidden_files, hidden_items } => format!("summary@{depth}:{hidden_files}/{hidden_items}"),
    }
}

#[test]
fn display_limits_summarize_hidden_entries() {
    let entries = vec![
        walked("r/d", 1, true, 1),
        walked("r/d/a", 2, false, 1),
        walked("r/d/b", 2, false, 1),
        walked("r/d/e", 2, true, 1),
        walked("r/x", 1, false, 1),
        walked("r/y", 1, false, 1),
    ];
    let nodes = apply_display_limits(entries, Some(1), Some(2));
    let got: Vec<String> = nodes.iter().map(node_text).collect();
    assert_eq!(got, vec!["r/d#0", "r/d/e#3", "summary@2:2/0", "r/x#4", "summary@1:0/1"]);
}

#[test]
fn display_limits_off_keeps_everything() {
    let nodes = apply_display_limits(sample(), None, None);
    let got: Vec<String> = nodes.iter().map(node_text).collect();
    assert_eq!(got, vec!["r/src#0", "r/src/main.rs#1", "r/src/lib.rs#2", "r/README.md#3"]);
}

#[test]
fn columns_and_footer() {
    let entries = sample();
    assert_eq!(count_entries(&entries), (1, 3));
    let a = Annotations { show_size: true, show_permissions: true, du_sizes: Some(vec![3100, 1000, 2000, 50]), git_marks: vec![] };
    assert_eq!(size_column(&entries[0], 0, &a), " (3.0 KiB)");
    assert_eq!(size_column(&entries[3], 3, &a), " (50 B)");
    let no_du = Annotations { du_sizes: None, ..a };
    assert_eq!(size_column(&entries[0], 0, &no_du), "");
    assert_eq!(size_column(&entries[3], 3, &no_annotations()), "");
    let meta = EntryMeta { len: 0, modified: None, mode: 0o750, kind: FileKind::Dir };
    assert_eq!(permissions_column(Some(meta), true), "drwxr-x--- ");
    assert_eq!(permissions_column(None, true), "---------- ");
    assert_eq!(permissions_column(Some(meta), false), "");
    assert_eq!(footer(3, 8, None), "3 directories, 8 files");
    assert_eq!(footer(1, 0, Some(1536)), "1.5 KiB used in 1 directories, 0 files");
}

#[test]
fn html_page_structure() {
    let nodes = apply_display_limits(sample(), None, None);
    let a = Annotations { show_size: true, show_permissions: false, du_sizes: None, git_marks: vec![None, Some('M')] };
    let html = render_html("r", &nodes, 1, 3, &a, None);
    let expected = format!(
        "<!doctype html>\n<html lang=\"en\">\n<head>\n<meta charset=\"utf-8\">\n<title>r</title>\n{HTML_STYLE}\n</head>\n<body>\n<h1>r</h1>\n\
<ul>\n\
<li class=\"dir\"><details open><summary>src</summary>\n\
<ul>\n\
<li class=\"file\"><a href=\"src/main.rs\">main.rs</a> <span class=\"meta\">(1000 B, M)</span></li>\n\
<li class=\"file\"><a href=\"src/lib.rs\">lib.rs</a> <span class=\"meta\">(2.0 KiB)</span></li>\n\
</ul>\n\
</details></li>\n\
<li class=\"file\"><a href=\"README.md\">README.md</a> <span class=\"meta\">(50 B)</span></li>\n\
</ul>\n\
<p class=\"footer\">1 directories, 3 files</p>\n</body>\n</html>\n"
    );
    assert_eq!(html, expected);
}

#[test]
fn html_summaries_and_unrelated_paths() {
    let nodes = vec![
        TreeNode::Entry { entry: walked("/elsewhere/a&b", 1, false, 1), index: 0 },
        TreeNode::Summary { depth: 1, hidden_files: 2, hidden_items: 0 },
    ];
    let html = render_html("r", &nodes, 0, 1, &no_annotations(), Some(2048));
    assert!(html.contains("<ul>\n<li class=\"file\"><a href=\"/elsewhere/a&amp;b\">a&amp;b</a></li>\n<li class=\"meta\">[+2 files]</li>\n</ul>\n"));
    assert!(html.contains("<p class=\"footer\">2.0 KiB used in 0 directories, 1 files</p>"));
}

#[test]
fn html_file_items_and_joins() {
    assert_eq!(file_item("a b/c", "c<", ""), "<li class=\"file\"><a href=\"a b/c\">c&lt;</a></li>\n");
    assert_eq!(join_parts(&vec!["x".to_string(), "y".to_string(), "z".to_string()], ", "), "x, y, z");
    assert_eq!(join_parts(&vec![], ", "), "");
}

fn field<'a>(v: &'a JsonValue, key: &str) -> Option<&'a JsonValue> {
    match v {
        JsonValue::Object(members) => members.iter().find(|(k, _)| k == key).map(|(_, v)| v),
        _ => None,
    }
}

fn text(v: Option<&JsonValue>) -> Option<&str> {
    match v {
        Some(JsonValue::Text(s)) => Some(s.as_str()),
        _ => None,
    }
}

fn number(v: Option<&JsonValue>) -> Option<u64> {
    match v {
        Some(JsonValue::Number(n)) => Some(*n),
        _ => None,
    }
}

#[test]
fn json_document_structure() {
    let mut entries = sample();
    entries.push(walked("r/link", 1, false, 5));
    if let TreeEntry::Walked(w) = &mut entries[4] {
        w.file_type = Some(FileKind::Symlink);
    }
    let nodes = apply_display_limits(entries, None, Some(2));
    let a = Annotations { show_size: true, show_permissions: true, du_sizes: Some(vec![3100, 1000, 2000, 50, 5]), git_marks: vec![Some('A')] };
    let doc = render_json("r", &nodes, 1, 4, &a, Some(3155));
    assert_eq!(text(field(&doc, "path")), Some("r"));
    assert_eq!(text(field(&doc, "type")), Some("directory"));
    let report = field(&doc, "report").unwrap();
    assert_eq!(number(field(report, "directories")), Some(1));
    assert_eq!(number(field(report, "files")), Some(4));
    assert_eq!(number(field(report, "total_size")), Some(3155));
    let contents = match field(&doc, "contents") {
        Some(JsonValue::Array(items)) => items,
        _ => panic!("contents missing"),
    };
    assert_eq!(contents.len(), 3);
    let src = &contents[0];
    assert_eq!(text(field(src, "name")), Some("src"));
    assert_eq!(text(field(src, "type")), Some("directory"));
    assert_eq!(number(field(src, "size")), Some(3100));
    assert_eq!(text(field(src, "permissions")), Some("drwxr-xr-x"));
    assert_eq!(text(field(src, "git_status")), Some("A"));
    match field(src, "contents") {
        Some(JsonValue::Array(items)) => {
            assert_eq!(items.len(), 2);
            assert_eq!(text(field(&items[1], "name")), Some("lib.rs"));
            assert_eq!(number(field(&items[1], "size")), Some(2000));
            assert!(field(&items[1], "git_status").is_none());
        }
        _ => panic!("directory without contents"),
    }
    assert_eq!(text(field(&contents[1], "type")), Some("file"));
    assert_eq!(text(field(&contents[2], "type")), Some("summary"));
    assert_eq!(number(field(&contents[2], "hidden_items")), Some(1));
    assert!(field(&contents[2], "hidden_files").is_none());
}

#[test]
fn json_symlink_type() {
    let mut e = walked("r/link", 1, false, 5);
    if let TreeEntry::Walked(w) = &mut e {
        w.file_type = Some(FileKind::Symlink);
    }
    let nodes = apply_display_limits(vec![e], None, None);
    let doc = render_json("r", &nodes, 0, 1, &no_annotations(), None);
    let contents = match field(&doc, "contents") {
        Some(JsonValue::Array(items)) => items,
        _ => panic!("contents missing"),
    };
    assert_eq!(text(field(&contents[0], "type")), Some("symlink"));
    assert!(field(&contents[0], "size").is_none());
    let report = field(&doc, "report").unwrap();
    assert!(field(report, "total_size").is_none());
}

#[test]
fn color_conversions() {
    assert_eq!(ls_to_colored(LsColor::BrightRed), TermColor::BrightRed);
    assert_eq!(ls_to_colored(LsColor::Fixed(42)), TermColor::White);
    assert_eq!(ls_to_colored(LsColor::RGB(1, 2, 3)), TermColor::TrueColor { r: 1, g: 2, b: 3 });
    assert_eq!(colored_to_ratatui(TermColor::BrightBlack), TuiColor::Gray);
    assert_eq!(colored_to_ratatui(TermColor::BrightWhite), TuiColor::White);
    assert_eq!(colored_to_ratatui(TermColor::AnsiColor(7)), TuiColor::Indexed(7));
    assert_eq!(colored_to_ratatui(TermColor::TrueColor { r: 9, g: 8, b: 7 }), TuiColor::Rgb(9, 8, 7));
    let style = ls_to_ratatui_style(LsStyle { foreground: Some(LsColor::Fixed(200)), bold: true, italic: false, underline: true });
    assert_eq!(style, TuiStyle { fg: Some(TuiColor::Indexed(200)), bold: true, italic: false, underlined: true });
    let plain = ls_to_ratatui_style(LsStyle { foreground: None, bold: false, italic: true, underline: false });
    assert_eq!(plain, TuiStyle { fg: None, bold: false, italic: true, underlined: false });
    assert_eq!(ls_to_ratatui_style(LsStyle { foreground: Some(LsColor::BrightWhite), bold: false, italic: false, underline: false }).fg, Some(TuiColor::White));
}

#[test]
fn conversions_agree_through_classic_colors() {
    for c in [LsColor::Black, LsColor::White, LsColor::BrightBlack, LsColor::BrightCyan, LsColor::BrightWhite, LsColor::RGB(4, 5, 6)] {
        assert_eq!(colored_to_ratatui(ls_to_colored(c)), ls_to_ratatui_style(LsStyle { foreground: Some(c), bold: false, italic: false, underline: false }).fg.unwrap());
    }
}

#[test]
fn hyperlinks() {
    assert_eq!(hyperlink("file:///tmp/a", "a"), "\x1B]8;;file:///tmp/a\x07a\x1B]8;;\x07");
    assert_eq!(linked_name("/tmp/a b", "ab"), "\x1B]8;;file:///tmp/a%20b\x07ab\x1B]8;;\x07");
    assert_eq!(linked_name("relative/path", "x"), "x");
}

fn count_json_nodes(items: &[JsonValue]) -> usize {
    items
        .iter()
        .map(|v| {
            1 + match field(v, "contents") {
                Some(JsonValue::Array(children)) => count_json_nodes(children),
                _ => 0,
            }
        })
        .sum()
}

#[test]
fn every_node_of_a_walk_is_rendered() {
    let mut entries = vec![
        walked("r/z.txt", 1, false, 1),
        walked("r/d/e/f.txt", 3, false, 1),
        walked("r/d", 1, true, 1),
        walked("r/d/e", 2, true, 1),
        walked("r/d/a.txt", 2, false, 1),
        walked("r/d/b.txt", 2, false, 1),
        walked("r/a.txt", 1, false, 1),
    ];
    sort_entries_hierarchically(&mut entries, &SortOptions::default());
    for (fd, mi) in [(None, None), (Some(2), None), (None, Some(1)), (Some(1), Some(2))] {
        let nodes = apply_display_limits(entries.iter().map(|e| match e {
            TreeEntry::Walked(w) => walked(&w.path, w.depth, w.file_type == Some(FileKind::Dir), 1),
            TreeEntry::Listed(_) => unreachable!(),
        }).collect(), fd, mi);
        let html = render_html("r", &nodes, 2, 5, &no_annotations(), None);
        assert_eq!(html.matches("<li").count(), nodes.len());
        let doc = render_json("r", &nodes, 2, 5, &no_annotations(), None);
        match field(&doc, "contents") {
            Some(JsonValue::Array(items)) => assert_eq!(count_json_nodes(items), nodes.len()),
            _ => panic!("contents missing"),
        }
    }
}

#[test]
fn max_items_caps_each_listing() {
    let entries = vec![
        walked("r/a", 1, true, 1),
        walked("r/a/x", 2, false, 1),
        walked("r/a/y", 2, false, 1),
        walked("r/a/z", 2, false, 1),
        walked("r/b", 1, false, 1),
        walked("r/c", 1, false, 1),
    ];
    let nodes = apply_display_limits(entries, None, Some(1));
    let got: Vec<String> = nodes.iter().map(node_text).collect();
    assert_eq!(got, vec!["r/a#0", "r/a/x#1", "summary@2:0/2", "summary@1:0/2"]);
}

#[test]
fn dirs_only_and_line_assembly() {
    let mut entries = sample();
    retain_dirs(&mut entries);
    let paths: Vec<&str> = entries.iter().map(|e| e.path().as_str()).collect();
    assert_eq!(paths, vec!["r/src"]);
    assert_eq!(tree_line("drwx ", "│   ", "└──", "name", " (1 B)"), "drwx │   └── name (1 B)");
}

fn unescape(t: &str) -> String {
    t.replace("&lt;", "<").replace("&gt;", ">").replace("&quot;", "\"").replace("&#39;", "'").replace("&amp;", "&")
}

#[test]
fn html_escape_round_trips() {
    for s in ["a<b>&\"c'", "&amp;", "plain", "&lt;&#39;", ""] {
        let e = html_escape(s);
        assert!(!e.contains('<') && !e.contains('>') && !e.contains('"') && !e.contains('\''));
        assert_eq!(unescape(&e), s);
    }
}
