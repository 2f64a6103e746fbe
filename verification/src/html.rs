//! The HTML rendering: a self-contained directory index in which
//! directories are collapsible `<details>` elements and files are links
//! relative to the walk root.

use vstd::prelude::*;
use crate::columns::{Annotations, shown_size, shown_permissions, mark_at, du_at, footer, footer_text};
use crate::entry::TreeEntry;
use crate::limits::{TreeNode, node_depths, only_dirs_nest, level_end, lemma_level_end, lemma_level_end_skip};
use crate::view::depth_first;
use crate::text::{push_char, push_str};
use crate::utils::{format_size, size_text, permission_text};
use crate::view::{html_escape, html_escaped, escape_char, summary_label, summary_text};

verus! {

/// The page's style sheet.
pub const HTML_STYLE: &'static str = "<style>
  :root { color-scheme: light dark; }
  body { font-family: ui-monospace, SFMono-Regular, Menlo, Consolas, monospace; margin: 2rem; line-height: 1.5; }
  h1 { font-size: 1.1rem; word-break: break-all; }
  ul { list-style: none; padding-left: 1.25rem; margin: 0; }
  li { white-space: nowrap; }
  li.dir > details > summary { cursor: pointer; font-weight: 600; }
  li.file a { text-decoration: inherit; color: inherit; }
  li.file a:hover { text-decoration: underline; }
  .meta { opacity: 0.6; font-weight: normal; font-size: 0.9em; }
  .footer { opacity: 0.6; margin-top: 1rem; }
</style>";

/// The result of `Path::strip_prefix` on `path` with `base`, as text:
/// the rest of `path` after the components of `base`, when `base`'s
/// components begin `path`'s.
pub uninterp spec fn stripped_path(path: Seq<char>, base: Seq<char>) -> Option<Seq<char>>;

/// `path` relative to `base`.
///
/// Trusted: wraps `std::path::Path::strip_prefix`, which is purely
/// lexical, so its result depends on the two strings alone; the
/// component matching it performs is not restated.
#[verifier::external_body]
fn strip_path_prefix(path: &str, base: &str) -> (r: Option<String>)
    ensures
        match r {
            Some(s) => stripped_path(path@, base@) == Some(s@),
            None => stripped_path(path@, base@) is None,
        },
{
    std::path::Path::new(path).strip_prefix(base).ok().map(|p| p.to_string_lossy().into_owned())
}

/// Decodes the five entities `html_escape` writes (`&amp;`, `&lt;`,
/// `&gt;`, `&quot;`, `&#39;`) in one left-to-right pass, copying every
/// other character.
pub open spec fn html_unescaped(t: Seq<char>) -> Seq<char>
    decreases t.len(),
{
    if t.len() == 0 {
        Seq::empty()
    } else if t.len() >= 5 && t.take(5) == seq!['&', 'a', 'm', 'p', ';'] {
        seq!['&'] + html_unescaped(t.skip(5))
    } else if t.len() >= 4 && t.take(4) == seq!['&', 'l', 't', ';'] {
        seq!['<'] + html_unescaped(t.skip(4))
    } else if t.len() >= 4 && t.take(4) == seq!['&', 'g', 't', ';'] {
        seq!['>'] + html_unescaped(t.skip(4))
    } else if t.len() >= 6 && t.take(6) == seq!['&', 'q', 'u', 'o', 't', ';'] {
        seq!['"'] + html_unescaped(t.skip(6))
    } else if t.len() >= 5 && t.take(5) == seq!['&', '#', '3', '9', ';'] {
        seq!['\''] + html_unescaped(t.skip(5))
    } else {
        seq![t[0]] + html_unescaped(t.skip(1))
    }
}

proof fn lemma_html_escaped_front(s: Seq<char>)
    requires
        s.len() > 0,
    ensures
        html_escaped(s) == escape_char(s[0]) + html_escaped(s.drop_first()),
    decreases s.len(),
{
    if s.len() == 1 {
        assert(s.drop_last() =~= Seq::<char>::empty());
        assert(s.drop_first() =~= Seq::<char>::empty());
        assert(html_escaped(s) =~= escape_char(s[0]) + html_escaped(s.drop_first()));
    } else {
        lemma_html_escaped_front(s.drop_last());
        assert(s.drop_last().drop_first() =~= s.drop_first().drop_last());
        assert(s.drop_first().last() == s.last());
        assert(s.drop_last()[0] == s[0]);
        assert(html_escaped(s) =~= escape_char(s[0]) + html_escaped(s.drop_first()));
    }
}

/// Escaping round-trips: decoding the entities of the escaped text gives
/// back the text exactly.
pub proof fn lemma_html_escape_round_trip(s: Seq<char>)
    ensures
        html_unescaped(html_escaped(s)) == s,
    decreases s.len(),
{
    if s.len() == 0 {
        assert(html_escaped(s) =~= Seq::<char>::empty());
    } else {
        lemma_html_escaped_front(s);
        lemma_html_escape_round_trip(s.drop_first());
        let c = s[0];
        let e = escape_char(c);
        let rest = html_escaped(s.drop_first());
        let t = e + rest;
        assert(t.take(e.len() as int) =~= e);
        assert(t.skip(e.len() as int) =~= rest);
        if c == '&' || c == '<' || c == '>' || c == '"' || c == '\'' {
            assert(t.take(e.len() as int) == e);
        } else {
            assert(t[0] == c);
            assert(c != '&');
        }
        assert(s =~= seq![c] + s.drop_first());
    }
}

/// Escaped text holds no markup character: no `<`, `>`, `"` or `'`, so it
/// is safe in element text and in quoted attributes.
pub proof fn lemma_html_escape_no_markup(s: Seq<char>)
    ensures
        forall|k: int| 0 <= k < html_escaped(s).len() ==> {
            let c = #[trigger] html_escaped(s)[k];
            c != '<' && c != '>' && c != '"' && c != '\''
        },
    decreases s.len(),
{
    if s.len() > 0 {
        lemma_html_escape_no_markup(s.drop_last());
        let pre = html_escaped(s.drop_last());
        let e = escape_char(s.last());
        assert forall|k: int| 0 <= k < html_escaped(s).len() implies {
            let c = #[trigger] html_escaped(s)[k];
            c != '<' && c != '>' && c != '"' && c != '\''
        } by {
            if k < pre.len() {
                assert(html_escaped(s)[k] == pre[k]);
            } else {
                assert(html_escaped(s)[k] == e[k - pre.len()]);
            }
        }
    }
}

/// The parts joined with a separator between neighbours.
pub open spec fn joined(parts: Seq<Seq<char>>, sep: Seq<char>) -> Seq<char>
    decreases parts.len(),
{
    if parts.len() == 0 {
        Seq::empty()
    } else if parts.len() == 1 {
        parts[0]
    } else {
        joined(parts.drop_last(), sep) + sep + parts.last()
    }
}

/// Joins strings with a separator, as `[String]::join` does.
pub fn join_parts(parts: &Vec<String>, sep: &str) -> (r: String)
    ensures r@ == joined(parts.deep_view(), sep@),
{
    let ghost ps = parts.deep_view();
    let mut out = String::new();
    let mut i: usize = 0;
    proof {
        assert(ps.take(0) =~= Seq::<Seq<char>>::empty());
    }
    while i < parts.len()
        invariant
            0 <= i <= parts@.len(),
            ps == parts.deep_view(),
            ps.len() == parts@.len(),
            out@ == joined(ps.take(i as int), sep@),
        decreases parts.len() - i,
    {
        if i > 0 {
            push_str(&mut out, sep);
        }
        push_str(&mut out, parts[i].as_str());
        proof {
            assert(ps.take(i + 1).drop_last() =~= ps.take(i as int));
            assert(ps[i as int] == parts@[i as int]@);
            if i == 0 {
                assert(out@ =~= ps.take(1)[0]);
            }
        }
        i = i + 1;
    }
    proof {
        assert(ps.take(ps.len() as int) =~= ps);
    }
    out
}

/// The annotations of an entry in HTML output, in order: permissions,
/// size, git status.
pub open spec fn meta_parts(e: TreeEntry, index: int, a: Annotations) -> Seq<Seq<char>> {
    let perms = match shown_permissions(e, a) {
        Some(p) => seq![p],
        None => Seq::empty(),
    };
    let size = match shown_size(e, index, a) {
        Some(s) => seq![size_text(s as nat)],
        None => Seq::empty(),
    };
    let git = match mark_at(a, index) {
        Some(c) => seq![seq![c]],
        None => Seq::empty(),
    };
    perms + size + git
}

/// What an entry's HTML annotation holds, as `-p`, `-s` and git status
/// ask: the permission string first (when permissions are shown and the
/// entry's metadata is known), then the size (a file's own length, or a
/// directory's cumulative size under `--du`), then the git status
/// character last; nothing at all when none of them is asked for.
pub proof fn lemma_meta_parts_contents(e: TreeEntry, index: int, a: Annotations)
    ensures
        a.show_permissions && e.metadata_view() is Some ==> meta_parts(e, index, a).len() >= 1
            && meta_parts(e, index, a)[0] == permission_text(e.metadata_view()->0),
        a.show_size && !e.is_dir_view() && e.metadata_view() is Some
            ==> meta_parts(e, index, a).contains(size_text(e.metadata_view()->0.len as nat)),
        a.show_size && e.is_dir_view() && du_at(a, index) is Some
            ==> meta_parts(e, index, a).contains(size_text(du_at(a, index)->0 as nat)),
        mark_at(a, index) is Some ==> meta_parts(e, index, a).len() >= 1
            && meta_parts(e, index, a).last() == seq![mark_at(a, index)->0],
        !a.show_permissions && !a.show_size && mark_at(a, index) is None ==> meta_parts(e, index, a).len() == 0,
        meta_parts(e, index, a).len()
            == (if a.show_permissions && e.metadata_view() is Some { 1int } else { 0int })
            + (if a.show_size && (if e.is_dir_view() { du_at(a, index) is Some } else { e.metadata_view() is Some }) { 1int } else { 0int })
            + (if mark_at(a, index) is Some { 1int } else { 0int }),
{
    let m = meta_parts(e, index, a);
    if a.show_size && !e.is_dir_view() && e.metadata_view() is Some {
        let k = if a.show_permissions { 1int } else { 0int };
        assert(m[k] == size_text(e.metadata_view()->0.len as nat));
    }
    if a.show_size && e.is_dir_view() && du_at(a, index) is Some {
        let k = if a.show_permissions && e.metadata_view() is Some { 1int } else { 0int };
        assert(m[k] == size_text(du_at(a, index)->0 as nat));
    }
}

/// The annotation span after an entry's name, or nothing when it has no
/// annotations.
pub open spec fn meta_html(parts: Seq<Seq<char>>) -> Seq<char> {
    if parts.len() == 0 {
        Seq::empty()
    } else {
        " <span class=\"meta\">("@ + html_escaped(joined(parts, ", "@)) + ")</span>"@
    }
}

fn entry_meta(e: &TreeEntry, index: usize, a: &Annotations) -> (r: String)
    ensures r@ == meta_html(meta_parts(*e, index as int, *a)),
{
    let mut parts: Vec<String> = Vec::new();
    match a.permissions_of(e) {
        Some(p) => parts.push(p),
        None => {}
    }
    match a.size_of(e, index) {
        Some(s) => parts.push(format_size(s)),
        None => {}
    }
    match a.git_mark(index) {
        Some(c) => {
            let mut g = String::new();
            push_char(&mut g, c);
            parts.push(g);
        }
        None => {}
    }
    assert(parts.deep_view() =~= meta_parts(*e, index as int, *a));
    let mut out = String::new();
    if parts.len() > 0 {
        push_str(&mut out, " <span class=\"meta\">(");
        let j = join_parts(&parts, ", ");
        let esc = html_escape(j.as_str());
        push_str(&mut out, esc.as_str());
        push_str(&mut out, ")</span>");
    }
    out
}

/// The list item of a file: a link to `href` showing the file's name,
/// then its annotation span.
pub open spec fn file_item_text(href: Seq<char>, name: Seq<char>, meta: Seq<char>) -> Seq<char> {
    "<li class=\"file\"><a href=\""@ + html_escaped(href) + "\">"@ + html_escaped(name) + "</a>"@ + meta + "</li>\n"@
}

/// Formats the list item of a file linking to `href` (escaped here, as
/// is `name`); `meta` is the annotation span, already escaped.
pub fn file_item(href: &str, name: &str, meta: &str) -> (r: String)
    ensures r@ == file_item_text(href@, name@, meta@),
{
    let mut out = String::new();
    push_str(&mut out, "<li class=\"file\"><a href=\"");
    let h = html_escape(href);
    push_str(&mut out, h.as_str());
    push_str(&mut out, "\">");
    let n = html_escape(name);
    push_str(&mut out, n.as_str());
    push_str(&mut out, "</a>");
    push_str(&mut out, meta);
    push_str(&mut out, "</li>\n");
    assert(out@ =~= file_item_text(href@, name@, meta@));
    out
}

/// The link target of a file: its path relative to the root, or the
/// whole path when it is not under the root.
pub open spec fn href_of(e: TreeEntry, root: Seq<char>) -> Seq<char> {
    match stripped_path(e.path_view(), root) {
        Some(r) => r,
        None => e.path_view(),
    }
}

/// The items of one directory level, from node `i` on: every node at
/// `depth` up to the first node that is not at it, each directory
/// followed by its own nested level. Also gives the index of the first
/// node not rendered.
#[verifier::opaque]
pub open spec fn html_items(nodes: Seq<TreeNode>, i: int, depth: nat, a: Annotations, root: Seq<char>) -> (Seq<char>, int)
    decreases nodes.len() - i, 0nat,
{
    if i < 0 || i >= nodes.len() || nodes[i].depth_view() != depth {
        (Seq::empty(), i)
    } else {
        match nodes[i] {
            TreeNode::Summary { hidden_files, hidden_items, .. } => {
                let line = "<li class=\"meta\">"@ + html_escaped(summary_text(hidden_files as nat, hidden_items as nat)) + "</li>\n"@;
                let rest = html_items(nodes, i + 1, depth, a, root);
                (line + rest.0, rest.1)
            },
            TreeNode::Entry { entry, index } => {
                let meta = meta_html(meta_parts(entry, index as int, a));
                if entry.is_dir_view() {
                    let sub = html_level(nodes, i + 1, depth + 1, a, root);
                    if i < sub.1 <= nodes.len() {
                        let rest = html_items(nodes, sub.1, depth, a, root);
                        ("<li class=\"dir\"><details open><summary>"@ + html_escaped(entry.name_view()) + meta
                            + "</summary>\n"@ + sub.0 + "</details></li>\n"@ + rest.0, rest.1)
                    } else {
                        (Seq::empty(), i)
                    }
                } else {
                    let rest = html_items(nodes, i + 1, depth, a, root);
                    (file_item_text(href_of(entry, root), entry.name_view(), meta) + rest.0, rest.1)
                }
            },
        }
    }
}

/// One directory level from node `i` on, as a `<ul>` list, and the index
/// of the first node not rendered.
pub open spec fn html_level(nodes: Seq<TreeNode>, i: int, depth: nat, a: Annotations, root: Seq<char>) -> (Seq<char>, int)
    decreases nodes.len() - i, 1nat,
{
    let items = html_items(nodes, i, depth, a, root);
    ("<ul>\n"@ + items.0 + "</ul>\n"@, items.1)
}

proof fn lemma_items_none(nodes: Seq<TreeNode>, i: int, depth: nat, a: Annotations, root: Seq<char>)
    requires
        0 <= i <= nodes.len(),
        depth > usize::MAX,
    ensures
        html_items(nodes, i, depth, a, root) == (Seq::<char>::empty(), i),
{
    reveal_with_fuel(html_items, 1);
    if i < nodes.len() {
        assert(nodes[i].depth_view() <= usize::MAX);
    }
}

proof fn lemma_items_stop(nodes: Seq<TreeNode>, i: int, depth: nat, a: Annotations, root: Seq<char>)
    requires
        0 <= i <= nodes.len(),
        i == nodes.len() || nodes[i].depth_view() != depth,
    ensures
        html_items(nodes, i, depth, a, root) == (Seq::<char>::empty(), i),
{
    reveal_with_fuel(html_items, 1);
}

proof fn lemma_level(nodes: Seq<TreeNode>, i: int, depth: nat, a: Annotations, root: Seq<char>)
    ensures
        html_level(nodes, i, depth, a, root) == ("<ul>\n"@ + html_items(nodes, i, depth, a, root).0 + "</ul>\n"@,
            html_items(nodes, i, depth, a, root).1),
{
    reveal_with_fuel(html_items, 1);
}

fn render_level(nodes: &Vec<TreeNode>, index: &mut usize, depth: usize, a: &Annotations, root: &str, out: &mut String)
    requires
        *old(index) <= nodes@.len(),
    ensures
        *old(index) <= *final(index) <= nodes@.len(),
        final(out)@ == old(out)@ + html_level(nodes@, *old(index) as int, depth as nat, *a, root@).0,
        *final(index) as int == html_level(nodes@, *old(index) as int, depth as nat, *a, root@).1,
    decreases nodes@.len() - *old(index), 1nat,
{
    let ghost i0 = *index as int;
    let ghost out0 = out@;
    push_str(out, "<ul>\n");
    let ghost head = out@;
    while *index < nodes.len() && nodes[*index].depth() == depth
        invariant
            i0 == *old(index) as int,
            i0 <= *index <= nodes@.len(),
            head == out0 + "<ul>\n"@,
            head + html_items(nodes@, i0, depth as nat, *a, root@).0
                == out@ + html_items(nodes@, *index as int, depth as nat, *a, root@).0,
            html_items(nodes@, i0, depth as nat, *a, root@).1 == html_items(nodes@, *index as int, depth as nat, *a, root@).1,
        decreases nodes@.len() - *index,
    {
        let ghost cur = *index as int;
        let ghost before = out@;
        render_item(nodes, index, depth, a, root, out);
        proof {
            assert(head + html_items(nodes@, i0, depth as nat, *a, root@).0
                =~= out@ + html_items(nodes@, *index as int, depth as nat, *a, root@).0);
        }
    }
    push_str(out, "</ul>\n");
    proof {
        lemma_items_stop(nodes@, *index as int, depth as nat, *a, root@);
        lemma_level(nodes@, i0, depth as nat, *a, root@);
        assert(out@ =~= out0 + html_level(nodes@, i0, depth as nat, *a, root@).0);
    }
}

/// The list item of a summary node.
pub open spec fn summary_item_text(hidden_files: usize, hidden_items: usize) -> Seq<char> {
    "<li class=\"meta\">"@ + html_escaped(summary_text(hidden_files as nat, hidden_items as nat)) + "</li>\n"@
}

/// The opening of a directory's list item, up to its nested level.
pub open spec fn dir_open_text(e: TreeEntry, meta: Seq<char>) -> Seq<char> {
    "<li class=\"dir\"><details open><summary>"@ + html_escaped(e.name_view()) + meta + "</summary>\n"@
}

proof fn lemma_items_summary(nodes: Seq<TreeNode>, i: int, depth: nat, a: Annotations, root: Seq<char>)
    requires
        0 <= i < nodes.len(),
        nodes[i].depth_view() == depth,
        nodes[i] is Summary,
    ensures
        html_items(nodes, i, depth, a, root).0 == summary_item_text(nodes[i]->hidden_files, nodes[i]->hidden_items)
            + html_items(nodes, i + 1, depth, a, root).0,
        html_items(nodes, i, depth, a, root).1 == html_items(nodes, i + 1, depth, a, root).1,
{
    reveal_with_fuel(html_items, 1);
}

proof fn lemma_items_file(nodes: Seq<TreeNode>, i: int, depth: nat, a: Annotations, root: Seq<char>)
    requires
        0 <= i < nodes.len(),
        nodes[i].depth_view() == depth,
        nodes[i] is Entry,
        !nodes[i]->entry.is_dir_view(),
    ensures
        html_items(nodes, i, depth, a, root).0 == file_item_text(href_of(nodes[i]->entry, root), nodes[i]->entry.name_view(),
            meta_html(meta_parts(nodes[i]->entry, nodes[i]->index as int, a))) + html_items(nodes, i + 1, depth, a, root).0,
        html_items(nodes, i, depth, a, root).1 == html_items(nodes, i + 1, depth, a, root).1,
{
    reveal_with_fuel(html_items, 1);
}

proof fn lemma_items_dir(nodes: Seq<TreeNode>, i: int, depth: nat, a: Annotations, root: Seq<char>)
    requires
        0 <= i < nodes.len(),
        nodes[i].depth_view() == depth,
        nodes[i] is Entry,
        nodes[i]->entry.is_dir_view(),
        i < html_level(nodes, i + 1, depth + 1, a, root).1 <= nodes.len(),
    ensures ({
        let sub = html_level(nodes, i + 1, depth + 1, a, root);
        let e = nodes[i]->entry;
        &&& html_items(nodes, i, depth, a, root).0 == dir_open_text(e, meta_html(meta_parts(e, nodes[i]->index as int, a)))
            + sub.0 + "</details></li>\n"@ + html_items(nodes, sub.1, depth, a, root).0
        &&& html_items(nodes, i, depth, a, root).1 == html_items(nodes, sub.1, depth, a, root).1
    }),
{
    reveal_with_fuel(html_items, 1);
    let sub = html_level(nodes, i + 1, depth + 1, a, root);
    let e = nodes[i]->entry;
    let rest = html_items(nodes, sub.1, depth, a, root);
    assert(nodes[i] matches TreeNode::Entry { entry, index } && entry == e);
    assert(html_items(nodes, i, depth, a, root).1 == rest.1);
    assert(html_items(nodes, i, depth, a, root).0 =~= dir_open_text(e, meta_html(meta_parts(e, nodes[i]->index as int, a)))
        + sub.0 + "</details></li>\n"@ + rest.0);
}

proof fn lemma_items_next(nodes: Seq<TreeNode>, i: int, d: nat, a: Annotations, root: Seq<char>)
    requires
        0 <= i < nodes.len(),
        nodes[i].depth_view() == d,
        !(nodes[i] matches TreeNode::Entry { entry, .. } && entry.is_dir_view()),
    ensures
        html_items(nodes, i, d, a, root).1 == html_items(nodes, i + 1, d, a, root).1,
{
    reveal_with_fuel(html_items, 1);
}

proof fn lemma_items_dir_next(nodes: Seq<TreeNode>, i: int, d: nat, a: Annotations, root: Seq<char>)
    requires
        0 <= i < nodes.len(),
        nodes[i].depth_view() == d,
        nodes[i] matches TreeNode::Entry { entry, .. } && entry.is_dir_view(),
        i < html_items(nodes, i + 1, d + 1, a, root).1 <= nodes.len(),
    ensures
        html_items(nodes, i, d, a, root).1 == html_items(nodes, html_items(nodes, i + 1, d + 1, a, root).1, d, a, root).1,
{
    lemma_level(nodes, i + 1, d + 1, a, root);
    reveal_with_fuel(html_items, 1);
}

#[verifier::spinoff_prover]
proof fn lemma_items_cover(nodes: Seq<TreeNode>, i: int, d: nat, a: Annotations, root: Seq<char>)
    requires
        depth_first(node_depths(nodes)),
        only_dirs_nest(nodes),
        0 <= i <= nodes.len(),
        i == nodes.len() || nodes[i].depth_view() <= d,
    ensures
        html_items(nodes, i, d, a, root).1 == level_end(node_depths(nodes), i, d),
    decreases nodes.len() - i,
{
    let ds = node_depths(nodes);
    if i == nodes.len() || nodes[i].depth_view() < d {
        lemma_items_stop(nodes, i, d, a, root);
        assert(i < nodes.len() ==> ds[i] < d);
    } else {
        assert(ds[i] == d);
        if i + 1 < nodes.len() {
            assert(ds[i + 1] <= ds[i] + 1);
            assert(ds[i + 1] == nodes[i + 1].depth_view());
        }
        if nodes[i] matches TreeNode::Entry { entry, .. } && entry.is_dir_view() {
            lemma_items_cover(nodes, i + 1, d + 1, a, root);
            lemma_level_end(ds, i + 1, d + 1);
            let k = level_end(ds, i + 1, d + 1);
            lemma_items_dir_next(nodes, i, d, a, root);
            if k < nodes.len() {
                assert(ds[k] == nodes[k].depth_view());
            }
            lemma_items_cover(nodes, k, d, a, root);
            lemma_level_end_skip(ds, i, k, d);
        } else {
            if i + 1 < nodes.len() && nodes[i + 1].depth_view() > nodes[i].depth_view() {
                assert(nodes[i + 1].depth_view() > nodes[(i + 1) - 1].depth_view());
            }
            lemma_items_next(nodes, i, d, a, root);
            lemma_items_cover(nodes, i + 1, d, a, root);
            lemma_level_end_skip(ds, i, i + 1, d);
        }
    }
}

/// Nothing is left out of the page: for a depth-first node list in which
/// only directories have nodes nested under them, the top-level list
/// takes in every node.
pub proof fn lemma_html_covers_all(nodes: Seq<TreeNode>, a: Annotations, root: Seq<char>)
    requires
        depth_first(node_depths(nodes)),
        only_dirs_nest(nodes),
    ensures
        html_level(nodes, 0, 1, a, root).1 == nodes.len(),
{
    let ds = node_depths(nodes);
    if nodes.len() > 0 {
        assert(ds[0] == nodes[0].depth_view());
    }
    lemma_items_cover(nodes, 0, 1, a, root);
    lemma_level(nodes, 0, 1, a, root);
    lemma_level_end(ds, 0, 1);
    let e = level_end(ds, 0, 1);
    if e < nodes.len() {
        assert(ds[e] >= 1);
    }
}

/// Renders the item at `index` (and, for a directory, its nested level).
fn render_item(nodes: &Vec<TreeNode>, index: &mut usize, depth: usize, a: &Annotations, root: &str, out: &mut String)
    requires
        *old(index) < nodes@.len(),
        nodes@[*old(index) as int].depth_view() == depth,
    ensures
        *old(index) < *final(index) <= nodes@.len(),
        old(out)@ + html_items(nodes@, *old(index) as int, depth as nat, *a, root@).0
            == final(out)@ + html_items(nodes@, *final(index) as int, depth as nat, *a, root@).0,
        html_items(nodes@, *old(index) as int, depth as nat, *a, root@).1
            == html_items(nodes@, *final(index) as int, depth as nat, *a, root@).1,
    decreases nodes@.len() - *old(index), 0nat,
{
    let ghost cur = *index as int;
    let ghost before = out@;
    let n = nodes.len();
    let i = *index;
    match &nodes[i] {
        TreeNode::Summary { hidden_files, hidden_items, .. } => {
            *index = i + 1;
            push_str(out, "<li class=\"meta\">");
            let label = summary_label(*hidden_files, *hidden_items);
            let esc = html_escape(label.as_str());
            push_str(out, esc.as_str());
            push_str(out, "</li>\n");
            proof {
                lemma_items_summary(nodes@, cur, depth as nat, *a, root@);
                assert(out@ =~= before + summary_item_text(*hidden_files, *hidden_items));
            }
        },
        TreeNode::Entry { entry, index: pos } => {
            *index = i + 1;
            let meta = entry_meta(entry, *pos, a);
            if entry.is_dir() {
                render_dir(nodes, index, depth, entry, meta, a, root, out);
                proof {
                    lemma_items_dir(nodes@, cur, depth as nat, *a, root@);
                }
            } else {
                let href = match strip_path_prefix(entry.path().as_str(), root) {
                    Some(r) => r,
                    None => entry.path().clone(),
                };
                let name = entry.file_name();
                let item = file_item(href.as_str(), name.as_str(), meta.as_str());
                push_str(out, item.as_str());
                proof {
                    lemma_items_file(nodes@, cur, depth as nat, *a, root@);
                    assert(href@ == href_of(*entry, root@));
                }
            }
        },
    }
}

/// Renders a directory's item: its opening, its nested level (from
/// `index` on) and its closing.
fn render_dir(nodes: &Vec<TreeNode>, index: &mut usize, depth: usize, entry: &TreeEntry, meta: String, a: &Annotations, root: &str, out: &mut String)
    requires
        0 < *old(index) <= nodes@.len(),
    ensures ({
        let sub = html_level(nodes@, *old(index) as int, depth as nat + 1, *a, root@);
        &&& *old(index) <= *final(index) <= nodes@.len()
        &&& sub.1 == *final(index) as int
        &&& final(out)@ == old(out)@ + dir_open_text(*entry, meta@) + sub.0 + "</details></li>\n"@
    }),
    decreases nodes@.len() - *old(index), 2nat,
{
    let ghost before = out@;
    push_str(out, "<li class=\"dir\"><details open><summary>");
    let name = entry.file_name();
    let esc = html_escape(name.as_str());
    push_str(out, esc.as_str());
    push_str(out, meta.as_str());
    push_str(out, "</summary>\n");
    let ghost mid = out@;
    assert(mid =~= before + dir_open_text(*entry, meta@));
    if depth < usize::MAX {
        render_level(nodes, index, depth + 1, a, root, out);
    } else {
        push_str(out, "<ul>\n");
        push_str(out, "</ul>\n");
        proof {
            lemma_items_none(nodes@, *index as int, depth as nat + 1, *a, root@);
            lemma_level(nodes@, *index as int, depth as nat + 1, *a, root@);
            assert(out@ =~= mid + html_level(nodes@, *index as int, depth as nat + 1, *a, root@).0);
        }
    }
    push_str(out, "</details></li>\n");
    assert(out@ =~= before + dir_open_text(*entry, meta@) + html_level(nodes@, *old(index) as int, depth as nat + 1, *a, root@).0 + "</details></li>\n"@);
}

/// The whole HTML page for a tree rooted at `root`.
pub open spec fn html_page(root: Seq<char>, nodes: Seq<TreeNode>, dirs: nat, files: nat, a: Annotations, du_total: Option<u64>) -> Seq<char> {
    let r = html_escaped(root);
    "<!doctype html>\n<html lang=\"en\">\n<head>\n<meta charset=\"utf-8\">\n"@
        + "<title>"@ + r + "</title>\n"@
        + HTML_STYLE@
        + "\n</head>\n<body>\n"@
        + "<h1>"@ + r + "</h1>\n"@
        + html_level(nodes, 0, 1, a, root).0
        + "<p class=\"footer\">"@ + html_escaped(footer_text(dirs, files, du_total)) + "</p>\n"@
        + "</body>\n</html>\n"@
}

/// Renders the nodes as a self-contained HTML directory index: a nested
/// `<ul>` where directories are collapsible `<details>` elements and files
/// are links relative to `root`, each followed by its annotations
/// (permissions, size, git status), and a footer with the totals.
pub fn render_html(root: &str, nodes: &Vec<TreeNode>, dir_count: usize, file_count: usize, a: &Annotations, du_total: Option<u64>) -> (r: String)
    ensures r@ == html_page(root@, nodes@, dir_count as nat, file_count as nat, *a, du_total),
{
    let r = html_escape(root);
    let mut out = String::new();
    push_str(&mut out, "<!doctype html>\n<html lang=\"en\">\n<head>\n<meta charset=\"utf-8\">\n");
    push_str(&mut out, "<title>");
    push_str(&mut out, r.as_str());
    push_str(&mut out, "</title>\n");
    push_str(&mut out, HTML_STYLE);
    push_str(&mut out, "\n</head>\n<body>\n");
    push_str(&mut out, "<h1>");
    push_str(&mut out, r.as_str());
    push_str(&mut out, "</h1>\n");
    let mut index: usize = 0;
    render_level(nodes, &mut index, 1, a, root, &mut out);
    let f = footer(dir_count, file_count, du_total);
    let fe = html_escape(f.as_str());
    push_str(&mut out, "<p class=\"footer\">");
    push_str(&mut out, fe.as_str());
    push_str(&mut out, "</p>\n");
    push_str(&mut out, "</body>\n</html>\n");
    assert(out@ =~= html_page(root@, nodes@, dir_count as nat, file_count as nat, *a, du_total));
    out
}

} // verus!
