//! The JSON rendering: a nested document (in the manner of `tree -J`)
//! with a `report` of the totals.

use vstd::prelude::*;
use crate::columns::{Annotations, shown_size, shown_permissions, mark_at};
use crate::entry::TreeEntry;
use crate::limits::{TreeNode, node_depths, only_dirs_nest, level_end, lemma_level_end, lemma_level_end_skip};
use crate::view::depth_first;
use crate::text::{push_char, push_str};

verus! {

/// A JSON value. Objects keep their members in the order they were
/// added; a serializer may order them by key.
#[derive(Debug)]
pub enum JsonValue {
    Number(u64),
    Text(String),
    Array(Vec<JsonValue>),
    Object(Vec<(String, JsonValue)>),
}

/// The mathematical content of a JSON value.
pub enum Json {
    Number(nat),
    Text(Seq<char>),
    Array(Seq<Json>),
    Object(Seq<(Seq<char>, Json)>),
}

/// The content of a JSON value.
pub open spec fn json_view(v: JsonValue) -> Json
    decreases v,
{
    match v {
        JsonValue::Number(n) => Json::Number(n as nat),
        JsonValue::Text(s) => Json::Text(s@),
        JsonValue::Array(items) => Json::Array(view_items(items@)),
        JsonValue::Object(members) => Json::Object(view_members(members@)),
    }
}

/// The contents of a sequence of JSON values.
pub open spec fn view_items(s: Seq<JsonValue>) -> Seq<Json>
    decreases s,
{
    if s.len() == 0 {
        Seq::empty()
    } else {
        view_items(s.subrange(0, s.len() - 1)).push(json_view(s[s.len() - 1]))
    }
}

/// The contents of a sequence of object members.
pub open spec fn view_members(s: Seq<(String, JsonValue)>) -> Seq<(Seq<char>, Json)>
    decreases s,
{
    if s.len() == 0 {
        Seq::empty()
    } else {
        let m = s[s.len() - 1];
        view_members(s.subrange(0, s.len() - 1)).push((m.0@, json_view(m.1)))
    }
}

proof fn lemma_view_items_push(s: Seq<JsonValue>, v: JsonValue)
    ensures view_items(s.push(v)) == view_items(s).push(json_view(v)),
{
    assert(s.push(v).subrange(0, s.len() as int) =~= s);
}

proof fn lemma_view_members_push(s: Seq<(String, JsonValue)>, m: (String, JsonValue))
    ensures view_members(s.push(m)) == view_members(s).push((m.0@, json_view(m.1))),
{
    assert(s.push(m).subrange(0, s.len() as int) =~= s);
}

/// A member whose value is a string.
pub open spec fn text_member(key: Seq<char>, value: Seq<char>) -> (Seq<char>, Json) {
    (key, Json::Text(value))
}

/// The `type` of an entry: `directory`, `symlink` or `file`.
pub open spec fn kind_name(e: TreeEntry) -> Seq<char> {
    if e.is_dir_view() {
        "directory"@
    } else if e.is_symlink_view() {
        "symlink"@
    } else {
        "file"@
    }
}

/// The members describing an entry, in order: `name`, `type`, and when
/// shown `size`, `permissions` and `git_status`.
pub open spec fn entry_members(e: TreeEntry, index: int, a: Annotations) -> Seq<(Seq<char>, Json)> {
    let size = match shown_size(e, index, a) {
        Some(s) => seq![("size"@, Json::Number(s as nat))],
        None => Seq::empty(),
    };
    let perms = match shown_permissions(e, a) {
        Some(p) => seq![text_member("permissions"@, p)],
        None => Seq::empty(),
    };
    let git = match mark_at(a, index) {
        Some(c) => seq![text_member("git_status"@, seq![c])],
        None => Seq::empty(),
    };
    seq![text_member("name"@, e.name_view()), text_member("type"@, kind_name(e))] + size + perms + git
}

/// The object standing for a summary node.
pub open spec fn summary_object(hidden_files: usize, hidden_items: usize) -> Json {
    let files = if hidden_files > 0 { seq![("hidden_files"@, Json::Number(hidden_files as nat))] } else { Seq::empty() };
    let items = if hidden_items > 0 { seq![("hidden_items"@, Json::Number(hidden_items as nat))] } else { Seq::empty() };
    Json::Object(seq![text_member("type"@, "summary"@)] + files + items)
}

/// The value of the first member named `key`, if any.
pub open spec fn member_value(members: Seq<(Seq<char>, Json)>, key: Seq<char>) -> Option<Json>
    decreases members.len(),
{
    if members.len() == 0 {
        None
    } else if members[0].0 == key {
        Some(members[0].1)
    } else {
        member_value(members.drop_first(), key)
    }
}

/// A summary object keeps everything its node says: it is an object of
/// type `summary` whose `hidden_files` member, present exactly when files
/// were hidden, holds their number, and whose `hidden_items` member,
/// present exactly when items were hidden, holds theirs.
pub proof fn lemma_summary_object_members(hidden_files: usize, hidden_items: usize)
    ensures
        summary_object(hidden_files, hidden_items) is Object,
        member_value(summary_object(hidden_files, hidden_items)->Object_0, "type"@) == Some(Json::Text("summary"@)),
        member_value(summary_object(hidden_files, hidden_items)->Object_0, "hidden_files"@)
            == (if hidden_files > 0 { Some(Json::Number(hidden_files as nat)) } else { None }),
        member_value(summary_object(hidden_files, hidden_items)->Object_0, "hidden_items"@)
            == (if hidden_items > 0 { Some(Json::Number(hidden_items as nat)) } else { None }),
{
    reveal_strlit("type");
    reveal_strlit("summary");
    reveal_strlit("hidden_files");
    reveal_strlit("hidden_items");
    reveal_with_fuel(member_value, 4);
    let ms = summary_object(hidden_files, hidden_items)->Object_0;
    assert("type"@ != "hidden_files"@) by { assert("type"@.len() != "hidden_files"@.len()); }
    assert("type"@ != "hidden_items"@) by { assert("type"@.len() != "hidden_items"@.len()); }
    assert("hidden_files"@ != "hidden_items"@) by { assert("hidden_files"@[7] != "hidden_items"@[7]); }
    let rest = ms.drop_first();
    if hidden_files > 0 {
        assert(rest[0].0 == "hidden_files"@);
        let rest2 = rest.drop_first();
        if hidden_items > 0 {
            assert(rest2[0].0 == "hidden_items"@);
            assert(rest2.drop_first().len() == 0);
            assert(member_value(rest2, "hidden_files"@) == member_value(rest2.drop_first(), "hidden_files"@));
        } else {
            assert(rest2.len() == 0);
        }
    } else if hidden_items > 0 {
        assert(rest[0].0 == "hidden_items"@);
        assert(rest.drop_first().len() == 0);
        assert(member_value(rest, "hidden_files"@) == member_value(rest.drop_first(), "hidden_files"@));
    } else {
        assert(rest.len() == 0);
    }
}

/// The objects of one directory level from node `i` on (each directory's
/// object holding its own level under `contents`), and the index of the
/// first node not rendered.
#[verifier::opaque]
pub open spec fn json_items(nodes: Seq<TreeNode>, i: int, depth: nat, a: Annotations) -> (Seq<Json>, int)
    decreases nodes.len() - i,
{
    if i < 0 || i >= nodes.len() || nodes[i].depth_view() != depth {
        (Seq::empty(), i)
    } else {
        match nodes[i] {
            TreeNode::Summary { hidden_files, hidden_items, .. } => {
                let rest = json_items(nodes, i + 1, depth, a);
                (seq![summary_object(hidden_files, hidden_items)] + rest.0, rest.1)
            },
            TreeNode::Entry { entry, index } => {
                let members = entry_members(entry, index as int, a);
                if entry.is_dir_view() {
                    let sub = json_items(nodes, i + 1, depth + 1, a);
                    if i < sub.1 <= nodes.len() {
                        let rest = json_items(nodes, sub.1, depth, a);
                        (seq![Json::Object(members.push(("contents"@, Json::Array(sub.0))))] + rest.0, rest.1)
                    } else {
                        (Seq::empty(), i)
                    }
                } else {
                    let rest = json_items(nodes, i + 1, depth, a);
                    (seq![Json::Object(members)] + rest.0, rest.1)
                }
            },
        }
    }
}

proof fn lemma_json_stop(nodes: Seq<TreeNode>, i: int, depth: nat, a: Annotations)
    requires
        0 <= i <= nodes.len(),
        i == nodes.len() || nodes[i].depth_view() != depth,
    ensures
        json_items(nodes, i, depth, a) == (Seq::<Json>::empty(), i),
{
    reveal_with_fuel(json_items, 1);
}

proof fn lemma_json_none(nodes: Seq<TreeNode>, i: int, depth: nat, a: Annotations)
    requires
        0 <= i <= nodes.len(),
        depth > usize::MAX,
    ensures
        json_items(nodes, i, depth, a) == (Seq::<Json>::empty(), i),
{
    reveal_with_fuel(json_items, 1);
    if i < nodes.len() {
        assert(nodes[i].depth_view() <= usize::MAX);
    }
}

proof fn lemma_json_summary(nodes: Seq<TreeNode>, i: int, depth: nat, a: Annotations)
    requires
        0 <= i < nodes.len(),
        nodes[i].depth_view() == depth,
        nodes[i] is Summary,
    ensures
        json_items(nodes, i, depth, a).0 == seq![summary_object(nodes[i]->hidden_files, nodes[i]->hidden_items)]
            + json_items(nodes, i + 1, depth, a).0,
        json_items(nodes, i, depth, a).1 == json_items(nodes, i + 1, depth, a).1,
{
    reveal_with_fuel(json_items, 1);
}

proof fn lemma_json_file(nodes: Seq<TreeNode>, i: int, depth: nat, a: Annotations)
    requires
        0 <= i < nodes.len(),
        nodes[i].depth_view() == depth,
        nodes[i] is Entry,
        !nodes[i]->entry.is_dir_view(),
    ensures
        json_items(nodes, i, depth, a).0 == seq![Json::Object(entry_members(nodes[i]->entry, nodes[i]->index as int, a))]
            + json_items(nodes, i + 1, depth, a).0,
        json_items(nodes, i, depth, a).1 == json_items(nodes, i + 1, depth, a).1,
{
    reveal_with_fuel(json_items, 1);
}

proof fn lemma_json_dir(nodes: Seq<TreeNode>, i: int, depth: nat, a: Annotations)
    requires
        0 <= i < nodes.len(),
        nodes[i].depth_view() == depth,
        nodes[i] is Entry,
        nodes[i]->entry.is_dir_view(),
        i < json_items(nodes, i + 1, depth + 1, a).1 <= nodes.len(),
    ensures ({
        let sub = json_items(nodes, i + 1, depth + 1, a);
        let members = entry_members(nodes[i]->entry, nodes[i]->index as int, a);
        &&& json_items(nodes, i, depth, a).0 == seq![Json::Object(members.push(("contents"@, Json::Array(sub.0))))]
            + json_items(nodes, sub.1, depth, a).0
        &&& json_items(nodes, i, depth, a).1 == json_items(nodes, sub.1, depth, a).1
    }),
{
    reveal_with_fuel(json_items, 1);
}

proof fn lemma_json_next(nodes: Seq<TreeNode>, i: int, d: nat, a: Annotations)
    requires
        0 <= i < nodes.len(),
        nodes[i].depth_view() == d,
        !(nodes[i] matches TreeNode::Entry { entry, .. } && entry.is_dir_view()),
    ensures
        json_items(nodes, i, d, a).1 == json_items(nodes, i + 1, d, a).1,
{
    reveal_with_fuel(json_items, 1);
}

proof fn lemma_json_dir_next(nodes: Seq<TreeNode>, i: int, d: nat, a: Annotations)
    requires
        0 <= i < nodes.len(),
        nodes[i].depth_view() == d,
        nodes[i] matches TreeNode::Entry { entry, .. } && entry.is_dir_view(),
        i < json_items(nodes, i + 1, d + 1, a).1 <= nodes.len(),
    ensures
        json_items(nodes, i, d, a).1 == json_items(nodes, json_items(nodes, i + 1, d + 1, a).1, d, a).1,
{
    reveal_with_fuel(json_items, 1);
}

proof fn lemma_json_cover(nodes: Seq<TreeNode>, i: int, d: nat, a: Annotations)
    requires
        depth_first(node_depths(nodes)),
        only_dirs_nest(nodes),
        0 <= i <= nodes.len(),
        i == nodes.len() || nodes[i].depth_view() <= d,
    ensures
        json_items(nodes, i, d, a).1 == level_end(node_depths(nodes), i, d),
    decreases nodes.len() - i,
{
    let ds = node_depths(nodes);
    if i == nodes.len() || nodes[i].depth_view() < d {
        lemma_json_stop(nodes, i, d, a);
        assert(i < nodes.len() ==> ds[i] < d);
    } else {
        assert(ds[i] == d);
        if i + 1 < nodes.len() {
            assert(ds[i + 1] <= ds[i] + 1);
            assert(ds[i + 1] == nodes[i + 1].depth_view());
        }
        if nodes[i] matches TreeNode::Entry { entry, .. } && entry.is_dir_view() {
            lemma_json_cover(nodes, i + 1, d + 1, a);
            lemma_level_end(ds, i + 1, d + 1);
            let k = level_end(ds, i + 1, d + 1);
            lemma_json_dir_next(nodes, i, d, a);
            if k < nodes.len() {
                assert(ds[k] == nodes[k].depth_view());
            }
            lemma_json_cover(nodes, k, d, a);
            lemma_level_end_skip(ds, i, k, d);
        } else {
            if i + 1 < nodes.len() && nodes[i + 1].depth_view() > nodes[i].depth_view() {
                assert(nodes[i + 1].depth_view() > nodes[(i + 1) - 1].depth_view());
            }
            lemma_json_next(nodes, i, d, a);
            lemma_json_cover(nodes, i + 1, d, a);
            lemma_level_end_skip(ds, i, i + 1, d);
        }
    }
}

/// Nothing is left out of the document: for a depth-first node list in
/// which only directories have nodes nested under them, the top-level
/// `contents` take in every node.
pub proof fn lemma_json_covers_all(nodes: Seq<TreeNode>, a: Annotations)
    requires
        depth_first(node_depths(nodes)),
        only_dirs_nest(nodes),
    ensures
        json_items(nodes, 0, 1, a).1 == nodes.len(),
{
    let ds = node_depths(nodes);
    if nodes.len() > 0 {
        assert(ds[0] == nodes[0].depth_view());
    }
    lemma_json_cover(nodes, 0, 1, a);
    lemma_level_end(ds, 0, 1);
    let e = level_end(ds, 0, 1);
    if e < nodes.len() {
        assert(ds[e] >= 1);
    }
}

/// A string value for a member.
fn text_value(s: &str) -> (v: JsonValue)
    ensures json_view(v) == Json::Text(s@),
{
    let mut t = String::new();
    push_str(&mut t, s);
    JsonValue::Text(t)
}

fn entry_object_members(e: &TreeEntry, index: usize, a: &Annotations) -> (m: Vec<(String, JsonValue)>)
    ensures view_members(m@) == entry_members(*e, index as int, *a),
{
    let mut m: Vec<(String, JsonValue)> = Vec::new();
    let ghost empty = m@;
    assert(view_members(empty) =~= Seq::<(Seq<char>, Json)>::empty());
    let name = e.file_name();
    let key = text_key("name");
    let val = JsonValue::Text(name);
    proof { lemma_view_members_push(m@, (key, val)); }
    m.push((key, val));
    let tn = if e.is_dir() { "directory" } else if e.is_symlink() { "symlink" } else { "file" };
    let key = text_key("type");
    let val = text_value(tn);
    proof { lemma_view_members_push(m@, (key, val)); }
    m.push((key, val));
    let ghost base = view_members(m@);
    assert(base =~= seq![text_member("name"@, e.name_view()), text_member("type"@, kind_name(*e))]);
    match a.size_of(e, index) {
        Some(s) => {
            let key = text_key("size");
            let val = JsonValue::Number(s);
            proof { lemma_view_members_push(m@, (key, val)); }
            m.push((key, val));
        }
        None => {}
    }
    let ghost with_size = view_members(m@);
    match a.permissions_of(e) {
        Some(p) => {
            let key = text_key("permissions");
            let val = JsonValue::Text(p);
            proof { lemma_view_members_push(m@, (key, val)); }
            m.push((key, val));
        }
        None => {}
    }
    let ghost with_perms = view_members(m@);
    match a.git_mark(index) {
        Some(c) => {
            let key = text_key("git_status");
            let mut g = String::new();
            push_char(&mut g, c);
            let val = JsonValue::Text(g);
            proof { lemma_view_members_push(m@, (key, val)); }
            m.push((key, val));
        }
        None => {}
    }
    proof {
        let size = match shown_size(*e, index as int, *a) {
            Some(s) => seq![("size"@, Json::Number(s as nat))],
            None => Seq::empty(),
        };
        let perms = match shown_permissions(*e, *a) {
            Some(p) => seq![text_member("permissions"@, p)],
            None => Seq::empty(),
        };
        let git = match mark_at(*a, index as int) {
            Some(c) => seq![text_member("git_status"@, seq![c])],
            None => Seq::empty(),
        };
        assert(with_size =~= base + size);
        assert(with_perms =~= base + size + perms);
        assert(view_members(m@) =~= base + size + perms + git);
    }
    m
}

/// A member's key.
fn text_key(s: &str) -> (k: String)
    ensures k@ == s@,
{
    let mut t = String::new();
    push_str(&mut t, s);
    t
}

fn summary_value(hidden_files: usize, hidden_items: usize) -> (v: JsonValue)
    ensures json_view(v) == summary_object(hidden_files, hidden_items),
{
    let mut m: Vec<(String, JsonValue)> = Vec::new();
    assert(view_members(m@) =~= Seq::<(Seq<char>, Json)>::empty());
    let key = text_key("type");
    let val = text_value("summary");
    proof { lemma_view_members_push(m@, (key, val)); }
    m.push((key, val));
    let ghost base = view_members(m@);
    if hidden_files > 0 {
        let key = text_key("hidden_files");
        let val = JsonValue::Number(hidden_files as u64);
        proof { lemma_view_members_push(m@, (key, val)); }
        m.push((key, val));
    }
    let ghost with_files = view_members(m@);
    if hidden_items > 0 {
        let key = text_key("hidden_items");
        let val = JsonValue::Number(hidden_items as u64);
        proof { lemma_view_members_push(m@, (key, val)); }
        m.push((key, val));
    }
    proof {
        let files = if hidden_files > 0 { seq![("hidden_files"@, Json::Number(hidden_files as nat))] } else { Seq::empty() };
        let items = if hidden_items > 0 { seq![("hidden_items"@, Json::Number(hidden_items as nat))] } else { Seq::empty() };
        assert(with_files =~= base + files);
        assert(view_members(m@) =~= seq![text_member("type"@, "summary"@)] + files + items);
    }
    JsonValue::Object(m)
}

fn json_level(nodes: &Vec<TreeNode>, index: &mut usize, depth: usize, a: &Annotations) -> (out: Vec<JsonValue>)
    requires
        *old(index) <= nodes@.len(),
    ensures
        *old(index) <= *final(index) <= nodes@.len(),
        view_items(out@) == json_items(nodes@, *old(index) as int, depth as nat, *a).0,
        *final(index) as int == json_items(nodes@, *old(index) as int, depth as nat, *a).1,
    decreases nodes@.len() - *old(index), 1nat,
{
    let ghost i0 = *index as int;
    let mut out: Vec<JsonValue> = Vec::new();
    assert(view_items(out@) =~= Seq::<Json>::empty());
    while *index < nodes.len() && nodes[*index].depth() == depth
        invariant
            i0 == *old(index) as int,
            i0 <= *index <= nodes@.len(),
            json_items(nodes@, i0, depth as nat, *a).0
                == view_items(out@) + json_items(nodes@, *index as int, depth as nat, *a).0,
            json_items(nodes@, i0, depth as nat, *a).1 == json_items(nodes@, *index as int, depth as nat, *a).1,
        decreases nodes@.len() - *index,
    {
        let ghost cur = *index as int;
        let ghost before = view_items(out@);
        let v = json_item(nodes, index, depth, a);
        proof {
            lemma_view_items_push(out@, v);
        }
        out.push(v);
        proof {
            assert(json_items(nodes@, i0, depth as nat, *a).0
                =~= view_items(out@) + json_items(nodes@, *index as int, depth as nat, *a).0);
        }
    }
    proof {
        lemma_json_stop(nodes@, *index as int, depth as nat, *a);
        assert(view_items(out@) =~= json_items(nodes@, i0, depth as nat, *a).0);
    }
    out
}

/// The object of the node at `index` (with, for a directory, its level).
fn json_item(nodes: &Vec<TreeNode>, index: &mut usize, depth: usize, a: &Annotations) -> (v: JsonValue)
    requires
        *old(index) < nodes@.len(),
        nodes@[*old(index) as int].depth_view() == depth,
    ensures
        *old(index) < *final(index) <= nodes@.len(),
        json_items(nodes@, *old(index) as int, depth as nat, *a).0
            == seq![json_view(v)] + json_items(nodes@, *final(index) as int, depth as nat, *a).0,
        json_items(nodes@, *old(index) as int, depth as nat, *a).1
            == json_items(nodes@, *final(index) as int, depth as nat, *a).1,
    decreases nodes@.len() - *old(index), 0nat,
{
    let ghost cur = *index as int;
    let n = nodes.len();
    let i = *index;
    match &nodes[i] {
        TreeNode::Summary { hidden_files, hidden_items, .. } => {
            *index = i + 1;
            proof { lemma_json_summary(nodes@, cur, depth as nat, *a); }
            summary_value(*hidden_files, *hidden_items)
        },
        TreeNode::Entry { entry, index: pos } => {
            *index = i + 1;
            let mut members = entry_object_members(entry, *pos, a);
            if entry.is_dir() {
                let children = if depth < usize::MAX {
                    json_level(nodes, index, depth + 1, a)
                } else {
                    proof { lemma_json_none(nodes@, *index as int, depth as nat + 1, *a); }
                    Vec::new()
                };
                proof {
                    assert(view_items(children@) == json_items(nodes@, cur + 1, depth as nat + 1, *a).0);
                }
                let key = text_key("contents");
                let val = JsonValue::Array(children);
                proof { lemma_view_members_push(members@, (key, val)); }
                members.push((key, val));
                proof { lemma_json_dir(nodes@, cur, depth as nat, *a); }
                JsonValue::Object(members)
            } else {
                proof { lemma_json_file(nodes@, cur, depth as nat, *a); }
                JsonValue::Object(members)
            }
        },
    }
}

/// The whole JSON document for a tree rooted at `root`.
pub open spec fn json_document(root: Seq<char>, nodes: Seq<TreeNode>, dirs: nat, files: nat, a: Annotations, du_total: Option<u64>) -> Json {
    let total = match du_total {
        Some(t) => seq![("total_size"@, Json::Number(t as nat))],
        None => Seq::empty(),
    };
    let report = Json::Object(seq![("directories"@, Json::Number(dirs)), ("files"@, Json::Number(files))] + total);
    Json::Object(seq![
        text_member("path"@, root),
        text_member("type"@, "directory"@),
        ("contents"@, Json::Array(json_items(nodes, 0, 1, a).0)),
        ("report"@, report),
    ])
}

/// Renders the nodes as a nested JSON document: the root object has
/// `path`, `type`, `contents` and a `report` with the directory and file
/// totals (and `total_size` under `--du`); each entry has `name`, `type`,
/// the annotations that are on, and for a directory its `contents`;
/// summary nodes become `{"type": "summary", ...}` objects.
pub fn render_json(root: &str, nodes: &Vec<TreeNode>, dir_count: usize, file_count: usize, a: &Annotations, du_total: Option<u64>) -> (v: JsonValue)
    ensures json_view(v) == json_document(root@, nodes@, dir_count as nat, file_count as nat, *a, du_total),
{
    let mut index: usize = 0;
    let contents = json_level(nodes, &mut index, 1, a);
    let mut report: Vec<(String, JsonValue)> = Vec::new();
    assert(view_members(report@) =~= Seq::<(Seq<char>, Json)>::empty());
    let key = text_key("directories");
    let val = JsonValue::Number(dir_count as u64);
    proof { lemma_view_members_push(report@, (key, val)); }
    report.push((key, val));
    let key = text_key("files");
    let val = JsonValue::Number(file_count as u64);
    proof { lemma_view_members_push(report@, (key, val)); }
    report.push((key, val));
    let ghost counts = view_members(report@);
    match du_total {
        Some(t) => {
            let key = text_key("total_size");
            let val = JsonValue::Number(t);
            proof { lemma_view_members_push(report@, (key, val)); }
            report.push((key, val));
        }
        None => {}
    }
    let mut doc: Vec<(String, JsonValue)> = Vec::new();
    assert(view_members(doc@) =~= Seq::<(Seq<char>, Json)>::empty());
    let key = text_key("path");
    let val = text_value(root);
    proof { lemma_view_members_push(doc@, (key, val)); }
    doc.push((key, val));
    let key = text_key("type");
    let val = text_value("directory");
    proof { lemma_view_members_push(doc@, (key, val)); }
    doc.push((key, val));
    let key = text_key("contents");
    let val = JsonValue::Array(contents);
    proof { lemma_view_members_push(doc@, (key, val)); }
    doc.push((key, val));
    let key = text_key("report");
    let val = JsonValue::Object(report);
    proof { lemma_view_members_push(doc@, (key, val)); }
    doc.push((key, val));
    proof {
        let total = match du_total {
            Some(t) => seq![("total_size"@, Json::Number(t as nat))],
            None => Seq::empty(),
        };
        assert(counts =~= seq![("directories"@, Json::Number(dir_count as nat)), ("files"@, Json::Number(file_count as nat))]);
        assert(view_members(report@) =~= counts + total);
        assert(view_members(doc@) =~= seq![
            text_member("path"@, root@),
            text_member("type"@, "directory"@),
            ("contents"@, Json::Array(json_items(nodes@, 0, 1, *a).0)),
            ("report"@, Json::Object(counts + total)),
        ]);
    }
    JsonValue::Object(doc)
}

} // verus!
