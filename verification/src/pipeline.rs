//! How the stages fit together: a walk, sorted hierarchically and cut
//! down by the display limits, is rendered whole.

use vstd::prelude::*;
use crate::columns::Annotations;
use crate::entry::TreeEntry;
use crate::html::{html_level, lemma_html_covers_all};
use crate::json::{json_items, lemma_json_covers_all};
use crate::limits::{limited_nodes, node_depths, lemma_limits_keep_shape, TreeNode};
use crate::sort::SortOptions;
use crate::tree::{arranged_as_tree, complete_walk, well_formed_walk, parents_are_dirs, files_under,
    entry_key, lemma_arranged_complete, lemma_arranged_depth_first, lemma_arranged_nests};
use crate::view::depths_of;

verus! {

/// Entries of `a` are entries of `b`.
proof fn lemma_members_transfer(a: Seq<TreeEntry>, b: Seq<TreeEntry>)
    requires
        a.to_multiset() == b.to_multiset(),
    ensures
        forall|i: int| 0 <= i < a.len() ==> b.contains(#[trigger] a[i]),
{
    broadcast use vstd::seq_lib::group_to_multiset_ensures;
    assert forall|i: int| 0 <= i < a.len() implies b.contains(#[trigger] a[i]) by {
        assert(a.contains(a[i]));
        assert(a.to_multiset().count(a[i]) > 0);
        assert(b.contains(a[i]));
    }
}

/// Nothing walked is lost in the output: for a complete walk in which only
/// directories have entries under them, once the entries are arranged
/// hierarchically and cut down by the display limits, the nodes are
/// depth-first (so the text tree is drawn as the connector laws describe)
/// and the HTML page and the JSON document each take in every node.
pub proof fn lemma_rendering_covers_walk(
    es: Seq<TreeEntry>,
    out: Seq<TreeEntry>,
    o: SortOptions,
    fd: Option<usize>,
    mi: Option<usize>,
    a: Annotations,
    root: Seq<char>,
)
    requires
        complete_walk(es),
        parents_are_dirs(es),
        arranged_as_tree(out, es, o),
    ensures
        crate::view::depth_first(node_depths(limited_nodes(out, fd, mi))),
        html_level(limited_nodes(out, fd, mi), 0, 1, a, root).1 == limited_nodes(out, fd, mi).len(),
        json_items(limited_nodes(out, fd, mi), 0, 1, a).1 == limited_nodes(out, fd, mi).len(),
{
    lemma_arranged_complete(out, es, o);
    lemma_arranged_depth_first(out, es, o);
    lemma_arranged_nests(out, es, o);
    lemma_members_transfer(out, es);
    assert forall|i: int| 0 <= i < out.len() implies #[trigger] out[i].depth_view() >= 1 by {
        assert(es.contains(out[i]));
        let j = choose|j: int| 0 <= j < es.len() && es[j] == out[i];
    }
    assert forall|i: int, j: int|
        #![trigger files_under(out[i], entry_key(out[j]))]
        0 <= i < out.len() && 0 <= j < out.len() && files_under(out[i], entry_key(out[j]))
            implies out[i].depth_view() == out[j].depth_view() + 1 && out[j].is_dir_view() by {
        assert(es.contains(out[i]));
        assert(es.contains(out[j]));
        let x = choose|x: int| 0 <= x < es.len() && es[x] == out[i];
        let y = choose|y: int| 0 <= y < es.len() && es[y] == out[j];
        assert(files_under(es[x], entry_key(es[y])));
    }
    assert(well_formed_walk(out));
    assert(parents_are_dirs(out));
    let nodes = limited_nodes(out, fd, mi);
    if fd is None && mi is None {
        assert(node_depths(nodes) =~= depths_of(out));
        assert forall|j: int| 0 < j < nodes.len() && #[trigger] nodes[j].depth_view() > nodes[j - 1].depth_view() implies
            (nodes[j - 1] matches TreeNode::Entry { entry, .. } && entry.is_dir_view()) by {
            assert(nodes[j] == TreeNode::Entry { entry: out[j], index: j as usize });
            assert(nodes[j - 1] == TreeNode::Entry { entry: out[j - 1], index: (j - 1) as usize });
        }
    }
    lemma_limits_keep_shape(out, fd, mi);
    lemma_html_covers_all(nodes, a, root);
    lemma_json_covers_all(nodes, a);
}

} // verus!
