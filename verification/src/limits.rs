//! Display limits: hiding files below a depth and capping the number of
//! entries shown per directory, with a summary node for what was hidden.

use vstd::prelude::*;
use crate::entry::TreeEntry;
use crate::path::components;
use crate::tree::{entry_key, parent_key, files_under, find_key, find_group, lemma_find_key, parents_are_dirs};
use crate::view::depth_first;

verus! {

/// A renderable line in the tree: a real entry (with its position in the
/// list the limits were applied to), or a per-directory summary of the
/// entries hidden by the limits.
pub enum TreeNode {
    Entry { entry: TreeEntry, index: usize },
    Summary { depth: usize, hidden_files: usize, hidden_items: usize },
}

impl TreeNode {
    /// The depth a node is drawn at.
    pub open spec fn depth_view(self) -> nat {
        match self {
            TreeNode::Entry { entry, .. } => entry.depth_view(),
            TreeNode::Summary { depth, .. } => depth as nat,
        }
    }

    /// The depth a node is drawn at.
    pub fn depth(&self) -> (d: usize)
        ensures d == self.depth_view(),
    {
        match self {
            TreeNode::Entry { entry, .. } => entry.depth(),
            TreeNode::Summary { depth, .. } => *depth,
        }
    }
}

/// The depths of a list of nodes.
pub open spec fn node_depths(nodes: Seq<TreeNode>) -> Seq<usize> {
    Seq::new(nodes.len(), |i: int| nodes[i].depth_view() as usize)
}

/// Only directories have nodes nested under them: a node followed by a
/// deeper node is a directory entry.
pub open spec fn only_dirs_nest(nodes: Seq<TreeNode>) -> bool {
    forall|j: int| 0 < j < nodes.len() && #[trigger] nodes[j].depth_view() > nodes[j - 1].depth_view() ==>
        (nodes[j - 1] matches TreeNode::Entry { entry, .. } && entry.is_dir_view())
}

/// The first node from `i` on that is shallower than `d` (the end of the
/// list when there is none): where a rendered level at depth `d` that
/// starts at `i` ends.
pub open spec fn level_end(depths: Seq<usize>, i: int, d: nat) -> int
    decreases depths.len() - i,
{
    if i < 0 || i >= depths.len() {
        depths.len() as int
    } else if depths[i] < d {
        i
    } else {
        level_end(depths, i + 1, d)
    }
}

pub(crate) proof fn lemma_level_end(depths: Seq<usize>, i: int, d: nat)
    requires
        0 <= i <= depths.len(),
    ensures
        i <= level_end(depths, i, d) <= depths.len(),
        forall|k: int| i <= k < level_end(depths, i, d) ==> #[trigger] depths[k] >= d,
        level_end(depths, i, d) < depths.len() ==> depths[level_end(depths, i, d)] < d,
    decreases depths.len() - i,
{
    if i < depths.len() && depths[i] >= d {
        lemma_level_end(depths, i + 1, d);
    }
}

pub(crate) proof fn lemma_level_end_skip(depths: Seq<usize>, i: int, k: int, d: nat)
    requires
        0 <= i <= k <= depths.len(),
        forall|m: int| i <= m < k ==> #[trigger] depths[m] >= d,
    ensures
        level_end(depths, i, d) == level_end(depths, k, d),
    decreases k - i,
{
    if i < k {
        lemma_level_end_skip(depths, i + 1, k, d);
    }
}

/// The contents of the item lists.
pub open spec fn kids_view(kids: Seq<Option<Vec<(usize, TreeEntry)>>>) -> Seq<Option<Seq<(usize, TreeEntry)>>> {
    Seq::new(kids.len(), |i: int| match kids[i] {
        Some(v) => Some(v@),
        None => None,
    })
}

/// Each entry paired with its position.
pub open spec fn indexed(es: Seq<TreeEntry>) -> Seq<(usize, TreeEntry)> {
    Seq::new(es.len(), |i: int| (i as usize, es[i]))
}

/// The top-level (depth 1) items, in order.
pub open spec fn top_items(ps: Seq<(usize, TreeEntry)>) -> Seq<(usize, TreeEntry)>
    decreases ps.len(),
{
    if ps.len() == 0 {
        Seq::empty()
    } else {
        let pre = top_items(ps.drop_last());
        if ps.last().1.depth_view() == 1 { pre.push(ps.last()) } else { pre }
    }
}

/// The items filed under parent `k`, in order.
pub open spec fn items_under(ps: Seq<(usize, TreeEntry)>, k: Seq<Seq<char>>) -> Seq<(usize, TreeEntry)>
    decreases ps.len(),
{
    if ps.len() == 0 {
        Seq::empty()
    } else {
        let pre = items_under(ps.drop_last(), k);
        if files_under(ps.last().1, k) { pre.push(ps.last()) } else { pre }
    }
}

/// The distinct parents that items are filed under, in order of first
/// appearance.
pub open spec fn item_keys(ps: Seq<(usize, TreeEntry)>) -> Seq<Seq<Seq<char>>>
    decreases ps.len(),
{
    if ps.len() == 0 {
        Seq::empty()
    } else {
        let pre = item_keys(ps.drop_last());
        let e = ps.last().1;
        if e.depth_view() != 1 && parent_key(e) is Some && !pre.contains(parent_key(e)->0) {
            pre.push(parent_key(e)->0)
        } else {
            pre
        }
    }
}

/// How many item lists have not been taken yet.
pub open spec fn untaken(kids: Seq<Option<Seq<(usize, TreeEntry)>>>) -> nat
    decreases kids.len(),
{
    if kids.len() == 0 {
        0
    } else {
        untaken(kids.drop_last()) + (if kids.last() is Some { 1nat } else { 0nat })
    }
}

pub proof fn lemma_untaken_take(kids: Seq<Option<Seq<(usize, TreeEntry)>>>, i: int)
    requires
        0 <= i < kids.len(),
        kids[i] is Some,
    ensures
        untaken(kids.update(i, None)) + 1 == untaken(kids),
    decreases kids.len(),
{
    if i < kids.len() - 1 {
        lemma_untaken_take(kids.drop_last(), i);
        assert(kids.update(i, None).drop_last() =~= kids.drop_last().update(i, None));
    } else {
        assert(kids.update(i, None).drop_last() =~= kids.drop_last());
    }
}

/// Whether a file is hidden by the file-depth limit.
pub open spec fn hidden_by_depth(e: TreeEntry, file_depth: Option<usize>) -> bool {
    !e.is_dir_view() && (file_depth matches Some(limit) && e.depth_view() > limit)
}

/// Whether the per-directory item limit has been reached.
pub open spec fn over_limit(kept: nat, max_items: Option<usize>) -> bool {
    max_items matches Some(limit) && kept >= limit
}

/// Shows an item: its entry node, then (the first time its path is seen)
/// the items filed under it, limited.
pub open spec fn show_item(
    p: (usize, TreeEntry),
    keys: Seq<Seq<Seq<char>>>,
    kids: Seq<Option<Seq<(usize, TreeEntry)>>>,
    fd: Option<usize>,
    mi: Option<usize>,
) -> (Seq<TreeNode>, Seq<Option<Seq<(usize, TreeEntry)>>>)
    decreases untaken(kids), 0nat, 0nat,
{
    let node = TreeNode::Entry { entry: p.1, index: p.0 };
    let i = find_key(keys, entry_key(p.1));
    if 0 <= i < kids.len() && kids[i] is Some {
        let rest = kids.update(i, None);
        proof {
            lemma_untaken_take(kids, i);
        }
        let (out, left) = show_list(kids[i]->0, keys, rest, fd, mi);
        (seq![node] + out, left)
    } else {
        (seq![node], kids)
    }
}

/// Shows the items of one directory listing from position `j` on, with
/// `kept` items shown so far and `hf`/`hi` hidden by the file-depth and
/// item limits. Returns the nodes, the lists not yet taken and the final
/// hidden counts.
pub open spec fn show_from(
    list: Seq<(usize, TreeEntry)>,
    j: int,
    kept: nat,
    hf: nat,
    hi: nat,
    keys: Seq<Seq<Seq<char>>>,
    kids: Seq<Option<Seq<(usize, TreeEntry)>>>,
    fd: Option<usize>,
    mi: Option<usize>,
) -> (Seq<TreeNode>, Seq<Option<Seq<(usize, TreeEntry)>>>, nat, nat)
    decreases untaken(kids), 1nat, list.len() - j,
{
    if j < 0 || j >= list.len() {
        (Seq::empty(), kids, hf, hi)
    } else {
        let c = list[j];
        if hidden_by_depth(c.1, fd) {
            show_from(list, j + 1, kept, hf + 1, hi, keys, kids, fd, mi)
        } else if over_limit(kept, mi) {
            show_from(list, j + 1, kept, hf, hi + 1, keys, kids, fd, mi)
        } else {
            let (sub, after) = show_item(c, keys, kids, fd, mi);
            if untaken(after) <= untaken(kids) {
                let (more, left, hf2, hi2) = show_from(list, j + 1, kept + 1, hf, hi, keys, after, fd, mi);
                (sub + more, left, hf2, hi2)
            } else {
                (sub, after, hf, hi)
            }
        }
    }
}

/// Shows one directory listing: its shown items, then a summary node when
/// anything was hidden.
pub open spec fn show_list(
    list: Seq<(usize, TreeEntry)>,
    keys: Seq<Seq<Seq<char>>>,
    kids: Seq<Option<Seq<(usize, TreeEntry)>>>,
    fd: Option<usize>,
    mi: Option<usize>,
) -> (Seq<TreeNode>, Seq<Option<Seq<(usize, TreeEntry)>>>)
    decreases untaken(kids), 1nat, list.len() + 1,
{
    let (out, left, hf, hi) = show_from(list, 0, 0, 0, 0, keys, kids, fd, mi);
    let depth = if list.len() > 0 { list[0].1.depth_view() } else { 1 };
    if hf > 0 || hi > 0 {
        (out.push(TreeNode::Summary { depth: depth as usize, hidden_files: hf as usize, hidden_items: hi as usize }), left)
    } else {
        (out, left)
    }
}


proof fn lemma_show_item_untaken(p: (usize, TreeEntry), keys: Seq<Seq<Seq<char>>>, kids: Seq<Option<Seq<(usize, TreeEntry)>>>, fd: Option<usize>, mi: Option<usize>)
    ensures
        untaken(show_item(p, keys, kids, fd, mi).1) <= untaken(kids),
        show_item(p, keys, kids, fd, mi).1.len() == kids.len(),
    decreases untaken(kids), 0nat, 0nat,
{
    let i = find_key(keys, entry_key(p.1));
    if 0 <= i < kids.len() && kids[i] is Some {
        let rest = kids.update(i, None);
        lemma_untaken_take(kids, i);
        lemma_show_list_untaken(kids[i]->0, keys, rest, fd, mi);
    }
}

proof fn lemma_show_from_untaken(list: Seq<(usize, TreeEntry)>, j: int, kept: nat, hf: nat, hi: nat, keys: Seq<Seq<Seq<char>>>, kids: Seq<Option<Seq<(usize, TreeEntry)>>>, fd: Option<usize>, mi: Option<usize>)
    ensures
        untaken(show_from(list, j, kept, hf, hi, keys, kids, fd, mi).1) <= untaken(kids),
        show_from(list, j, kept, hf, hi, keys, kids, fd, mi).1.len() == kids.len(),
        show_from(list, j, kept, hf, hi, keys, kids, fd, mi).2 >= hf,
        show_from(list, j, kept, hf, hi, keys, kids, fd, mi).3 >= hi,
        show_from(list, j, kept, hf, hi, keys, kids, fd, mi).2 + show_from(list, j, kept, hf, hi, keys, kids, fd, mi).3
            <= hf + hi + (if 0 <= j <= list.len() { list.len() - j } else { 0 }),
    decreases untaken(kids), 1nat, list.len() - j,
{
    if 0 <= j < list.len() {
        let c = list[j];
        if hidden_by_depth(c.1, fd) {
            lemma_show_from_untaken(list, j + 1, kept, hf + 1, hi, keys, kids, fd, mi);
        } else if over_limit(kept, mi) {
            lemma_show_from_untaken(list, j + 1, kept, hf, hi + 1, keys, kids, fd, mi);
        } else {
            lemma_show_item_untaken(c, keys, kids, fd, mi);
            let after = show_item(c, keys, kids, fd, mi).1;
            lemma_show_from_untaken(list, j + 1, kept + 1, hf, hi, keys, after, fd, mi);
        }
    }
}

proof fn lemma_show_list_untaken(list: Seq<(usize, TreeEntry)>, keys: Seq<Seq<Seq<char>>>, kids: Seq<Option<Seq<(usize, TreeEntry)>>>, fd: Option<usize>, mi: Option<usize>)
    ensures
        untaken(show_list(list, keys, kids, fd, mi).1) <= untaken(kids),
        show_list(list, keys, kids, fd, mi).1.len() == kids.len(),
    decreases untaken(kids), 1nat, list.len() + 1,
{
    lemma_show_from_untaken(list, 0, 0, 0, 0, keys, kids, fd, mi);
}

/// Showing a shown item and then the rest of the listing.
proof fn lemma_show_from_unfold(list: Seq<(usize, TreeEntry)>, j: int, kept: nat, hf: nat, hi: nat, keys: Seq<Seq<Seq<char>>>, kids: Seq<Option<Seq<(usize, TreeEntry)>>>, fd: Option<usize>, mi: Option<usize>)
    requires
        0 <= j < list.len(),
        !hidden_by_depth(list[j].1, fd),
        !over_limit(kept, mi),
    ensures
        show_from(list, j, kept, hf, hi, keys, kids, fd, mi) == ({
            let (sub, after) = show_item(list[j], keys, kids, fd, mi);
            let (more, left, hf2, hi2) = show_from(list, j + 1, kept + 1, hf, hi, keys, after, fd, mi);
            (sub + more, left, hf2, hi2)
        }),
{
    lemma_show_item_untaken(list[j], keys, kids, fd, mi);
}


fn exec_hidden_by_depth(e: &TreeEntry, fd: Option<usize>) -> (r: bool)
    ensures r == hidden_by_depth(*e, fd),
{
    !e.is_dir() && match fd {
        Some(limit) => e.depth() > limit,
        None => false,
    }
}

fn exec_over_limit(kept: usize, mi: Option<usize>) -> (r: bool)
    ensures r == over_limit(kept as nat, mi),
{
    match mi {
        Some(limit) => kept >= limit,
        None => false,
    }
}

fn show_item_exec(
    p: (usize, TreeEntry),
    keys: &Vec<Vec<String>>,
    kids: &mut Vec<Option<Vec<(usize, TreeEntry)>>>,
    fd: Option<usize>,
    mi: Option<usize>,
    out: &mut Vec<TreeNode>,
)
    ensures
        final(out)@ == old(out)@ + show_item(p, keys.deep_view(), kids_view(old(kids)@), fd, mi).0,
        kids_view(final(kids)@) == show_item(p, keys.deep_view(), kids_view(old(kids)@), fd, mi).1,
    decreases untaken(kids_view(old(kids)@)), 0nat, 0nat,
{
    let ghost kids0 = kids_view(kids@);
    let ghost ks = keys.deep_view();
    let ghost p0 = p;
    let (index, entry) = p;
    let key = components(entry.path().as_str());
    let found = find_group(keys, &key);
    let mut children: Option<Vec<(usize, TreeEntry)>> = None;
    if let Some(i) = found {
        if i < kids.len() && kids[i].is_some() {
            children = kids.remove(i);
            kids.insert(i, None);
            proof {
                assert(kids_view(kids@) =~= kids0.update(i as int, None));
                lemma_untaken_take(kids0, i as int);
            }
        }
    }
    out.push(TreeNode::Entry { entry, index });
    match children {
        Some(list) => {
            show_list_exec(list, keys, kids, fd, mi, out);
            proof {
                assert(out@ =~= old(out)@ + show_item(p0, ks, kids0, fd, mi).0);
            }
        },
        None => {
            proof {
                assert(out@ =~= old(out)@ + show_item(p0, ks, kids0, fd, mi).0);
            }
        },
    }
}

fn show_list_exec(
    list: Vec<(usize, TreeEntry)>,
    keys: &Vec<Vec<String>>,
    kids: &mut Vec<Option<Vec<(usize, TreeEntry)>>>,
    fd: Option<usize>,
    mi: Option<usize>,
    out: &mut Vec<TreeNode>,
)
    ensures
        final(out)@ == old(out)@ + show_list(list@, keys.deep_view(), kids_view(old(kids)@), fd, mi).0,
        kids_view(final(kids)@) == show_list(list@, keys.deep_view(), kids_view(old(kids)@), fd, mi).1,
    decreases untaken(kids_view(old(kids)@)), 1nat, list@.len() + 1,
{
    let ghost ks = keys.deep_view();
    let ghost all = list@;
    let ghost kids0 = kids_view(kids@);
    let ghost out0 = out@;
    let count = list.len();
    let child_depth = if count > 0 { list[0].1.depth() } else { 1 };
    let mut kept: usize = 0;
    let mut hf: usize = 0;
    let mut hi: usize = 0;
    proof {
        lemma_show_from_untaken(all, 0, 0, 0, 0, ks, kids0, fd, mi);
    }
    for c in it: list.into_iter()
        invariant
            all == it.seq(),
            ks == keys.deep_view(),
            kids0 == kids_view(old(kids)@),
            untaken(kids_view(kids@)) <= untaken(kids0),
            kept + hf + hi == it.index(),
            it.index() <= all.len(),
            count == all.len(),
            out0 + show_from(all, 0, 0, 0, 0, ks, kids0, fd, mi).0
                == out@ + show_from(all, it.index() as int, kept as nat, hf as nat, hi as nat, ks, kids_view(kids@), fd, mi).0,
            show_from(all, 0, 0, 0, 0, ks, kids0, fd, mi).1
                == show_from(all, it.index() as int, kept as nat, hf as nat, hi as nat, ks, kids_view(kids@), fd, mi).1,
            show_from(all, 0, 0, 0, 0, ks, kids0, fd, mi).2
                == show_from(all, it.index() as int, kept as nat, hf as nat, hi as nat, ks, kids_view(kids@), fd, mi).2,
            show_from(all, 0, 0, 0, 0, ks, kids0, fd, mi).3
                == show_from(all, it.index() as int, kept as nat, hf as nat, hi as nat, ks, kids_view(kids@), fd, mi).3,
    {
        let ghost j = it.index() as int;
        proof {
            assert(all[j] == c);
            assert(j < all.len());
        }
        if exec_hidden_by_depth(&c.1, fd) {
            hf = hf + 1;
        } else if exec_over_limit(kept, mi) {
            hi = hi + 1;
        } else {
            proof {
                lemma_show_from_unfold(all, j, kept as nat, hf as nat, hi as nat, ks, kids_view(kids@), fd, mi);
                lemma_show_item_untaken(c, ks, kids_view(kids@), fd, mi);
            }
            show_item_exec(c, keys, kids, fd, mi, out);
            kept = kept + 1;
        }
    }
    proof {
        assert(show_from(all, all.len() as int, kept as nat, hf as nat, hi as nat, ks, kids_view(kids@), fd, mi).0 =~= Seq::<TreeNode>::empty());
    }
    if hf > 0 || hi > 0 {
        out.push(TreeNode::Summary { depth: child_depth, hidden_files: hf, hidden_items: hi });
    }
    proof {
        assert(out@ =~= old(out)@ + show_list(all, ks, kids0, fd, mi).0);
    }
}


/// The nodes shown for `es` under the limits: with no limits, every entry
/// in order; otherwise, starting from the top-level entries, each
/// directory's listing in input order where files deeper than the file
/// depth are hidden, at most `max_items` entries are shown (a hidden entry
/// takes its whole subtree with it), and a summary node follows any
/// listing with hidden entries.
pub open spec fn limited_nodes(es: Seq<TreeEntry>, fd: Option<usize>, mi: Option<usize>) -> Seq<TreeNode> {
    if fd is None && mi is None {
        Seq::new(es.len(), |i: int| TreeNode::Entry { entry: es[i], index: i as usize })
    } else {
        let ps = indexed(es);
        let keys = item_keys(ps);
        show_list(top_items(ps), keys, Seq::new(keys.len(), |g: int| Some(items_under(ps, keys[g]))), fd, mi).0
    }
}

/// No entry node of `nodes` is a file hidden by the file-depth limit.
pub open spec fn no_deep_files(nodes: Seq<TreeNode>, fd: Option<usize>) -> bool {
    forall|k: int| 0 <= k < nodes.len() && (#[trigger] nodes[k]) is Entry ==> !hidden_by_depth(nodes[k]->entry, fd)
}

proof fn lemma_no_deep_files_concat(a: Seq<TreeNode>, b: Seq<TreeNode>, fd: Option<usize>)
    requires
        no_deep_files(a, fd),
        no_deep_files(b, fd),
    ensures
        no_deep_files(a + b, fd),
{
    assert forall|k: int| 0 <= k < (a + b).len() && (#[trigger] (a + b)[k]) is Entry implies !hidden_by_depth((a + b)[k]->entry, fd) by {
        if k < a.len() {
            assert((a + b)[k] == a[k]);
        } else {
            assert((a + b)[k] == b[k - a.len()]);
        }
    }
}

proof fn lemma_item_shallow(p: (usize, TreeEntry), keys: Seq<Seq<Seq<char>>>, kids: Seq<Option<Seq<(usize, TreeEntry)>>>, fd: Option<usize>, mi: Option<usize>)
    requires
        !hidden_by_depth(p.1, fd),
    ensures
        no_deep_files(show_item(p, keys, kids, fd, mi).0, fd),
    decreases untaken(kids), 0nat, 0nat,
{
    let node = TreeNode::Entry { entry: p.1, index: p.0 };
    assert(no_deep_files(seq![node], fd));
    let i = find_key(keys, entry_key(p.1));
    if 0 <= i < kids.len() && kids[i] is Some {
        let rest = kids.update(i, None);
        lemma_untaken_take(kids, i);
        lemma_list_shallow(kids[i]->0, keys, rest, fd, mi);
        lemma_no_deep_files_concat(seq![node], show_list(kids[i]->0, keys, rest, fd, mi).0, fd);
    }
}

proof fn lemma_from_shallow(
    list: Seq<(usize, TreeEntry)>,
    j: int,
    kept: nat,
    hf: nat,
    hi: nat,
    keys: Seq<Seq<Seq<char>>>,
    kids: Seq<Option<Seq<(usize, TreeEntry)>>>,
    fd: Option<usize>,
    mi: Option<usize>,
)
    ensures
        no_deep_files(show_from(list, j, kept, hf, hi, keys, kids, fd, mi).0, fd),
    decreases untaken(kids), 1nat, list.len() - j,
{
    if 0 <= j < list.len() {
        let c = list[j];
        if hidden_by_depth(c.1, fd) {
            lemma_from_shallow(list, j + 1, kept, hf + 1, hi, keys, kids, fd, mi);
        } else if over_limit(kept, mi) {
            lemma_from_shallow(list, j + 1, kept, hf, hi + 1, keys, kids, fd, mi);
        } else {
            lemma_item_shallow(c, keys, kids, fd, mi);
            lemma_show_item_untaken(c, keys, kids, fd, mi);
            let after = show_item(c, keys, kids, fd, mi).1;
            lemma_from_shallow(list, j + 1, kept + 1, hf, hi, keys, after, fd, mi);
            lemma_no_deep_files_concat(show_item(c, keys, kids, fd, mi).0,
                show_from(list, j + 1, kept + 1, hf, hi, keys, after, fd, mi).0, fd);
        }
    } else {
        assert(no_deep_files(Seq::<TreeNode>::empty(), fd));
    }
}

proof fn lemma_list_shallow(list: Seq<(usize, TreeEntry)>, keys: Seq<Seq<Seq<char>>>, kids: Seq<Option<Seq<(usize, TreeEntry)>>>, fd: Option<usize>, mi: Option<usize>)
    ensures
        no_deep_files(show_list(list, keys, kids, fd, mi).0, fd),
    decreases untaken(kids), 1nat, list.len() + 1,
{
    lemma_from_shallow(list, 0, 0, 0, 0, keys, kids, fd, mi);
    let out = show_from(list, 0, 0, 0, 0, keys, kids, fd, mi).0;
    let r = show_list(list, keys, kids, fd, mi).0;
    assert forall|k: int| 0 <= k < r.len() && (#[trigger] r[k]) is Entry implies !hidden_by_depth(r[k]->entry, fd) by {
        assert(k < out.len());
        assert(r[k] == out[k]);
    }
}

/// `--file-depth` hides every file below it: no entry shown under a
/// file-depth limit is a file deeper than the limit (directories are
/// always shown, as far as the item limit allows).
pub proof fn lemma_no_deep_files(es: Seq<TreeEntry>, fd: Option<usize>, mi: Option<usize>)
    ensures
        no_deep_files(limited_nodes(es, fd, mi), fd),
{
    if fd is None && mi is None {
        let nodes = limited_nodes(es, fd, mi);
        assert forall|k: int| 0 <= k < nodes.len() && (#[trigger] nodes[k]) is Entry implies !hidden_by_depth(nodes[k]->entry, fd) by {
        }
    } else {
        let ps = indexed(es);
        let keys = item_keys(ps);
        lemma_list_shallow(top_items(ps), keys, Seq::new(keys.len(), |g: int| Some(items_under(ps, keys[g]))), fd, mi);
    }
}

/// `s` is a non-empty depth-first run of nodes starting at depth `d`: no
/// node is shallower than `d` or more than one level deeper than the node
/// before it, and only directory entries have deeper nodes after them.
pub open spec fn node_run_at(s: Seq<TreeNode>, d: nat) -> bool {
    &&& s.len() > 0
    &&& s[0].depth_view() == d
    &&& forall|k: int| 0 <= k < s.len() ==> #[trigger] s[k].depth_view() >= d
    &&& forall|k: int| 0 < k < s.len() ==> #[trigger] s[k].depth_view() <= s[k - 1].depth_view() + 1
    &&& forall|k: int| 0 < k < s.len() && #[trigger] s[k].depth_view() > s[k - 1].depth_view() ==>
        (s[k - 1] matches TreeNode::Entry { entry, .. } && entry.is_dir_view())
}

/// Every item list not taken yet holds items of `es` filed under its key.
pub open spec fn items_from(kids: Seq<Option<Seq<(usize, TreeEntry)>>>, keys: Seq<Seq<Seq<char>>>, es: Seq<TreeEntry>) -> bool {
    forall|g: int, m: int| 0 <= g < kids.len() && kids[g] is Some && 0 <= m < kids[g]->0.len() ==>
        es.contains((#[trigger] kids[g]->0[m]).1) && files_under(kids[g]->0[m].1, keys[g])
}

proof fn lemma_node_run_concat(a: Seq<TreeNode>, b: Seq<TreeNode>, d: nat)
    requires
        node_run_at(a, d),
        b.len() == 0 || node_run_at(b, d),
    ensures
        node_run_at(a + b, d),
{
    let c = a + b;
    assert forall|k: int| 0 <= k < c.len() implies #[trigger] c[k].depth_view() >= d by {
        if k >= a.len() {
            assert(c[k] == b[k - a.len()]);
        }
    }
    assert forall|k: int| 0 < k < c.len() implies #[trigger] c[k].depth_view() <= c[k - 1].depth_view() + 1 by {
        if k > a.len() {
            assert(c[k] == b[k - a.len()]);
            assert(c[k - 1] == b[k - 1 - a.len()]);
        } else if k == a.len() {
            assert(c[k] == b[0]);
            assert(c[k - 1] == a[a.len() - 1]);
        }
    }
    assert forall|k: int| 0 < k < c.len() && #[trigger] c[k].depth_view() > c[k - 1].depth_view() implies
        (c[k - 1] matches TreeNode::Entry { entry, .. } && entry.is_dir_view()) by {
        if k > a.len() {
            assert(c[k] == b[k - a.len()]);
            assert(c[k - 1] == b[k - 1 - a.len()]);
        } else if k == a.len() {
            assert(c[k] == b[0]);
            assert(c[k - 1] == a[a.len() - 1]);
        } else {
            assert(c[k] == a[k]);
            assert(c[k - 1] == a[k - 1]);
        }
    }
}

proof fn lemma_show_from_empty(
    list: Seq<(usize, TreeEntry)>,
    j: int,
    kept: nat,
    hf: nat,
    hi: nat,
    keys: Seq<Seq<Seq<char>>>,
    kids: Seq<Option<Seq<(usize, TreeEntry)>>>,
    fd: Option<usize>,
    mi: Option<usize>,
)
    requires
        list.len() == 0,
    ensures
        show_from(list, j, kept, hf, hi, keys, kids, fd, mi) == (Seq::<TreeNode>::empty(), kids, hf, hi),
{
}

proof fn lemma_item_run(
    p: (usize, TreeEntry),
    keys: Seq<Seq<Seq<char>>>,
    kids: Seq<Option<Seq<(usize, TreeEntry)>>>,
    fd: Option<usize>,
    mi: Option<usize>,
    es: Seq<TreeEntry>,
)
    requires
        crate::tree::well_formed_walk(es),
        parents_are_dirs(es),
        es.contains(p.1),
        items_from(kids, keys, es),
    ensures
        node_run_at(show_item(p, keys, kids, fd, mi).0, p.1.depth_view()),
        items_from(show_item(p, keys, kids, fd, mi).1, keys, es),
    decreases untaken(kids), 0nat, 0nat,
{
    let node = TreeNode::Entry { entry: p.1, index: p.0 };
    let d = p.1.depth_view();
    assert(node_run_at(seq![node], d));
    let i = find_key(keys, entry_key(p.1));
    lemma_find_key(keys, entry_key(p.1));
    if 0 <= i < kids.len() && kids[i] is Some {
        let rest = kids.update(i, None);
        lemma_untaken_take(kids, i);
        let list = kids[i]->0;
        assert forall|g: int, m: int| 0 <= g < rest.len() && rest[g] is Some && 0 <= m < rest[g]->0.len() implies
            es.contains((#[trigger] rest[g]->0[m]).1) && files_under(rest[g]->0[m].1, keys[g]) by {
            assert(rest[g] == kids[g]);
        }
        let b = choose|b: int| 0 <= b < es.len() && es[b] == p.1;
        assert forall|m: int| 0 <= m < list.len() implies es.contains((#[trigger] list[m]).1) && list[m].1.depth_view() == d + 1
            && es[b].is_dir_view() by {
            assert(es.contains(kids[i]->0[m].1) && files_under(kids[i]->0[m].1, keys[i]));
            let a = choose|a: int| 0 <= a < es.len() && es[a] == list[m].1;
            assert(files_under(es[a], entry_key(es[b])));
        }
        lemma_list_run(list, keys, rest, fd, mi, es, d + 1);
        let sub = show_list(list, keys, rest, fd, mi).0;
        if sub.len() > 0 {
            assert(list.len() > 0);
            assert(p.1.is_dir_view());
            let r = seq![node] + sub;
            assert forall|k: int| 0 <= k < r.len() implies #[trigger] r[k].depth_view() >= d by {
                if k > 0 {
                    assert(r[k] == sub[k - 1]);
                }
            }
            assert forall|k: int| 0 < k < r.len() implies #[trigger] r[k].depth_view() <= r[k - 1].depth_view() + 1 by {
                assert(r[k] == sub[k - 1]);
                if k > 1 {
                    assert(r[k - 1] == sub[k - 2]);
                }
            }
            assert forall|k: int| 0 < k < r.len() && #[trigger] r[k].depth_view() > r[k - 1].depth_view() implies
                (r[k - 1] matches TreeNode::Entry { entry, .. } && entry.is_dir_view()) by {
                assert(r[k] == sub[k - 1]);
                if k > 1 {
                    assert(r[k - 1] == sub[k - 2]);
                }
            }
            assert(show_item(p, keys, kids, fd, mi).0 == r);
        } else {
            assert(show_item(p, keys, kids, fd, mi).0 =~= seq![node]);
        }
    } else {
        assert(show_item(p, keys, kids, fd, mi).0 =~= seq![node]);
    }
}

proof fn lemma_from_run(
    list: Seq<(usize, TreeEntry)>,
    j: int,
    kept: nat,
    hf: nat,
    hi: nat,
    keys: Seq<Seq<Seq<char>>>,
    kids: Seq<Option<Seq<(usize, TreeEntry)>>>,
    fd: Option<usize>,
    mi: Option<usize>,
    es: Seq<TreeEntry>,
    d: nat,
)
    requires
        crate::tree::well_formed_walk(es),
        parents_are_dirs(es),
        forall|m: int| 0 <= m < list.len() ==> es.contains((#[trigger] list[m]).1) && list[m].1.depth_view() == d,
        items_from(kids, keys, es),
    ensures
        show_from(list, j, kept, hf, hi, keys, kids, fd, mi).0.len() == 0
            || node_run_at(show_from(list, j, kept, hf, hi, keys, kids, fd, mi).0, d),
        items_from(show_from(list, j, kept, hf, hi, keys, kids, fd, mi).1, keys, es),
    decreases untaken(kids), 1nat, list.len() - j,
{
    if 0 <= j < list.len() {
        let c = list[j];
        if hidden_by_depth(c.1, fd) {
            lemma_from_run(list, j + 1, kept, hf + 1, hi, keys, kids, fd, mi, es, d);
        } else if over_limit(kept, mi) {
            lemma_from_run(list, j + 1, kept, hf, hi + 1, keys, kids, fd, mi, es, d);
        } else {
            lemma_item_run(c, keys, kids, fd, mi, es);
            lemma_show_item_untaken(c, keys, kids, fd, mi);
            let after = show_item(c, keys, kids, fd, mi).1;
            lemma_from_run(list, j + 1, kept + 1, hf, hi, keys, after, fd, mi, es, d);
            lemma_node_run_concat(show_item(c, keys, kids, fd, mi).0,
                show_from(list, j + 1, kept + 1, hf, hi, keys, after, fd, mi).0, d);
        }
    }
}

proof fn lemma_list_run(
    list: Seq<(usize, TreeEntry)>,
    keys: Seq<Seq<Seq<char>>>,
    kids: Seq<Option<Seq<(usize, TreeEntry)>>>,
    fd: Option<usize>,
    mi: Option<usize>,
    es: Seq<TreeEntry>,
    d: nat,
)
    requires
        crate::tree::well_formed_walk(es),
        parents_are_dirs(es),
        forall|m: int| 0 <= m < list.len() ==> es.contains((#[trigger] list[m]).1) && list[m].1.depth_view() == d,
        items_from(kids, keys, es),
    ensures
        show_list(list, keys, kids, fd, mi).0.len() == 0 || node_run_at(show_list(list, keys, kids, fd, mi).0, d),
        list.len() == 0 ==> show_list(list, keys, kids, fd, mi).0.len() == 0,
        items_from(show_list(list, keys, kids, fd, mi).1, keys, es),
    decreases untaken(kids), 1nat, list.len() + 1,
{
    lemma_from_run(list, 0, 0, 0, 0, keys, kids, fd, mi, es, d);
    let (out, left, hf, hi) = show_from(list, 0, 0, 0, 0, keys, kids, fd, mi);
    if list.len() == 0 {
        lemma_show_from_empty(list, 0, 0, 0, 0, keys, kids, fd, mi);
    }
    if hf > 0 || hi > 0 {
        if list.len() == 0 {
            lemma_show_from_empty(list, 0, 0, 0, 0, keys, kids, fd, mi);
        }
        assert(list.len() > 0);
        let s = TreeNode::Summary { depth: list[0].1.depth_view() as usize, hidden_files: hf as usize, hidden_items: hi as usize };
        assert(s.depth_view() == d);
        let r = out.push(s);
        if out.len() == 0 {
            assert(r =~= seq![s]);
            assert(node_run_at(r, d));
        } else {
            assert(node_run_at(seq![s], d));
            assert(r =~= out + seq![s]);
            lemma_node_run_concat(out, seq![s], d);
        }
    }
}

/// The display limits keep the shape of a tree: for the entries of a
/// consistent walk in which only directories have entries filed under
/// them, the limited nodes are depth-first (starting at depth 1, no node
/// more than one level deeper than the node before it) and only directory
/// entries have deeper nodes after them. (With no limit set the nodes are
/// the entries themselves, so this needs the entries to be so already.)
pub proof fn lemma_limits_keep_shape(es: Seq<TreeEntry>, fd: Option<usize>, mi: Option<usize>)
    requires
        crate::tree::well_formed_walk(es),
        parents_are_dirs(es),
        fd is None && mi is None ==> depth_first(node_depths(limited_nodes(es, fd, mi)))
            && only_dirs_nest(limited_nodes(es, fd, mi)),
    ensures
        depth_first(node_depths(limited_nodes(es, fd, mi))),
        only_dirs_nest(limited_nodes(es, fd, mi)),
{
    if !(fd is None && mi is None) {
        let ps = indexed(es);
        let keys = item_keys(ps);
        let kids = Seq::new(keys.len(), |g: int| Some(items_under(ps, keys[g])));
        lemma_top_items_members(es);
        assert forall|g: int, m: int| 0 <= g < kids.len() && kids[g] is Some && 0 <= m < kids[g]->0.len() implies
            es.contains((#[trigger] kids[g]->0[m]).1) && files_under(kids[g]->0[m].1, keys[g]) by {
            lemma_items_under_members(es, keys[g]);
        }
        let top = top_items(ps);
        lemma_list_run(top, keys, kids, fd, mi, es, 1);
        let nodes = limited_nodes(es, fd, mi);
        let ds = node_depths(nodes);
        if nodes.len() > 0 {
            assert(node_run_at(nodes, 1));
            assert forall|i: int| 0 <= i < ds.len() implies #[trigger] ds[i] >= 1 by {
                assert(nodes[i].depth_view() >= 1);
            }
            assert forall|i: int| 0 < i < ds.len() implies #[trigger] ds[i] <= ds[i - 1] + 1 by {
                assert(nodes[i].depth_view() <= nodes[i - 1].depth_view() + 1);
            }
        }
    }
}

/// The number of entry nodes at depth `d` from node `i` on, up to the
/// first node shallower than `d`: how many entries a listing at depth
/// `d` shows from `i` on.
pub open spec fn listing_count(s: Seq<TreeNode>, i: int, d: nat) -> nat
    decreases s.len() - i,
{
    if i < 0 || i >= s.len() || s[i].depth_view() < d {
        0
    } else {
        (if s[i] is Entry && s[i].depth_view() == d { 1nat } else { 0nat }) + listing_count(s, i + 1, d)
    }
}

/// No listing of `s` shows more than `m` entries: counting from any
/// entry, the entries at its depth before its listing ends number at most
/// `m`.
pub open spec fn listings_capped(s: Seq<TreeNode>, m: nat) -> bool {
    forall|i: int| 0 <= i < s.len() && (#[trigger] s[i]) is Entry ==> listing_count(s, i, s[i].depth_view()) <= m
}

/// Every node of `s` from `i` on is at depth `d` or deeper.
pub open spec fn all_at_least(s: Seq<TreeNode>, i: int, d: nat) -> bool {
    forall|k: int| i <= k < s.len() ==> #[trigger] s[k].depth_view() >= d
}

proof fn lemma_lc_concat(a: Seq<TreeNode>, b: Seq<TreeNode>, i: int, d: nat)
    requires
        0 <= i <= a.len(),
    ensures
        listing_count(a + b, i, d) == listing_count(a, i, d) + (if all_at_least(a, i, d) { listing_count(b, 0, d) } else { 0 }),
    decreases a.len() - i,
{
    if i == a.len() {
        lemma_lc_shift(a, b, i, d);
        assert(all_at_least(a, i, d));
    } else {
        assert((a + b)[i] == a[i]);
        if a[i].depth_view() >= d {
            lemma_lc_concat(a, b, i + 1, d);
            if all_at_least(a, i + 1, d) {
                assert(all_at_least(a, i, d));
            } else {
                let k = choose|k: int| i + 1 <= k < a.len() && !(#[trigger] a[k].depth_view() >= d);
                assert(!all_at_least(a, i, d) || a[k].depth_view() >= d);
            }
        } else {
            assert(!all_at_least(a, i, d) || a[i].depth_view() >= d);
        }
    }
}

proof fn lemma_lc_shift(a: Seq<TreeNode>, b: Seq<TreeNode>, i: int, d: nat)
    requires
        a.len() <= i,
    ensures
        listing_count(a + b, i, d) == listing_count(b, i - a.len(), d),
    decreases (a + b).len() - i,
{
    if i < (a + b).len() {
        assert((a + b)[i] == b[i - a.len()]);
        lemma_lc_shift(a, b, i + 1, d);
    }
}

proof fn lemma_lc_deeper(s: Seq<TreeNode>, i: int, d: nat)
    requires
        0 <= i,
        all_at_least(s, i, d + 1),
    ensures
        listing_count(s, i, d) == 0,
    decreases s.len() - i,
{
    if i < s.len() {
        lemma_lc_deeper(s, i + 1, d);
    }
}

proof fn lemma_lc_push_summary(a: Seq<TreeNode>, s: TreeNode, i: int, e: nat)
    requires
        0 <= i <= a.len(),
        s is Summary,
    ensures
        listing_count(a.push(s), i, e) == listing_count(a, i, e),
{
    assert(a.push(s) =~= a + seq![s]);
    lemma_lc_concat(a, seq![s], i, e);
    assert(listing_count(seq![s], 1, e) == 0);
}

proof fn lemma_item_capped(
    p: (usize, TreeEntry),
    keys: Seq<Seq<Seq<char>>>,
    kids: Seq<Option<Seq<(usize, TreeEntry)>>>,
    fd: Option<usize>,
    m: nat,
    es: Seq<TreeEntry>,
)
    requires
        m >= 1,
        m <= usize::MAX,
        crate::tree::well_formed_walk(es),
        parents_are_dirs(es),
        es.contains(p.1),
        items_from(kids, keys, es),
    ensures
        listing_count(show_item(p, keys, kids, fd, Some(m as usize)).0, 0, p.1.depth_view()) == 1,
        listings_capped(show_item(p, keys, kids, fd, Some(m as usize)).0, m),
    decreases untaken(kids), 0nat, 0nat,
{
    let mi = Some(m as usize);
    let node = TreeNode::Entry { entry: p.1, index: p.0 };
    let d = p.1.depth_view();
    lemma_item_run(p, keys, kids, fd, mi, es);
    let i = find_key(keys, entry_key(p.1));
    lemma_find_key(keys, entry_key(p.1));
    let r = show_item(p, keys, kids, fd, mi).0;
    let sub = if 0 <= i < kids.len() && kids[i] is Some {
        show_list(kids[i]->0, keys, kids.update(i, None), fd, mi).0
    } else {
        Seq::<TreeNode>::empty()
    };
    if 0 <= i < kids.len() && kids[i] is Some {
        let rest = kids.update(i, None);
        lemma_untaken_take(kids, i);
        let list = kids[i]->0;
        assert forall|g: int, mm: int| 0 <= g < rest.len() && rest[g] is Some && 0 <= mm < rest[g]->0.len() implies
            es.contains((#[trigger] rest[g]->0[mm]).1) && files_under(rest[g]->0[mm].1, keys[g]) by {
            assert(rest[g] == kids[g]);
        }
        let b = choose|b: int| 0 <= b < es.len() && es[b] == p.1;
        assert forall|mm: int| 0 <= mm < list.len() implies es.contains((#[trigger] list[mm]).1) && list[mm].1.depth_view() == d + 1 by {
            assert(es.contains(kids[i]->0[mm].1) && files_under(kids[i]->0[mm].1, keys[i]));
            let a = choose|a: int| 0 <= a < es.len() && es[a] == list[mm].1;
            assert(files_under(es[a], entry_key(es[b])));
        }
        lemma_list_capped(list, keys, rest, fd, m, es, d + 1);
        lemma_list_run(list, keys, rest, fd, mi, es, d + 1);
    } else {
        assert(r =~= seq![node]);
    }
    assert(r =~= seq![node] + sub);
    assert(all_at_least(sub, 0, d + 1)) by {
        if sub.len() > 0 {
            assert(node_run_at(sub, d + 1));
        }
    }
    lemma_lc_concat(seq![node], sub, 0, d);
    lemma_lc_deeper(sub, 0, d);
    assert(listing_count(seq![node], 1, d) == 0);
    assert(all_at_least(seq![node], 0, d));
    assert forall|k: int| 0 <= k < r.len() && (#[trigger] r[k]) is Entry implies listing_count(r, k, r[k].depth_view()) <= m by {
        if k > 0 {
            lemma_lc_shift(seq![node], sub, k, r[k].depth_view());
            assert(r[k] == sub[k - 1]);
            assert(listings_capped(sub, m));
        }
    }
}

proof fn lemma_from_capped(
    list: Seq<(usize, TreeEntry)>,
    j: int,
    kept: nat,
    hf: nat,
    hi: nat,
    keys: Seq<Seq<Seq<char>>>,
    kids: Seq<Option<Seq<(usize, TreeEntry)>>>,
    fd: Option<usize>,
    m: nat,
    es: Seq<TreeEntry>,
    d: nat,
)
    requires
        kept <= m,
        m <= usize::MAX,
        crate::tree::well_formed_walk(es),
        parents_are_dirs(es),
        forall|mm: int| 0 <= mm < list.len() ==> es.contains((#[trigger] list[mm]).1) && list[mm].1.depth_view() == d,
        items_from(kids, keys, es),
    ensures
        listing_count(show_from(list, j, kept, hf, hi, keys, kids, fd, Some(m as usize)).0, 0, d) + kept <= m,
        listings_capped(show_from(list, j, kept, hf, hi, keys, kids, fd, Some(m as usize)).0, m),
    decreases untaken(kids), 1nat, list.len() - j,
{
    let mi = Some(m as usize);
    if 0 <= j < list.len() {
        let c = list[j];
        if hidden_by_depth(c.1, fd) {
            lemma_from_capped(list, j + 1, kept, hf + 1, hi, keys, kids, fd, m, es, d);
        } else if over_limit(kept, mi) {
            lemma_from_capped(list, j + 1, kept, hf, hi + 1, keys, kids, fd, m, es, d);
        } else {
            assert(kept < m);
            lemma_item_capped(c, keys, kids, fd, m, es);
            lemma_item_run(c, keys, kids, fd, mi, es);
            lemma_show_item_untaken(c, keys, kids, fd, mi);
            let after = show_item(c, keys, kids, fd, mi).1;
            lemma_from_capped(list, j + 1, kept + 1, hf, hi, keys, after, fd, m, es, d);
            lemma_from_run(list, j + 1, kept + 1, hf, hi, keys, after, fd, mi, es, d);
            let item = show_item(c, keys, kids, fd, mi).0;
            let more = show_from(list, j + 1, kept + 1, hf, hi, keys, after, fd, mi).0;
            let r = item + more;
            assert(show_from(list, j, kept, hf, hi, keys, kids, fd, mi).0 == r);
            assert(all_at_least(item, 0, d)) by {
                assert(node_run_at(item, d));
            }
            lemma_lc_concat(item, more, 0, d);
            assert forall|k: int| 0 <= k < r.len() && (#[trigger] r[k]) is Entry implies listing_count(r, k, r[k].depth_view()) <= m by {
                let e = r[k].depth_view();
                if k < item.len() {
                    assert(r[k] == item[k]);
                    lemma_lc_concat(item, more, k, e);
                    if k == 0 {
                        assert(e == d);
                    } else {
                        assert(listings_capped(item, m));
                        if all_at_least(item, k, e) && more.len() > 0 {
                            assert(node_run_at(more, d));
                            assert(item[0].depth_view() == d);
                            assert(e >= d);
                            if e > d {
                                assert(listing_count(more, 0, e) == 0);
                            } else {
                                assert(all_at_least(item, 0, d));
                                lemma_lc_concat(item, more, 0, d);
                                lemma_lc_mono(item, 0, k, d);
                            }
                        }
                    }
                } else {
                    assert(r[k] == more[k - item.len()]);
                    lemma_lc_shift(item, more, k, e);
                }
            }
        }
    }
}

proof fn lemma_lc_mono(s: Seq<TreeNode>, i: int, k: int, d: nat)
    requires
        0 <= i <= k <= s.len(),
        all_at_least(s, i, d),
    ensures
        listing_count(s, k, d) <= listing_count(s, i, d),
    decreases k - i,
{
    if i < k {
        lemma_lc_mono(s, i + 1, k, d);
    }
}

proof fn lemma_list_capped(
    list: Seq<(usize, TreeEntry)>,
    keys: Seq<Seq<Seq<char>>>,
    kids: Seq<Option<Seq<(usize, TreeEntry)>>>,
    fd: Option<usize>,
    m: nat,
    es: Seq<TreeEntry>,
    d: nat,
)
    requires
        m <= usize::MAX,
        crate::tree::well_formed_walk(es),
        parents_are_dirs(es),
        forall|mm: int| 0 <= mm < list.len() ==> es.contains((#[trigger] list[mm]).1) && list[mm].1.depth_view() == d,
        items_from(kids, keys, es),
    ensures
        listing_count(show_list(list, keys, kids, fd, Some(m as usize)).0, 0, d) <= m,
        listings_capped(show_list(list, keys, kids, fd, Some(m as usize)).0, m),
    decreases untaken(kids), 1nat, list.len() + 1,
{
    let mi = Some(m as usize);
    lemma_from_capped(list, 0, 0, 0, 0, keys, kids, fd, m, es, d);
    let (out, left, hf, hi) = show_from(list, 0, 0, 0, 0, keys, kids, fd, mi);
    if hf > 0 || hi > 0 {
        let depth = if list.len() > 0 { list[0].1.depth_view() } else { 1 };
        let s = TreeNode::Summary { depth: depth as usize, hidden_files: hf as usize, hidden_items: hi as usize };
        let r = out.push(s);
        lemma_lc_push_summary(out, s, 0, d);
        assert forall|k: int| 0 <= k < r.len() && (#[trigger] r[k]) is Entry implies listing_count(r, k, r[k].depth_view()) <= m by {
            assert(k < out.len());
            assert(r[k] == out[k]);
            lemma_lc_push_summary(out, s, k, r[k].depth_view());
        }
    }
}

/// `--max-items` caps every listing: under a limit of `m` items, no
/// directory listing (nor the top level) shows more than `m` entries,
/// for the entries of a consistent walk whose entries with entries under
/// them are directories.
pub proof fn lemma_max_items_cap(es: Seq<TreeEntry>, fd: Option<usize>, m: usize)
    requires
        crate::tree::well_formed_walk(es),
        parents_are_dirs(es),
    ensures
        listings_capped(limited_nodes(es, fd, Some(m)), m as nat),
{
    let ps = indexed(es);
    let keys = item_keys(ps);
    let kids = Seq::new(keys.len(), |g: int| Some(items_under(ps, keys[g])));
    lemma_top_items_members(es);
    assert forall|g: int, mm: int| 0 <= g < kids.len() && kids[g] is Some && 0 <= mm < kids[g]->0.len() implies
        es.contains((#[trigger] kids[g]->0[mm]).1) && files_under(kids[g]->0[mm].1, keys[g]) by {
        lemma_items_under_members(es, keys[g]);
    }
    lemma_list_capped(top_items(ps), keys, kids, fd, m as nat, es, 1);
}

proof fn lemma_top_items_members(es: Seq<TreeEntry>)
    ensures
        forall|m: int| 0 <= m < top_items(indexed(es)).len() ==> es.contains((#[trigger] top_items(indexed(es))[m]).1)
            && top_items(indexed(es))[m].1.depth_view() == 1,
{
    lemma_top_items_prefix(es, es.len() as int);
    assert(indexed(es).take(es.len() as int) =~= indexed(es));
}

proof fn lemma_top_items_prefix(es: Seq<TreeEntry>, n: int)
    requires
        0 <= n <= es.len(),
    ensures
        forall|m: int| 0 <= m < top_items(indexed(es).take(n)).len() ==> es.contains((#[trigger] top_items(indexed(es).take(n))[m]).1)
            && top_items(indexed(es).take(n))[m].1.depth_view() == 1,
    decreases n,
{
    let ps = indexed(es);
    if n > 0 {
        lemma_top_items_prefix(es, n - 1);
        assert(ps.take(n).drop_last() =~= ps.take(n - 1));
        let pre = top_items(ps.take(n - 1));
        let cur = top_items(ps.take(n));
        assert forall|m: int| 0 <= m < cur.len() implies es.contains((#[trigger] cur[m]).1) && cur[m].1.depth_view() == 1 by {
            if m < pre.len() {
                assert(cur[m] == pre[m]);
            } else {
                assert(cur[m] == ps.take(n).last());
                assert(ps[n - 1].1 == es[n - 1]);
            }
        }
    } else {
        assert(top_items(ps.take(0)) =~= Seq::<(usize, TreeEntry)>::empty()) by {
            assert(ps.take(0) =~= Seq::<(usize, TreeEntry)>::empty());
        }
    }
}

proof fn lemma_items_under_members(es: Seq<TreeEntry>, k: Seq<Seq<char>>)
    ensures
        forall|m: int| 0 <= m < items_under(indexed(es), k).len() ==> es.contains((#[trigger] items_under(indexed(es), k)[m]).1)
            && files_under(items_under(indexed(es), k)[m].1, k),
{
    lemma_items_under_prefix(es, k, es.len() as int);
    assert(indexed(es).take(es.len() as int) =~= indexed(es));
}

proof fn lemma_items_under_prefix(es: Seq<TreeEntry>, k: Seq<Seq<char>>, n: int)
    requires
        0 <= n <= es.len(),
    ensures
        forall|m: int| 0 <= m < items_under(indexed(es).take(n), k).len() ==> es.contains((#[trigger] items_under(indexed(es).take(n), k)[m]).1)
            && files_under(items_under(indexed(es).take(n), k)[m].1, k),
    decreases n,
{
    let ps = indexed(es);
    if n > 0 {
        lemma_items_under_prefix(es, k, n - 1);
        assert(ps.take(n).drop_last() =~= ps.take(n - 1));
        let pre = items_under(ps.take(n - 1), k);
        let cur = items_under(ps.take(n), k);
        assert forall|m: int| 0 <= m < cur.len() implies es.contains((#[trigger] cur[m]).1) && files_under(cur[m].1, k) by {
            if m < pre.len() {
                assert(cur[m] == pre[m]);
            } else {
                assert(cur[m] == ps.take(n).last());
                assert(ps[n - 1].1 == es[n - 1]);
            }
        }
    } else {
        assert(items_under(ps.take(0), k) =~= Seq::<(usize, TreeEntry)>::empty()) by {
            assert(ps.take(0) =~= Seq::<(usize, TreeEntry)>::empty());
        }
    }
}

proof fn lemma_item_keys_distinct(ps: Seq<(usize, TreeEntry)>)
    ensures
        forall|i: int, j: int| 0 <= i < j < item_keys(ps).len() ==> item_keys(ps)[i] != item_keys(ps)[j],
    decreases ps.len(),
{
    if ps.len() > 0 {
        lemma_item_keys_distinct(ps.drop_last());
        let pre = item_keys(ps.drop_last());
        let cur = item_keys(ps);
        assert forall|i: int, j: int| 0 <= i < j < cur.len() implies cur[i] != cur[j] by {
            if j == pre.len() {
                assert(cur[i] == pre[i]);
                assert(pre.contains(pre[i]));
            }
        }
    }
}

proof fn lemma_items_under_empty(ps: Seq<(usize, TreeEntry)>, k: Seq<Seq<char>>)
    requires
        !item_keys(ps).contains(k),
    ensures
        items_under(ps, k) =~= Seq::<(usize, TreeEntry)>::empty(),
    decreases ps.len(),
{
    if ps.len() > 0 {
        let pre = item_keys(ps.drop_last());
        assert forall|x: Seq<Seq<char>>| pre.contains(x) implies item_keys(ps).contains(x) by {
            let w = choose|w: int| 0 <= w < pre.len() && pre[w] == x;
            assert(item_keys(ps)[w] == x);
        }
        lemma_items_under_empty(ps.drop_last(), k);
        if files_under(ps.last().1, k) {
            assert(item_keys(ps).last() == k);
        }
    }
}

fn parent_components_of(e: &TreeEntry) -> (r: Option<Vec<String>>)
    ensures
        match r {
            Some(k) => parent_key(*e) == Some(k.deep_view()),
            None => parent_key(*e) is None,
        },
{
    crate::tree::parent_of(e)
}

/// Applies the display limits, turning entries into renderable nodes. Each
/// directory whose children were suppressed gets one trailing summary
/// node; entries suppressed by `max_items` take their whole subtree with
/// them.
pub fn apply_display_limits(entries: Vec<TreeEntry>, file_depth: Option<usize>, max_items: Option<usize>) -> (nodes: Vec<TreeNode>)
    ensures
        nodes@ == limited_nodes(entries@, file_depth, max_items),
{
    let ghost es = entries@;
    let count = entries.len();
    if file_depth.is_none() && max_items.is_none() {
        let mut nodes: Vec<TreeNode> = Vec::new();
        let mut index: usize = 0;
        for e in it: entries.into_iter()
            invariant
                es == it.seq(),
                index == it.index(),
                index <= es.len(),
                count == es.len(),
                nodes@.len() == index,
                forall|i: int| 0 <= i < index ==> #[trigger] nodes@[i] == (TreeNode::Entry { entry: es[i], index: i as usize }),
        {
            proof {
                assert(es[index as int] == e);
                assert(index < es.len());
            }
            nodes.push(TreeNode::Entry { entry: e, index });
            index = index + 1;
        }
        proof {
            assert(nodes@ =~= limited_nodes(es, file_depth, max_items));
        }
        return nodes;
    }
    let ghost ps = indexed(es);
    let mut roots: Vec<(usize, TreeEntry)> = Vec::new();
    let mut keys: Vec<Vec<String>> = Vec::new();
    let mut groups: Vec<Vec<(usize, TreeEntry)>> = Vec::new();
    let mut index: usize = 0;
    for e in it: entries.into_iter()
        invariant
            es == it.seq(),
            ps == indexed(es),
            index == it.index(),
            index <= es.len(),
            count == es.len(),
            roots@ == top_items(ps.take(index as int)),
            keys.deep_view() == item_keys(ps.take(index as int)),
            groups@.len() == keys@.len(),
            forall|g: int| 0 <= g < groups@.len() ==> #[trigger] groups@[g]@ == items_under(ps.take(index as int), keys.deep_view()[g]),
    {
        let ghost j = index as int;
        let ghost pre = ps.take(j);
        let ghost next = ps.take(j + 1);
        proof {
            assert(j < es.len());
            assert(next.drop_last() =~= pre);
            assert(next.last() == (index, e));
        }
        if e.depth() == 1 {
            roots.push((index, e));
        } else {
            match parent_components_of(&e) {
                Some(k) => {
                    let found = find_group(&keys, &k);
                    proof {
                        lemma_find_key(keys.deep_view(), k.deep_view());
                    }
                    match found {
                        Some(g) => {
                            let ghost old_groups = groups@;
                            let mut members = groups.remove(g);
                            members.push((index, e));
                            groups.insert(g, members);
                            proof {
                                lemma_item_keys_distinct(pre);
                                assert(keys.deep_view()[g as int] == k.deep_view());
                                assert(keys.deep_view().contains(k.deep_view()));
                                assert(item_keys(next) == item_keys(pre));
                                assert forall|h: int| 0 <= h < groups@.len() implies #[trigger] groups@[h]@ == items_under(next, keys.deep_view()[h]) by {
                                    if h != g {
                                        assert(groups@[h] == old_groups[h]);
                                        assert(keys.deep_view()[h] != k.deep_view());
                                    }
                                }
                            }
                        },
                        None => {
                            let ghost old_keys = keys.deep_view();
                            let ghost old_groups = groups@;
                            let mut members: Vec<(usize, TreeEntry)> = Vec::new();
                            members.push((index, e));
                            keys.push(k);
                            groups.push(members);
                            proof {
                                assert(keys.deep_view() =~= old_keys.push(k.deep_view()));
                                assert forall|h: int| 0 <= h < groups@.len() implies #[trigger] groups@[h]@ == items_under(next, keys.deep_view()[h]) by {
                                    if h < old_groups.len() {
                                        assert(groups@[h] == old_groups[h]);
                                        assert(keys.deep_view()[h] == old_keys[h]);
                                        assert(old_keys.contains(old_keys[h]));
                                    } else {
                                        lemma_items_under_empty(pre, k.deep_view());
                                    }
                                }
                            }
                        },
                    }
                },
                None => {},
            }
        }
        index = index + 1;
    }
    proof {
        assert(ps.take(es.len() as int) =~= ps);
    }
    let ghost raw_groups = groups@;
    let mut kids: Vec<Option<Vec<(usize, TreeEntry)>>> = Vec::new();
    for members in git: groups.into_iter()
        invariant
            raw_groups == git.seq(),
            kids@.len() == git.index(),
            forall|g: int| 0 <= g < kids@.len() ==> #[trigger] kids@[g] == Some(raw_groups[g]),
    {
        kids.push(Some(members));
    }
    let ghost kids0 = kids_view(kids@);
    proof {
        let ks = item_keys(ps);
        assert(kids0 =~= Seq::new(ks.len(), |g: int| Some(items_under(ps, ks[g]))));
    }
    let mut nodes: Vec<TreeNode> = Vec::new();
    show_list_exec(roots, &keys, &mut kids, file_depth, max_items, &mut nodes);
    proof {
        assert(nodes@ =~= limited_nodes(es, file_depth, max_items));
    }
    nodes
}

} // verus!
