//! Rebuilding the tree from a flat list of entries: grouping entries under
//! their parent directory and reassembling them in depth-first order.

use vstd::prelude::*;
use crate::entry::TreeEntry;
use crate::path::{path_components, parent_components, components};
use crate::sort::{SortOptions, stably_sorted, sort_entries, entry_order};

verus! {

/// The components of an entry's path, which identify it.
pub open spec fn entry_key(e: TreeEntry) -> Seq<Seq<char>> {
    path_components(e.path_view())
}

/// The components of the parent of an entry's path, if it has one.
pub open spec fn parent_key(e: TreeEntry) -> Option<Seq<Seq<char>>> {
    parent_components(entry_key(e))
}

/// The top-level entries (depth 1), in input order.
pub open spec fn roots_of(es: Seq<TreeEntry>) -> Seq<TreeEntry>
    decreases es.len(),
{
    if es.len() == 0 {
        Seq::empty()
    } else {
        let pre = roots_of(es.drop_last());
        if es.last().depth_view() == 1 { pre.push(es.last()) } else { pre }
    }
}

/// Whether an entry is filed under the parent directory `k`: it is not
/// top-level and its path's parent has components `k`.
pub open spec fn files_under(e: TreeEntry, k: Seq<Seq<char>>) -> bool {
    e.depth_view() != 1 && parent_key(e) == Some(k)
}

/// The entries filed under parent `k`, in input order.
pub open spec fn group_of(es: Seq<TreeEntry>, k: Seq<Seq<char>>) -> Seq<TreeEntry>
    decreases es.len(),
{
    if es.len() == 0 {
        Seq::empty()
    } else {
        let pre = group_of(es.drop_last(), k);
        if files_under(es.last(), k) { pre.push(es.last()) } else { pre }
    }
}

/// The distinct parents that non-top-level entries are filed under, in
/// order of first appearance.
pub open spec fn group_keys(es: Seq<TreeEntry>) -> Seq<Seq<Seq<char>>>
    decreases es.len(),
{
    if es.len() == 0 {
        Seq::empty()
    } else {
        let pre = group_keys(es.drop_last());
        let e = es.last();
        if e.depth_view() != 1 && parent_key(e) is Some && !pre.contains(parent_key(e)->0) {
            pre.push(parent_key(e)->0)
        } else {
            pre
        }
    }
}

/// The position of `k` in `keys`, or -1.
pub open spec fn find_key(keys: Seq<Seq<Seq<char>>>, k: Seq<Seq<char>>) -> int
    decreases keys.len(),
{
    if keys.len() == 0 {
        -1
    } else if keys.last() == k {
        keys.len() - 1
    } else {
        find_key(keys.drop_last(), k)
    }
}

/// How many child lists have not been taken yet.
pub open spec fn pending(kids: Seq<Option<Vec<TreeEntry>>>) -> nat
    decreases kids.len(),
{
    if kids.len() == 0 {
        0
    } else {
        pending(kids.drop_last()) + (if kids.last() is Some { 1nat } else { 0nat })
    }
}

pub proof fn lemma_pending_take(kids: Seq<Option<Vec<TreeEntry>>>, i: int)
    requires
        0 <= i < kids.len(),
        kids[i] is Some,
    ensures
        pending(kids.update(i, None)) + 1 == pending(kids),
    decreases kids.len(),
{
    if i < kids.len() - 1 {
        lemma_pending_take(kids.drop_last(), i);
        assert(kids.update(i, None).drop_last() =~= kids.drop_last().update(i, None));
    } else {
        assert(kids.update(i, None).drop_last() =~= kids.drop_last());
    }
}

/// Visits an entry depth-first: the entry, then (the first time an entry
/// with its path is visited) the entries filed under it, each visited in
/// turn. Returns the visited entries and the child lists not yet taken.
pub open spec fn visit(
    e: TreeEntry,
    keys: Seq<Seq<Seq<char>>>,
    kids: Seq<Option<Vec<TreeEntry>>>,
) -> (Seq<TreeEntry>, Seq<Option<Vec<TreeEntry>>>)
    decreases pending(kids), 0nat,
{
    let i = find_key(keys, entry_key(e));
    if 0 <= i < kids.len() && kids[i] is Some {
        let rest = kids.update(i, None);
        proof {
            lemma_pending_take(kids, i);
        }
        let (out, left) = visit_all(kids[i]->0@, keys, rest);
        (seq![e] + out, left)
    } else {
        (seq![e], kids)
    }
}

/// Visits a list of entries in order, depth-first.
pub open spec fn visit_all(
    es: Seq<TreeEntry>,
    keys: Seq<Seq<Seq<char>>>,
    kids: Seq<Option<Vec<TreeEntry>>>,
) -> (Seq<TreeEntry>, Seq<Option<Vec<TreeEntry>>>)
    decreases pending(kids), es.len() + 1,
{
    if es.len() == 0 {
        (Seq::empty(), kids)
    } else {
        let (first, after) = visit(es[0], keys, kids);
        if pending(after) <= pending(kids) {
            let (more, left) = visit_all(es.drop_first(), keys, after);
            (first + more, left)
        } else {
            (first, after)
        }
    }
}


/// Visiting never hands back child lists that had been taken.
proof fn lemma_visit_pending(e: TreeEntry, keys: Seq<Seq<Seq<char>>>, kids: Seq<Option<Vec<TreeEntry>>>)
    ensures
        pending(visit(e, keys, kids).1) <= pending(kids),
        visit(e, keys, kids).1.len() == kids.len(),
    decreases pending(kids), 0nat,
{
    let i = find_key(keys, entry_key(e));
    if 0 <= i < kids.len() && kids[i] is Some {
        let rest = kids.update(i, None);
        lemma_pending_take(kids, i);
        lemma_visit_all_pending(kids[i]->0@, keys, rest);
    }
}

/// Visiting a list never hands back child lists that had been taken.
proof fn lemma_visit_all_pending(es: Seq<TreeEntry>, keys: Seq<Seq<Seq<char>>>, kids: Seq<Option<Vec<TreeEntry>>>)
    ensures
        pending(visit_all(es, keys, kids).1) <= pending(kids),
        visit_all(es, keys, kids).1.len() == kids.len(),
    decreases pending(kids), es.len() + 1,
{
    if es.len() > 0 {
        lemma_visit_pending(es[0], keys, kids);
        let after = visit(es[0], keys, kids).1;
        lemma_visit_all_pending(es.drop_first(), keys, after);
    }
}

/// Visiting a non-empty list visits its first entry, then the rest.
proof fn lemma_visit_all_unfold(es: Seq<TreeEntry>, keys: Seq<Seq<Seq<char>>>, kids: Seq<Option<Vec<TreeEntry>>>)
    requires
        es.len() > 0,
    ensures
        visit_all(es, keys, kids) == ({
            let (first, after) = visit(es[0], keys, kids);
            let (more, left) = visit_all(es.drop_first(), keys, after);
            (first + more, left)
        }),
{
    lemma_visit_pending(es[0], keys, kids);
}

fn same_components(a: &Vec<String>, b: &Vec<String>) -> (r: bool)
    ensures
        r == (a.deep_view() == b.deep_view()),
{
    if a.len() != b.len() {
        proof {
            assert(a.deep_view().len() != b.deep_view().len());
        }
        return false;
    }
    let mut i: usize = 0;
    while i < a.len()
        invariant
            a.len() == b.len(),
            0 <= i <= a.len(),
            forall|k: int| 0 <= k < i ==> a@[k]@ == b@[k]@,
        decreases a.len() - i,
    {
        if a[i] != b[i] {
            proof {
                assert(a.deep_view()[i as int] != b.deep_view()[i as int]);
            }
            return false;
        }
        i = i + 1;
    }
    proof {
        assert(a.deep_view() =~= b.deep_view());
    }
    true
}

pub(crate) fn find_group(keys: &Vec<Vec<String>>, k: &Vec<String>) -> (r: Option<usize>)
    ensures
        match r {
            Some(i) => i == find_key(keys.deep_view(), k.deep_view()) && i < keys.len(),
            None => find_key(keys.deep_view(), k.deep_view()) == -1,
        },
{
    let mut i = keys.len();
    proof {
        assert(keys.deep_view().take(i as int) =~= keys.deep_view());
    }
    while i > 0
        invariant
            0 <= i <= keys.len(),
            find_key(keys.deep_view(), k.deep_view()) == find_key(keys.deep_view().take(i as int), k.deep_view()),
        decreases i,
    {
        let ghost pre = keys.deep_view().take(i as int);
        proof {
            assert(pre.drop_last() =~= keys.deep_view().take(i - 1));
            assert(pre.last() == keys.deep_view()[i - 1]);
        }
        if same_components(&keys[i - 1], k) {
            return Some(i - 1);
        }
        i = i - 1;
    }
    None
}

/// Visits `e` and, the first time its path is seen, everything filed
/// under it, appending to `out`.
fn visit_entry(e: TreeEntry, keys: &Vec<Vec<String>>, kids: &mut Vec<Option<Vec<TreeEntry>>>, out: &mut Vec<TreeEntry>)
    ensures
        final(out)@ == old(out)@ + visit(e, keys.deep_view(), old(kids)@).0,
        final(kids)@ == visit(e, keys.deep_view(), old(kids)@).1,
    decreases pending(old(kids)@), 0nat,
{
    let key = components(e.path().as_str());
    let found = find_group(keys, &key);
    let ghost kids0 = kids@;
    let ghost ks = keys.deep_view();
    let mut children: Option<Vec<TreeEntry>> = None;
    if let Some(i) = found {
        if i < kids.len() && kids[i].is_some() {
            children = kids.remove(i);
            kids.insert(i, None);
            proof {
                assert(kids@ =~= kids0.update(i as int, None));
                lemma_pending_take(kids0, i as int);
            }
        }
    }
    out.push(e);
    let ghost out1 = out@;
    match children {
        Some(list) => {
            visit_list(list, keys, kids, out);
            proof {
                assert(out@ =~= old(out)@ + visit(e, ks, kids0).0);
            }
        },
        None => {
            proof {
                assert(out@ =~= old(out)@ + visit(e, ks, kids0).0);
            }
        },
    }
}

/// Visits each entry of `es` in turn, appending to `out`.
fn visit_list(es: Vec<TreeEntry>, keys: &Vec<Vec<String>>, kids: &mut Vec<Option<Vec<TreeEntry>>>, out: &mut Vec<TreeEntry>)
    ensures
        final(out)@ == old(out)@ + visit_all(es@, keys.deep_view(), old(kids)@).0,
        final(kids)@ == visit_all(es@, keys.deep_view(), old(kids)@).1,
    decreases pending(old(kids)@), es@.len() + 1,
{
    let ghost ks = keys.deep_view();
    let ghost all = es@;
    let ghost kids0 = kids@;
    let ghost out0 = out@;
    proof {
        lemma_visit_all_pending(all, ks, kids0);
        assert(all.skip(0) =~= all);
    }
    for e in it: es.into_iter()
        invariant
            all == it.seq(),
            ks == keys.deep_view(),
            pending(kids@) <= pending(kids0),
            kids0 == old(kids)@,
            out0 + visit_all(all, ks, kids0).0 == out@ + visit_all(all.skip(it.index() as int), ks, kids@).0,
            visit_all(all, ks, kids0).1 == visit_all(all.skip(it.index() as int), ks, kids@).1,
    {
        let ghost j = it.index() as int;
        let ghost rest = all.skip(j);
        proof {
            assert(rest[0] == e);
            assert(rest.drop_first() =~= all.skip(j + 1));
            lemma_visit_all_unfold(rest, ks, kids@);
            lemma_visit_pending(e, ks, kids@);
            assert(pending(kids@) <= pending(kids0));
            assert(kids0 == old(kids)@);
        }
        visit_entry(e, keys, kids, out);
    }
    proof {
        assert(all.skip(all.len() as int) =~= Seq::<TreeEntry>::empty());
    }
}


pub(crate) proof fn lemma_find_key(keys: Seq<Seq<Seq<char>>>, k: Seq<Seq<char>>)
    ensures
        -1 <= find_key(keys, k) < keys.len(),
        find_key(keys, k) >= 0 ==> keys[find_key(keys, k)] == k,
        (find_key(keys, k) == -1) == !keys.contains(k),
    decreases keys.len(),
{
    if keys.len() > 0 {
        lemma_find_key(keys.drop_last(), k);
        if keys.last() != k {
            if keys.contains(k) {
                let w = choose|w: int| 0 <= w < keys.len() && keys[w] == k;
                assert(keys.drop_last()[w] == k);
            }
            if find_key(keys, k) >= 0 {
                assert(keys.drop_last()[find_key(keys, k)] == k);
            }
        }
    }
}

/// The parent components of an entry's path, computed.
pub(crate) fn parent_of(e: &TreeEntry) -> (r: Option<Vec<String>>)
    ensures
        match r {
            Some(k) => parent_key(*e) == Some(k.deep_view()),
            None => parent_key(*e) is None,
        },
{
    let mut c = components(e.path().as_str());
    if c.len() == 0 {
        return None;
    }
    let ghost full = c.deep_view();
    let last = c.pop().unwrap();
    proof {
        assert(c.deep_view() =~= full.drop_last());
        assert(last@ == full.last());
    }
    let cs = crate::text::chars_of(last.as_str());
    if cs.len() == 1 && cs[0] == '/' {
        proof {
            assert(cs@ =~= seq!['/']);
        }
        None
    } else {
        proof {
            if full.last() == seq!['/'] {
                assert(cs@.len() == 1 && cs@[0] == '/');
            }
        }
        Some(c)
    }
}

/// `out` is the depth-first arrangement of `es`: the top-level entries in
/// sorted order, each followed (the first time its path appears) by the
/// entries filed under it, those in sorted order too and each followed by
/// its own entries in the same way.
pub open spec fn arranged_as_tree(out: Seq<TreeEntry>, es: Seq<TreeEntry>, o: SortOptions) -> bool {
    exists|roots: Seq<TreeEntry>, kids: Seq<Option<Vec<TreeEntry>>>| {
        &&& stably_sorted(roots, roots_of(es), o)
        &&& kids.len() == group_keys(es).len()
        &&& forall|g: int| 0 <= g < kids.len() ==> #[trigger] kids[g] is Some
            && stably_sorted(kids[g]->0@, group_of(es, group_keys(es)[g]), o)
        &&& out == visit_all(roots, group_keys(es), kids).0
    }
}

/// Sorts directory entries hierarchically, preserving tree structure:
/// entries are grouped under their parent directory, each group and the
/// top-level entries are sorted with `sort_entries`, and the result lists
/// every directory directly before its (recursively arranged) contents.
pub fn sort_entries_hierarchically(entries: &mut Vec<TreeEntry>, options: &SortOptions)
    ensures
        arranged_as_tree(final(entries)@, old(entries)@, *options),
{
    let ghost all = entries@;
    let mut input: Vec<TreeEntry> = Vec::new();
    std::mem::swap(&mut input, entries);
    let mut roots: Vec<TreeEntry> = Vec::new();
    let mut keys: Vec<Vec<String>> = Vec::new();
    let mut groups: Vec<Vec<TreeEntry>> = Vec::new();
    for e in it: input.into_iter()
        invariant
            all == it.seq(),
            roots@ == roots_of(all.take(it.index() as int)),
            keys.deep_view() == group_keys(all.take(it.index() as int)),
            groups@.len() == keys@.len(),
            forall|g: int| 0 <= g < groups@.len() ==> #[trigger] groups@[g]@ == group_of(all.take(it.index() as int), keys.deep_view()[g]),
    {
        let ghost j = it.index() as int;
        let ghost pre = all.take(j);
        let ghost next = all.take(j + 1);
        proof {
            assert(next.drop_last() =~= pre);
            assert(next.last() == e);
        }
        if e.depth() == 1 {
            roots.push(e);
        } else {
            match parent_of(&e) {
                Some(k) => {
                    let found = find_group(&keys, &k);
                    proof {
                        lemma_find_key(keys.deep_view(), k.deep_view());
                    }
                    match found {
                        Some(g) => {
                            let ghost old_groups = groups@;
                            let mut members = groups.remove(g);
                            members.push(e);
                            groups.insert(g, members);
                            proof {
                                lemma_group_keys_distinct(pre);
                                assert(keys.deep_view()[g as int] == k.deep_view());
                                assert(keys.deep_view().contains(k.deep_view()));
                                assert(group_keys(next) == group_keys(pre));
                                assert forall|h: int| 0 <= h < groups@.len() implies #[trigger] groups@[h]@ == group_of(next, keys.deep_view()[h]) by {
                                    if h != g {
                                        assert(groups@[h] == old_groups[h]);
                                        assert(keys.deep_view()[h] != k.deep_view());
                                    }
                                }
                            }
                        },
                        None => {
                            let ghost old_keys = keys.deep_view();
                            let ghost old_groups = groups@;
                            let mut members: Vec<TreeEntry> = Vec::new();
                            members.push(e);
                            keys.push(k);
                            groups.push(members);
                            proof {
                                assert(keys.deep_view() =~= old_keys.push(k.deep_view()));
                                assert forall|h: int| 0 <= h < groups@.len() implies #[trigger] groups@[h]@ == group_of(next, keys.deep_view()[h]) by {
                                    if h < old_groups.len() {
                                        assert(groups@[h] == old_groups[h]);
                                        assert(keys.deep_view()[h] == old_keys[h]);
                                        assert(old_keys.contains(old_keys[h]));
                                    } else {
                                        assert(group_of(pre, k.deep_view()) =~= Seq::<TreeEntry>::empty()) by {
                                            lemma_group_of_empty(pre, k.deep_view());
                                        }
                                    }
                                }
                            }
                        },
                    }
                },
                None => {},
            }
        }
    }
    proof {
        assert(all.take(all.len() as int) =~= all);
    }
    let ghost raw_roots = roots@;
    let ghost raw_groups = groups@;
    sort_entries(&mut roots, options);
    let mut kids: Vec<Option<Vec<TreeEntry>>> = Vec::new();
    for members in git: groups.into_iter()
        invariant
            raw_groups == git.seq(),
            kids@.len() == git.index(),
            forall|g: int| 0 <= g < kids@.len() ==> #[trigger] kids@[g] is Some
                && stably_sorted(kids@[g]->0@, raw_groups[g]@, *options),
    {
        let mut members = members;
        sort_entries(&mut members, options);
        kids.push(Some(members));
    }
    let ghost kids0 = kids@;
    let ghost sorted_roots = roots@;
    visit_list(roots, &keys, &mut kids, entries);
    proof {
        assert(entries@ =~= visit_all(sorted_roots, group_keys(all), kids0).0);
        assert(arranged_as_tree(entries@, all, *options));
    }
}

/// The entries of a walk are consistent: every entry is at depth 1 or
/// more, and an entry filed under the path of another entry is one level
/// deeper than it.
pub open spec fn well_formed_walk(es: Seq<TreeEntry>) -> bool {
    &&& forall|i: int| 0 <= i < es.len() ==> #[trigger] es[i].depth_view() >= 1
    &&& forall|i: int, j: int|
        #![trigger files_under(es[i], entry_key(es[j]))]
        0 <= i < es.len() && 0 <= j < es.len() && files_under(es[i], entry_key(es[j]))
            ==> es[i].depth_view() == es[j].depth_view() + 1
}

/// Every entry that has entries filed under it is a directory.
pub open spec fn parents_are_dirs(es: Seq<TreeEntry>) -> bool {
    forall|i: int, j: int|
        #![trigger files_under(es[i], entry_key(es[j]))]
        0 <= i < es.len() && 0 <= j < es.len() && files_under(es[i], entry_key(es[j])) ==> es[j].is_dir_view()
}

/// Only directories have deeper entries right after them.
pub open spec fn entries_nest(s: Seq<TreeEntry>) -> bool {
    forall|k: int| 0 < k < s.len() && #[trigger] s[k].depth_view() > s[k - 1].depth_view() ==> s[k - 1].is_dir_view()
}

/// `s` is a non-empty depth-first run starting at depth `d`: its first
/// entry is at depth `d`, none is shallower, and none is more than one
/// level deeper than the entry before it.
pub open spec fn run_at(s: Seq<TreeEntry>, d: nat) -> bool {
    &&& s.len() > 0
    &&& s[0].depth_view() == d
    &&& forall|k: int| 0 <= k < s.len() ==> #[trigger] s[k].depth_view() >= d
    &&& forall|k: int| 0 < k < s.len() ==> #[trigger] s[k].depth_view() <= s[k - 1].depth_view() + 1
}

/// Every child list still to be taken holds entries of `es` filed under
/// its key.
pub open spec fn kids_from(kids: Seq<Option<Vec<TreeEntry>>>, keys: Seq<Seq<Seq<char>>>, es: Seq<TreeEntry>) -> bool {
    forall|g: int, m: int| 0 <= g < kids.len() && kids[g] is Some && 0 <= m < kids[g]->0@.len() ==>
        es.contains(#[trigger] kids[g]->0@[m]) && files_under(kids[g]->0@[m], keys[g])
}

proof fn lemma_run_concat(a: Seq<TreeEntry>, b: Seq<TreeEntry>, d: nat)
    requires
        run_at(a, d),
        b.len() == 0 || run_at(b, d),
    ensures
        run_at(a + b, d),
{
    let c = a + b;
    assert forall|k: int| 0 <= k < c.len() implies #[trigger] c[k].depth_view() >= d by {
        if k >= a.len() {
            assert(c[k] == b[k - a.len()]);
        }
    }
    assert forall|k: int| 0 < k < c.len() implies #[trigger] c[k].depth_view() <= c[k - 1].depth_view() + 1 by {
        if k > a.len() {
            assert(c[k] == b[k - a.len()]);
            assert(c[k - 1] == b[k - 1 - a.len()]);
        } else if k == a.len() {
            assert(c[k] == b[0]);
            assert(c[k - 1] == a[a.len() - 1]);
        }
    }
}

proof fn lemma_visit_run(e: TreeEntry, keys: Seq<Seq<Seq<char>>>, kids: Seq<Option<Vec<TreeEntry>>>, es: Seq<TreeEntry>)
    requires
        well_formed_walk(es),
        es.contains(e),
        kids_from(kids, keys, es),
    ensures
        run_at(visit(e, keys, kids).0, e.depth_view()),
        kids_from(visit(e, keys, kids).1, keys, es),
    decreases pending(kids), 0nat,
{
    let i = find_key(keys, entry_key(e));
    lemma_find_key(keys, entry_key(e));
    if 0 <= i < kids.len() && kids[i] is Some {
        let rest = kids.update(i, None);
        lemma_pending_take(kids, i);
        let children = kids[i]->0@;
        assert forall|g: int, m: int| 0 <= g < rest.len() && rest[g] is Some && 0 <= m < rest[g]->0@.len() implies
            es.contains(#[trigger] rest[g]->0@[m]) && files_under(rest[g]->0@[m], keys[g]) by {
            assert(rest[g] == kids[g]);
        }
        assert forall|m: int| 0 <= m < children.len() implies
            es.contains(#[trigger] children[m]) && children[m].depth_view() == e.depth_view() + 1 by {
            assert(es.contains(kids[i]->0@[m]) && files_under(kids[i]->0@[m], keys[i]));
            let a = choose|a: int| 0 <= a < es.len() && es[a] == children[m];
            let b = choose|b: int| 0 <= b < es.len() && es[b] == e;
            assert(files_under(es[a], entry_key(es[b])));
        }
        lemma_visit_all_run(children, keys, rest, es, e.depth_view() + 1);
        let out = visit_all(children, keys, rest).0;
        let r = seq![e] + out;
        assert(run_at(seq![e], e.depth_view()));
        if out.len() > 0 {
            assert forall|k: int| 0 <= k < r.len() implies #[trigger] r[k].depth_view() >= e.depth_view() by {
                if k > 0 {
                    assert(r[k] == out[k - 1]);
                }
            }
            assert forall|k: int| 0 < k < r.len() implies #[trigger] r[k].depth_view() <= r[k - 1].depth_view() + 1 by {
                assert(r[k] == out[k - 1]);
                if k > 1 {
                    assert(r[k - 1] == out[k - 2]);
                }
            }
        } else {
            assert(r =~= seq![e]);
        }
        assert(visit(e, keys, kids).0 == r);
    } else {
        assert(visit(e, keys, kids).0 =~= seq![e]);
    }
}

proof fn lemma_visit_all_run(list: Seq<TreeEntry>, keys: Seq<Seq<Seq<char>>>, kids: Seq<Option<Vec<TreeEntry>>>, es: Seq<TreeEntry>, d: nat)
    requires
        well_formed_walk(es),
        forall|m: int| 0 <= m < list.len() ==> es.contains(#[trigger] list[m]) && list[m].depth_view() == d,
        kids_from(kids, keys, es),
    ensures
        visit_all(list, keys, kids).0.len() == 0 || run_at(visit_all(list, keys, kids).0, d),
        kids_from(visit_all(list, keys, kids).1, keys, es),
    decreases pending(kids), list.len() + 1,
{
    if list.len() > 0 {
        lemma_visit_pending(list[0], keys, kids);
        lemma_visit_all_unfold(list, keys, kids);
        let (first, after) = visit(list[0], keys, kids);
        assert(es.contains(list[0]) && list[0].depth_view() == d);
        lemma_visit_run(list[0], keys, kids, es);
        let rest = list.drop_first();
        assert forall|m: int| 0 <= m < rest.len() implies es.contains(#[trigger] rest[m]) && rest[m].depth_view() == d by {
            assert(rest[m] == list[m + 1]);
        }
        lemma_visit_all_run(rest, keys, after, es, d);
        lemma_run_concat(first, visit_all(rest, keys, after).0, d);
    }
}

proof fn lemma_visit_nest(e: TreeEntry, keys: Seq<Seq<Seq<char>>>, kids: Seq<Option<Vec<TreeEntry>>>, es: Seq<TreeEntry>)
    requires
        well_formed_walk(es),
        parents_are_dirs(es),
        es.contains(e),
        kids_from(kids, keys, es),
    ensures
        entries_nest(visit(e, keys, kids).0),
    decreases pending(kids), 0nat,
{
    let i = find_key(keys, entry_key(e));
    lemma_find_key(keys, entry_key(e));
    if 0 <= i < kids.len() && kids[i] is Some {
        let rest = kids.update(i, None);
        lemma_pending_take(kids, i);
        let children = kids[i]->0@;
        assert forall|g: int, m: int| 0 <= g < rest.len() && rest[g] is Some && 0 <= m < rest[g]->0@.len() implies
            es.contains(#[trigger] rest[g]->0@[m]) && files_under(rest[g]->0@[m], keys[g]) by {
            assert(rest[g] == kids[g]);
        }
        let b = choose|b: int| 0 <= b < es.len() && es[b] == e;
        assert forall|m: int| 0 <= m < children.len() implies
            es.contains(#[trigger] children[m]) && children[m].depth_view() == e.depth_view() + 1 && e.is_dir_view() by {
            assert(es.contains(kids[i]->0@[m]) && files_under(kids[i]->0@[m], keys[i]));
            let a = choose|a: int| 0 <= a < es.len() && es[a] == children[m];
            assert(files_under(es[a], entry_key(es[b])));
        }
        lemma_visit_all_nest(children, keys, rest, es, e.depth_view() + 1);
        lemma_visit_all_run(children, keys, rest, es, e.depth_view() + 1);
        let out = visit_all(children, keys, rest).0;
        let r = seq![e] + out;
        assert(visit(e, keys, kids).0 == r);
        if out.len() > 0 {
            if children.len() == 0 {
                assert(visit_all(children, keys, rest).0 =~= Seq::<TreeEntry>::empty());
            }
            assert(e.is_dir_view());
        }
        assert forall|k: int| 0 < k < r.len() && #[trigger] r[k].depth_view() > r[k - 1].depth_view() implies r[k - 1].is_dir_view() by {
            assert(r[k] == out[k - 1]);
            if k > 1 {
                assert(r[k - 1] == out[k - 2]);
            }
        }
    } else {
        assert(visit(e, keys, kids).0 =~= seq![e]);
    }
}

proof fn lemma_visit_all_nest(list: Seq<TreeEntry>, keys: Seq<Seq<Seq<char>>>, kids: Seq<Option<Vec<TreeEntry>>>, es: Seq<TreeEntry>, d: nat)
    requires
        well_formed_walk(es),
        parents_are_dirs(es),
        forall|m: int| 0 <= m < list.len() ==> es.contains(#[trigger] list[m]) && list[m].depth_view() == d,
        kids_from(kids, keys, es),
    ensures
        entries_nest(visit_all(list, keys, kids).0),
    decreases pending(kids), list.len() + 1,
{
    if list.len() > 0 {
        lemma_visit_pending(list[0], keys, kids);
        lemma_visit_all_unfold(list, keys, kids);
        let (first, after) = visit(list[0], keys, kids);
        assert(es.contains(list[0]) && list[0].depth_view() == d);
        lemma_visit_nest(list[0], keys, kids, es);
        lemma_visit_run(list[0], keys, kids, es);
        let rest = list.drop_first();
        assert forall|m: int| 0 <= m < rest.len() implies es.contains(#[trigger] rest[m]) && rest[m].depth_view() == d by {
            assert(rest[m] == list[m + 1]);
        }
        lemma_visit_all_nest(rest, keys, after, es, d);
        lemma_visit_all_run(rest, keys, after, es, d);
        let more = visit_all(rest, keys, after).0;
        let r = first + more;
        assert(visit_all(list, keys, kids).0 == r);
        assert forall|k: int| 0 < k < r.len() && #[trigger] r[k].depth_view() > r[k - 1].depth_view() implies r[k - 1].is_dir_view() by {
            if k > first.len() {
                assert(r[k] == more[k - first.len()]);
                assert(r[k - 1] == more[k - 1 - first.len()]);
            } else if k == first.len() {
                assert(r[k] == more[0]);
                assert(r[k - 1] == first[first.len() - 1]);
            } else {
                assert(r[k] == first[k]);
                assert(r[k - 1] == first[k - 1]);
            }
        }
    } else {
        assert(visit_all(list, keys, kids).0 =~= Seq::<TreeEntry>::empty());
    }
}

proof fn lemma_roots_of_members(es: Seq<TreeEntry>)
    ensures
        forall|m: int| 0 <= m < roots_of(es).len() ==> es.contains(#[trigger] roots_of(es)[m]) && roots_of(es)[m].depth_view() == 1,
    decreases es.len(),
{
    if es.len() > 0 {
        let pre = es.drop_last();
        lemma_roots_of_members(pre);
        assert forall|m: int| 0 <= m < roots_of(es).len() implies es.contains(#[trigger] roots_of(es)[m]) && roots_of(es)[m].depth_view() == 1 by {
            if m < roots_of(pre).len() {
                assert(roots_of(es)[m] == roots_of(pre)[m]);
                let a = choose|a: int| 0 <= a < pre.len() && pre[a] == roots_of(pre)[m];
                assert(es[a] == pre[a]);
            } else {
                assert(es[es.len() - 1] == es.last());
            }
        }
    }
}

proof fn lemma_group_of_members(es: Seq<TreeEntry>, k: Seq<Seq<char>>)
    ensures
        forall|m: int| 0 <= m < group_of(es, k).len() ==> es.contains(#[trigger] group_of(es, k)[m]) && files_under(group_of(es, k)[m], k),
    decreases es.len(),
{
    if es.len() > 0 {
        let pre = es.drop_last();
        lemma_group_of_members(pre, k);
        assert forall|m: int| 0 <= m < group_of(es, k).len() implies es.contains(#[trigger] group_of(es, k)[m]) && files_under(group_of(es, k)[m], k) by {
            if m < group_of(pre, k).len() {
                assert(group_of(es, k)[m] == group_of(pre, k)[m]);
                let a = choose|a: int| 0 <= a < pre.len() && pre[a] == group_of(pre, k)[m];
                assert(es[a] == pre[a]);
            } else {
                assert(es[es.len() - 1] == es.last());
            }
        }
    }
}

proof fn lemma_sorted_members(new: Seq<TreeEntry>, old: Seq<TreeEntry>, o: SortOptions)
    requires
        stably_sorted(new, old, o),
    ensures
        forall|m: int| 0 <= m < new.len() ==> exists|a: int| 0 <= a < old.len() && old[a] == #[trigger] new[m],
{
    let p = choose|p: Seq<int>| crate::sort::sorted_with(new, old, o, p);
    assert forall|m: int| 0 <= m < new.len() implies exists|a: int| 0 <= a < old.len() && old[a] == #[trigger] new[m] by {
        assert(new[m] == old[p[m]]);
    }
}

/// The hierarchical sort preserves the tree's shape: for the entries of a
/// consistent walk, the arrangement lists them depth-first (it starts at
/// depth 1, and no entry is more than one level deeper than the entry
/// before it), which is what drawing the tree relies on.
pub proof fn lemma_arranged_depth_first(out: Seq<TreeEntry>, es: Seq<TreeEntry>, o: SortOptions)
    requires
        arranged_as_tree(out, es, o),
        well_formed_walk(es),
    ensures
        crate::view::depth_first(crate::view::depths_of(out)),
{
    let (roots, kids) = choose|roots: Seq<TreeEntry>, kids: Seq<Option<Vec<TreeEntry>>>| {
        &&& stably_sorted(roots, roots_of(es), o)
        &&& kids.len() == group_keys(es).len()
        &&& forall|g: int| 0 <= g < kids.len() ==> #[trigger] kids[g] is Some
            && stably_sorted(kids[g]->0@, group_of(es, group_keys(es)[g]), o)
        &&& out == visit_all(roots, group_keys(es), kids).0
    };
    let keys = group_keys(es);
    lemma_roots_of_members(es);
    lemma_sorted_members(roots, roots_of(es), o);
    assert forall|m: int| 0 <= m < roots.len() implies es.contains(#[trigger] roots[m]) && roots[m].depth_view() == 1 by {
        let a = choose|a: int| 0 <= a < roots_of(es).len() && roots_of(es)[a] == roots[m];
        assert(es.contains(roots_of(es)[a]));
    }
    assert forall|g: int, m: int| 0 <= g < kids.len() && kids[g] is Some && 0 <= m < kids[g]->0@.len() implies
        es.contains(#[trigger] kids[g]->0@[m]) && files_under(kids[g]->0@[m], keys[g]) by {
        lemma_group_of_members(es, keys[g]);
        lemma_sorted_members(kids[g]->0@, group_of(es, keys[g]), o);
        let a = choose|a: int| 0 <= a < group_of(es, keys[g]).len() && group_of(es, keys[g])[a] == kids[g]->0@[m];
        assert(es.contains(group_of(es, keys[g])[a]));
    }
    lemma_visit_all_run(roots, keys, kids, es, 1);
    let ds = crate::view::depths_of(out);
    if out.len() > 0 {
        assert(run_at(out, 1));
        assert forall|i: int| 0 <= i < ds.len() implies #[trigger] ds[i] >= 1 by {
            assert(out[i].depth_view() >= 1);
        }
        assert forall|i: int| 0 < i < ds.len() implies #[trigger] ds[i] <= ds[i - 1] + 1 by {
            assert(out[i].depth_view() <= out[i - 1].depth_view() + 1);
        }
    }
}

/// The entries of the child lists not taken yet.
pub open spec fn kids_bag(kids: Seq<Option<Vec<TreeEntry>>>) -> vstd::multiset::Multiset<TreeEntry>
    decreases kids.len(),
{
    if kids.len() == 0 {
        vstd::multiset::Multiset::empty()
    } else {
        kids_bag(kids.drop_last()).add(match kids.last() {
            Some(v) => v@.to_multiset(),
            None => vstd::multiset::Multiset::empty(),
        })
    }
}

/// The entries filed under the keys `keys`.
pub open spec fn groups_bag(es: Seq<TreeEntry>, keys: Seq<Seq<Seq<char>>>) -> vstd::multiset::Multiset<TreeEntry>
    decreases keys.len(),
{
    if keys.len() == 0 {
        vstd::multiset::Multiset::empty()
    } else {
        groups_bag(es, keys.drop_last()).add(group_of(es, keys.last()).to_multiset())
    }
}

proof fn lemma_kids_bag_take(kids: Seq<Option<Vec<TreeEntry>>>, i: int)
    requires
        0 <= i < kids.len(),
        kids[i] is Some,
    ensures
        kids_bag(kids.update(i, None)).add(kids[i]->0@.to_multiset()) == kids_bag(kids),
    decreases kids.len(),
{
    broadcast use vstd::multiset::group_multiset_axioms;
    if i < kids.len() - 1 {
        lemma_kids_bag_take(kids.drop_last(), i);
        assert(kids.update(i, None).drop_last() =~= kids.drop_last().update(i, None));
        assert(kids.update(i, None).last() == kids.last());
    } else {
        assert(kids.update(i, None).drop_last() =~= kids.drop_last());
    }
    assert(kids_bag(kids.update(i, None)).add(kids[i]->0@.to_multiset()) =~= kids_bag(kids));
}

proof fn lemma_visit_conserves(e: TreeEntry, keys: Seq<Seq<Seq<char>>>, kids: Seq<Option<Vec<TreeEntry>>>)
    ensures
        visit(e, keys, kids).0.to_multiset().add(kids_bag(visit(e, keys, kids).1)) == kids_bag(kids).insert(e),
    decreases pending(kids), 0nat,
{
    broadcast use vstd::multiset::group_multiset_axioms;
    broadcast use vstd::seq_lib::group_to_multiset_ensures;
    let i = find_key(keys, entry_key(e));
    if 0 <= i < kids.len() && kids[i] is Some {
        let rest = kids.update(i, None);
        lemma_pending_take(kids, i);
        let children = kids[i]->0@;
        lemma_visit_all_conserves(children, keys, rest);
        lemma_kids_bag_take(kids, i);
        let (out, left) = visit_all(children, keys, rest);
        assert(visit(e, keys, kids).0 == seq![e] + out);
        assert(visit(e, keys, kids).1 == left);
        vstd::seq_lib::lemma_multiset_commutative(seq![e], out);
        assert(seq![e] =~= Seq::<TreeEntry>::empty().push(e));
        assert(Seq::<TreeEntry>::empty().to_multiset() =~= vstd::multiset::Multiset::empty());
        let m1 = seq![e].to_multiset();
        assert(m1 =~= vstd::multiset::Multiset::empty().insert(e));
        assert(out.to_multiset().add(kids_bag(left)) == children.to_multiset().add(kids_bag(rest)));
        assert(kids_bag(rest).add(children.to_multiset()) == kids_bag(kids));
        assert forall|x: TreeEntry| (#[trigger] (seq![e] + out).to_multiset().add(kids_bag(left)).count(x)) == kids_bag(kids).insert(e).count(x) by {
            assert((seq![e] + out).to_multiset().count(x) == m1.count(x) + out.to_multiset().count(x));
            assert(out.to_multiset().add(kids_bag(left)).count(x) == children.to_multiset().add(kids_bag(rest)).count(x));
            assert(kids_bag(rest).add(children.to_multiset()).count(x) == kids_bag(kids).count(x));
        }
        assert(visit(e, keys, kids).0.to_multiset().add(kids_bag(visit(e, keys, kids).1)) =~= kids_bag(kids).insert(e));
    } else {
        assert(seq![e] =~= Seq::<TreeEntry>::empty().push(e));
        assert(Seq::<TreeEntry>::empty().to_multiset() =~= vstd::multiset::Multiset::empty());
        assert(visit(e, keys, kids).0.to_multiset().add(kids_bag(visit(e, keys, kids).1)) =~= kids_bag(kids).insert(e));
    }
}

proof fn lemma_visit_all_conserves(list: Seq<TreeEntry>, keys: Seq<Seq<Seq<char>>>, kids: Seq<Option<Vec<TreeEntry>>>)
    ensures
        visit_all(list, keys, kids).0.to_multiset().add(kids_bag(visit_all(list, keys, kids).1))
            == list.to_multiset().add(kids_bag(kids)),
    decreases pending(kids), list.len() + 1,
{
    broadcast use vstd::multiset::group_multiset_axioms;
    broadcast use vstd::seq_lib::group_to_multiset_ensures;
    if list.len() > 0 {
        lemma_visit_pending(list[0], keys, kids);
        lemma_visit_all_unfold(list, keys, kids);
        let (first, after) = visit(list[0], keys, kids);
        lemma_visit_conserves(list[0], keys, kids);
        let rest = list.drop_first();
        lemma_visit_all_conserves(rest, keys, after);
        let (more, left) = visit_all(rest, keys, after);
        assert(visit_all(list, keys, kids).0 == first + more);
        assert(visit_all(list, keys, kids).1 == left);
        vstd::seq_lib::lemma_multiset_commutative(first, more);
        assert(list =~= seq![list[0]] + rest);
        vstd::seq_lib::lemma_multiset_commutative(seq![list[0]], rest);
        assert(seq![list[0]] =~= Seq::<TreeEntry>::empty().push(list[0]));
        assert(Seq::<TreeEntry>::empty().to_multiset() =~= vstd::multiset::Multiset::empty());
        let m1 = seq![list[0]].to_multiset();
        assert(m1 =~= vstd::multiset::Multiset::empty().insert(list[0]));
        assert(first.to_multiset().add(kids_bag(after)) == kids_bag(kids).insert(list[0]));
        assert(more.to_multiset().add(kids_bag(left)) == rest.to_multiset().add(kids_bag(after)));
        assert forall|x: TreeEntry| (#[trigger] (first + more).to_multiset().add(kids_bag(left)).count(x)) == list.to_multiset().add(kids_bag(kids)).count(x) by {
            assert((first + more).to_multiset().count(x) == first.to_multiset().count(x) + more.to_multiset().count(x));
            assert(list.to_multiset().count(x) == m1.count(x) + rest.to_multiset().count(x));
            assert(more.to_multiset().add(kids_bag(left)).count(x) == rest.to_multiset().add(kids_bag(after)).count(x));
            assert(first.to_multiset().add(kids_bag(after)).count(x) == kids_bag(kids).insert(list[0]).count(x));
        }
        assert(visit_all(list, keys, kids).0.to_multiset().add(kids_bag(visit_all(list, keys, kids).1))
            =~= list.to_multiset().add(kids_bag(kids)));
    } else {
        assert(list.to_multiset() =~= vstd::multiset::Multiset::empty());
        assert(visit_all(list, keys, kids).0 =~= Seq::<TreeEntry>::empty());
    }
}

/// Whether `e` is filed under one of `keys`.
pub open spec fn filed_under_some(e: TreeEntry, keys: Seq<Seq<Seq<char>>>) -> bool {
    exists|g: int| 0 <= g < keys.len() && #[trigger] files_under(e, keys[g])
}

proof fn lemma_groups_bag_push(es: Seq<TreeEntry>, e: TreeEntry, keys: Seq<Seq<Seq<char>>>)
    requires
        forall|i: int, j: int| 0 <= i < j < keys.len() ==> keys[i] != keys[j],
    ensures
        groups_bag(es.push(e), keys) == (if filed_under_some(e, keys) { groups_bag(es, keys).insert(e) } else { groups_bag(es, keys) }),
    decreases keys.len(),
{
    broadcast use vstd::multiset::group_multiset_axioms;
    broadcast use vstd::seq_lib::group_to_multiset_ensures;
    if keys.len() > 0 {
        let ks = keys.drop_last();
        lemma_groups_bag_push(es, e, ks);
        let k = keys.last();
        assert(es.push(e).drop_last() =~= es);
        assert(es.push(e).last() == e);
        if filed_under_some(e, ks) {
            let g = choose|g: int| 0 <= g < ks.len() && #[trigger] files_under(e, ks[g]);
            assert(files_under(e, keys[g]));
            assert(keys[g] != keys[keys.len() - 1]);
            assert(!files_under(e, k));
        }
        if files_under(e, k) {
            assert(files_under(e, keys[keys.len() - 1]));
        }
        if filed_under_some(e, keys) && !files_under(e, k) {
            let g = choose|g: int| 0 <= g < keys.len() && #[trigger] files_under(e, keys[g]);
            assert(g < keys.len() - 1);
            assert(files_under(e, ks[g]));
        }
        if filed_under_some(e, ks) {
            let g = choose|g: int| 0 <= g < ks.len() && #[trigger] files_under(e, ks[g]);
            assert(files_under(e, keys[g]));
        }
        assert(groups_bag(es.push(e), keys) =~= (if filed_under_some(e, keys) { groups_bag(es, keys).insert(e) } else { groups_bag(es, keys) }));
    } else {
        assert(!filed_under_some(e, keys));
    }
}

/// Top-level entries and the entries filed under distinct keys are among
/// the entries, each at most once.
proof fn lemma_partition_within(es: Seq<TreeEntry>, keys: Seq<Seq<Seq<char>>>)
    requires
        forall|i: int, j: int| 0 <= i < j < keys.len() ==> keys[i] != keys[j],
    ensures
        roots_of(es).to_multiset().add(groups_bag(es, keys)).subset_of(es.to_multiset()),
    decreases es.len(),
{
    broadcast use vstd::multiset::group_multiset_axioms;
    broadcast use vstd::seq_lib::group_to_multiset_ensures;
    if es.len() == 0 {
        assert(roots_of(es) =~= Seq::<TreeEntry>::empty());
        assert forall|k: Seq<Seq<char>>| group_of(es, k) =~= Seq::<TreeEntry>::empty() by {}
        lemma_groups_bag_empty(es, keys);
        assert(roots_of(es).to_multiset().add(groups_bag(es, keys)) =~= vstd::multiset::Multiset::empty());
    } else {
        let pre = es.drop_last();
        let e = es.last();
        assert(es =~= pre.push(e));
        lemma_partition_within(pre, keys);
        lemma_groups_bag_push(pre, e, keys);
        if filed_under_some(e, keys) {
            let g = choose|g: int| 0 <= g < keys.len() && #[trigger] files_under(e, keys[g]);
            assert(e.depth_view() != 1);
        }
        let before = roots_of(pre).to_multiset().add(groups_bag(pre, keys));
        let after = roots_of(es).to_multiset().add(groups_bag(es, keys));
        assert forall|x: TreeEntry| after.count(x) <= es.to_multiset().count(x) by {
            assert(before.count(x) <= pre.to_multiset().count(x));
        }
    }
}

proof fn lemma_groups_bag_empty(es: Seq<TreeEntry>, keys: Seq<Seq<Seq<char>>>)
    requires
        es.len() == 0,
    ensures
        groups_bag(es, keys) =~= vstd::multiset::Multiset::empty(),
    decreases keys.len(),
{
    broadcast use vstd::multiset::group_multiset_axioms;
    broadcast use vstd::seq_lib::group_to_multiset_ensures;
    if keys.len() > 0 {
        lemma_groups_bag_empty(es, keys.drop_last());
        assert(group_of(es, keys.last()) =~= Seq::<TreeEntry>::empty());
        assert(group_of(es, keys.last()).to_multiset() =~= vstd::multiset::Multiset::empty());
    }
}

proof fn lemma_kids_bag_groups(kids: Seq<Option<Vec<TreeEntry>>>, es: Seq<TreeEntry>, keys: Seq<Seq<Seq<char>>>, o: SortOptions)
    requires
        kids.len() == keys.len(),
        forall|g: int| 0 <= g < kids.len() ==> #[trigger] kids[g] is Some
            && stably_sorted(kids[g]->0@, group_of(es, keys[g]), o),
    ensures
        kids_bag(kids) == groups_bag(es, keys),
    decreases kids.len(),
{
    if kids.len() > 0 {
        let n = kids.len() - 1;
        assert forall|g: int| 0 <= g < kids.drop_last().len() implies #[trigger] kids.drop_last()[g] is Some
            && stably_sorted(kids.drop_last()[g]->0@, group_of(es, keys.drop_last()[g]), o) by {
            assert(kids.drop_last()[g] == kids[g]);
            assert(keys.drop_last()[g] == keys[g]);
        }
        lemma_kids_bag_groups(kids.drop_last(), es, keys.drop_last(), o);
        assert(kids[n] is Some && stably_sorted(kids[n]->0@, group_of(es, keys[n]), o));
        crate::sort::lemma_sorted_same_entries(kids[n]->0@, group_of(es, keys[n]), o);
    }
}

/// The hierarchical sort never invents or repeats an entry: every entry
/// of the arrangement is an entry of the input, appearing at most as many
/// times as there.
pub proof fn lemma_arranged_within_input(out: Seq<TreeEntry>, es: Seq<TreeEntry>, o: SortOptions)
    requires
        arranged_as_tree(out, es, o),
    ensures
        out.to_multiset().subset_of(es.to_multiset()),
{
    broadcast use vstd::multiset::group_multiset_axioms;
    let (roots, kids) = choose|roots: Seq<TreeEntry>, kids: Seq<Option<Vec<TreeEntry>>>| {
        &&& stably_sorted(roots, roots_of(es), o)
        &&& kids.len() == group_keys(es).len()
        &&& forall|g: int| 0 <= g < kids.len() ==> #[trigger] kids[g] is Some
            && stably_sorted(kids[g]->0@, group_of(es, group_keys(es)[g]), o)
        &&& out == visit_all(roots, group_keys(es), kids).0
    };
    let keys = group_keys(es);
    lemma_group_keys_distinct(es);
    lemma_visit_all_conserves(roots, keys, kids);
    crate::sort::lemma_sorted_same_entries(roots, roots_of(es), o);
    lemma_kids_bag_groups(kids, es, keys, o);
    lemma_partition_within(es, keys);
    let left = visit_all(roots, keys, kids).1;
    assert forall|x: TreeEntry| out.to_multiset().count(x) <= es.to_multiset().count(x) by {
        assert(out.to_multiset().add(kids_bag(left)).count(x) == out.to_multiset().count(x) + kids_bag(left).count(x));
    }
}

/// Entry `e`'s parent directory is among the entries `es`.
pub open spec fn has_parent_in(es: Seq<TreeEntry>, e: TreeEntry) -> bool {
    exists|j: int| 0 <= j < es.len() && parent_key(e) == Some(#[trigger] entry_key(es[j]))
}

/// A complete walk: consistent, and every entry below the top level has
/// its parent directory among the entries (as a real walk does).
pub open spec fn complete_walk(es: Seq<TreeEntry>) -> bool {
    &&& well_formed_walk(es)
    &&& forall|i: int| 0 <= i < es.len() && es[i].depth_view() != 1 ==> #[trigger] has_parent_in(es, es[i])
}

/// `left` is `kids` with some lists taken.
pub open spec fn only_taken(kids: Seq<Option<Vec<TreeEntry>>>, left: Seq<Option<Vec<TreeEntry>>>) -> bool {
    &&& left.len() == kids.len()
    &&& forall|g: int| 0 <= g < left.len() && (#[trigger] left[g]) is Some ==> left[g] == kids[g]
}

/// Every visited entry's child list (if it has one) has been taken.
pub open spec fn visited_taken(out: Seq<TreeEntry>, keys: Seq<Seq<Seq<char>>>, left: Seq<Option<Vec<TreeEntry>>>) -> bool {
    forall|k: int| 0 <= k < out.len() ==> {
        let j = find_key(keys, entry_key(#[trigger] out[k]));
        0 <= j < left.len() ==> left[j] is None
    }
}

proof fn lemma_visited_taken_mono(out: Seq<TreeEntry>, keys: Seq<Seq<Seq<char>>>, left: Seq<Option<Vec<TreeEntry>>>, left2: Seq<Option<Vec<TreeEntry>>>)
    requires
        visited_taken(out, keys, left),
        only_taken(left, left2),
    ensures
        visited_taken(out, keys, left2),
{
    assert forall|k: int| 0 <= k < out.len() implies {
        let j = find_key(keys, entry_key(#[trigger] out[k]));
        0 <= j < left2.len() ==> left2[j] is None
    } by {
        let j = find_key(keys, entry_key(out[k]));
        if 0 <= j < left2.len() && left2[j] is Some {
            assert(left2[j] == left[j]);
        }
    }
}

proof fn lemma_visit_takes(e: TreeEntry, keys: Seq<Seq<Seq<char>>>, kids: Seq<Option<Vec<TreeEntry>>>)
    ensures
        only_taken(kids, visit(e, keys, kids).1),
        visited_taken(visit(e, keys, kids).0, keys, visit(e, keys, kids).1),
    decreases pending(kids), 0nat,
{
    let i = find_key(keys, entry_key(e));
    if 0 <= i < kids.len() && kids[i] is Some {
        let rest = kids.update(i, None);
        lemma_pending_take(kids, i);
        let children = kids[i]->0@;
        lemma_visit_all_takes(children, keys, rest);
        let (out, left) = visit_all(children, keys, rest);
        assert(visit(e, keys, kids).0 == seq![e] + out);
        assert(visit(e, keys, kids).1 == left);
        assert forall|g: int| 0 <= g < left.len() && (#[trigger] left[g]) is Some implies left[g] == kids[g] by {
            assert(left[g] == rest[g]);
        }
        let r = seq![e] + out;
        assert forall|k: int| 0 <= k < r.len() implies {
            let j = find_key(keys, entry_key(#[trigger] r[k]));
            0 <= j < left.len() ==> left[j] is None
        } by {
            if k == 0 {
                if left[i] is Some {
                    assert(left[i] == rest[i]);
                }
            } else {
                assert(r[k] == out[k - 1]);
            }
        }
    } else {
        assert(visit(e, keys, kids).0 =~= seq![e]);
    }
}

proof fn lemma_visit_all_takes(list: Seq<TreeEntry>, keys: Seq<Seq<Seq<char>>>, kids: Seq<Option<Vec<TreeEntry>>>)
    ensures
        only_taken(kids, visit_all(list, keys, kids).1),
        visited_taken(visit_all(list, keys, kids).0, keys, visit_all(list, keys, kids).1),
    decreases pending(kids), list.len() + 1,
{
    if list.len() > 0 {
        lemma_visit_pending(list[0], keys, kids);
        lemma_visit_all_unfold(list, keys, kids);
        let (first, after) = visit(list[0], keys, kids);
        lemma_visit_takes(list[0], keys, kids);
        let rest = list.drop_first();
        lemma_visit_all_takes(rest, keys, after);
        let (more, left) = visit_all(rest, keys, after);
        lemma_visited_taken_mono(first, keys, after, left);
        let r = first + more;
        assert(visit_all(list, keys, kids).0 == r);
        assert forall|k: int| 0 <= k < r.len() implies {
            let j = find_key(keys, entry_key(#[trigger] r[k]));
            0 <= j < left.len() ==> left[j] is None
        } by {
            if k < first.len() {
                assert(r[k] == first[k]);
            } else {
                assert(r[k] == more[k - first.len()]);
            }
        }
        assert forall|g: int| 0 <= g < left.len() && (#[trigger] left[g]) is Some implies left[g] == kids[g] by {
            assert(left[g] == after[g]);
        }
    }
}

proof fn lemma_kids_bag_member(kids: Seq<Option<Vec<TreeEntry>>>, x: TreeEntry)
    requires
        kids_bag(kids).count(x) > 0,
    ensures
        exists|g: int| 0 <= g < kids.len() && (#[trigger] kids[g]) is Some && kids[g]->0@.contains(x),
    decreases kids.len(),
{
    broadcast use vstd::multiset::group_multiset_axioms;
    broadcast use vstd::seq_lib::group_to_multiset_ensures;
    if kids.len() > 0 {
        let n = kids.len() - 1;
        match kids.last() {
            Some(v) => {
                if v@.to_multiset().count(x) > 0 {
                    assert(kids[n] is Some && kids[n]->0@.contains(x));
                } else {
                    lemma_kids_bag_member(kids.drop_last(), x);
                    let g = choose|g: int| 0 <= g < kids.drop_last().len() && (#[trigger] kids.drop_last()[g]) is Some && kids.drop_last()[g]->0@.contains(x);
                    assert(kids[g] == kids.drop_last()[g]);
                }
            },
            None => {
                lemma_kids_bag_member(kids.drop_last(), x);
                let g = choose|g: int| 0 <= g < kids.drop_last().len() && (#[trigger] kids.drop_last()[g]) is Some && kids.drop_last()[g]->0@.contains(x);
                assert(kids[g] == kids.drop_last()[g]);
            },
        }
    } else {
        assert(kids_bag(kids) =~= vstd::multiset::Multiset::empty());
    }
}

proof fn lemma_kids_bag_none(kids: Seq<Option<Vec<TreeEntry>>>)
    requires
        forall|g: int| 0 <= g < kids.len() ==> (#[trigger] kids[g]) is None,
    ensures
        kids_bag(kids) =~= vstd::multiset::Multiset::empty(),
    decreases kids.len(),
{
    broadcast use vstd::multiset::group_multiset_axioms;
    if kids.len() > 0 {
        assert forall|g: int| 0 <= g < kids.drop_last().len() implies (#[trigger] kids.drop_last()[g]) is None by {
            assert(kids.drop_last()[g] == kids[g]);
        }
        lemma_kids_bag_none(kids.drop_last());
        assert(kids[kids.len() - 1] is None);
    }
}

proof fn lemma_group_keys_cover(es: Seq<TreeEntry>, x: TreeEntry)
    requires
        es.contains(x),
        x.depth_view() != 1,
        parent_key(x) is Some,
    ensures
        group_keys(es).contains(parent_key(x)->0),
    decreases es.len(),
{
    let pre = es.drop_last();
    assert forall|y: Seq<Seq<char>>| group_keys(pre).contains(y) implies group_keys(es).contains(y) by {
        let w = choose|w: int| 0 <= w < group_keys(pre).len() && group_keys(pre)[w] == y;
        assert(group_keys(es)[w] == y);
    }
    if es.last() == x {
        if !group_keys(pre).contains(parent_key(x)->0) {
            assert(group_keys(es).last() == parent_key(x)->0);
        }
    } else {
        let a = choose|a: int| 0 <= a < es.len() && es[a] == x;
        assert(pre[a] == x);
        lemma_group_keys_cover(pre, x);
    }
}

proof fn lemma_group_nonempty(es: Seq<TreeEntry>, g: int)
    requires
        0 <= g < group_keys(es).len(),
    ensures
        group_of(es, group_keys(es)[g]).len() > 0,
    decreases es.len(),
{
    let pre = es.drop_last();
    let k = group_keys(es)[g];
    if g < group_keys(pre).len() {
        assert(group_keys(pre)[g] == k);
        lemma_group_nonempty(pre, g);
    } else {
        assert(files_under(es.last(), k));
    }
}

/// When every entry is top-level or filed under one of `keys`, the
/// top-level entries and the groups are exactly the entries.
proof fn lemma_partition_exact(es: Seq<TreeEntry>, keys: Seq<Seq<Seq<char>>>)
    requires
        forall|i: int, j: int| 0 <= i < j < keys.len() ==> keys[i] != keys[j],
        forall|i: int| 0 <= i < es.len() ==> (#[trigger] es[i]).depth_view() == 1 || filed_under_some(es[i], keys),
    ensures
        roots_of(es).to_multiset().add(groups_bag(es, keys)) == es.to_multiset(),
    decreases es.len(),
{
    broadcast use vstd::multiset::group_multiset_axioms;
    broadcast use vstd::seq_lib::group_to_multiset_ensures;
    if es.len() == 0 {
        assert(roots_of(es) =~= Seq::<TreeEntry>::empty());
        lemma_groups_bag_empty(es, keys);
        assert(roots_of(es).to_multiset().add(groups_bag(es, keys)) =~= es.to_multiset());
    } else {
        let pre = es.drop_last();
        let e = es.last();
        assert(es =~= pre.push(e));
        assert forall|i: int| 0 <= i < pre.len() implies (#[trigger] pre[i]).depth_view() == 1 || filed_under_some(pre[i], keys) by {
            assert(pre[i] == es[i]);
        }
        lemma_partition_exact(pre, keys);
        lemma_groups_bag_push(pre, e, keys);
        assert(e == es[es.len() - 1]);
        if filed_under_some(e, keys) {
            let g = choose|g: int| 0 <= g < keys.len() && #[trigger] files_under(e, keys[g]);
            assert(e.depth_view() != 1);
        }
        assert(roots_of(es).to_multiset().add(groups_bag(es, keys)) =~= es.to_multiset());
    }
}

/// In a complete walk, every entry up to depth `d` is visited.
proof fn lemma_visited_up_to(
    es: Seq<TreeEntry>,
    out: Seq<TreeEntry>,
    keys: Seq<Seq<Seq<char>>>,
    kids: Seq<Option<Vec<TreeEntry>>>,
    left: Seq<Option<Vec<TreeEntry>>>,
    d: nat,
)
    requires
        complete_walk(es),
        forall|i: int, j: int| 0 <= i < j < keys.len() ==> keys[i] != keys[j],
        kids.len() == keys.len(),
        kids_from(kids, keys, es),
        only_taken(kids, left),
        visited_taken(out, keys, left),
        out.to_multiset().add(kids_bag(left)) == es.to_multiset(),
    ensures
        forall|x: TreeEntry| es.contains(x) && x.depth_view() <= d ==> #[trigger] out.contains(x),
    decreases d,
{
    broadcast use vstd::multiset::group_multiset_axioms;
    broadcast use vstd::seq_lib::group_to_multiset_ensures;
    if d > 0 {
        lemma_visited_up_to(es, out, keys, kids, left, (d - 1) as nat);
    }
    assert forall|x: TreeEntry| es.contains(x) && x.depth_view() <= d implies #[trigger] out.contains(x) by {
        assert(es.to_multiset().count(x) > 0);
        if !out.contains(x) {
            assert(out.to_multiset().count(x) == 0);
            assert(kids_bag(left).count(x) > 0);
            lemma_kids_bag_member(left, x);
            let g = choose|g: int| 0 <= g < left.len() && (#[trigger] left[g]) is Some && left[g]->0@.contains(x);
            assert(left[g] == kids[g]);
            let m = choose|m: int| 0 <= m < kids[g]->0@.len() && kids[g]->0@[m] == x;
            assert(es.contains(kids[g]->0@[m]) && files_under(kids[g]->0@[m], keys[g]));
            let a = choose|a: int| 0 <= a < es.len() && es[a] == x;
            assert(es[a].depth_view() != 1);
            assert(has_parent_in(es, es[a]));
            let b = choose|b: int| 0 <= b < es.len() && parent_key(es[a]) == Some(#[trigger] entry_key(es[b]));
            assert(files_under(es[a], entry_key(es[b])));
            assert(es[a].depth_view() == es[b].depth_view() + 1);
            assert(es.contains(es[b]));
            assert(d > 0);
            assert(out.contains(es[b]));
            let k = choose|k: int| 0 <= k < out.len() && out[k] == es[b];
            lemma_find_key(keys, entry_key(es[b]));
            assert(keys.contains(keys[g]));
            assert(entry_key(es[b]) == keys[g]);
            let j = find_key(keys, entry_key(es[b]));
            assert(keys[j] == keys[g]);
            assert(j == g);
            assert(left[j] is None);
        }
    }
}

/// For a complete walk (every entry's parent directory is among the
/// entries, as in a real walk), the hierarchical sort only rearranges:
/// the arrangement holds exactly the entries of the input, each as many
/// times.
pub proof fn lemma_arranged_complete(out: Seq<TreeEntry>, es: Seq<TreeEntry>, o: SortOptions)
    requires
        arranged_as_tree(out, es, o),
        complete_walk(es),
    ensures
        out.to_multiset() == es.to_multiset(),
{
    broadcast use vstd::multiset::group_multiset_axioms;
    broadcast use vstd::seq_lib::group_to_multiset_ensures;
    let (roots, kids) = choose|roots: Seq<TreeEntry>, kids: Seq<Option<Vec<TreeEntry>>>| {
        &&& stably_sorted(roots, roots_of(es), o)
        &&& kids.len() == group_keys(es).len()
        &&& forall|g: int| 0 <= g < kids.len() ==> #[trigger] kids[g] is Some
            && stably_sorted(kids[g]->0@, group_of(es, group_keys(es)[g]), o)
        &&& out == visit_all(roots, group_keys(es), kids).0
    };
    let keys = group_keys(es);
    lemma_group_keys_distinct(es);
    lemma_visit_all_conserves(roots, keys, kids);
    crate::sort::lemma_sorted_same_entries(roots, roots_of(es), o);
    lemma_kids_bag_groups(kids, es, keys, o);
    assert forall|i: int| 0 <= i < es.len() implies (#[trigger] es[i]).depth_view() == 1 || filed_under_some(es[i], keys) by {
        if es[i].depth_view() != 1 {
            assert(has_parent_in(es, es[i]));
            assert(es.contains(es[i]));
            lemma_group_keys_cover(es, es[i]);
            let w = choose|w: int| 0 <= w < keys.len() && keys[w] == parent_key(es[i])->0;
            assert(files_under(es[i], keys[w]));
        }
    }
    lemma_partition_exact(es, keys);
    assert forall|g: int, m: int| 0 <= g < kids.len() && kids[g] is Some && 0 <= m < kids[g]->0@.len() implies
        es.contains(#[trigger] kids[g]->0@[m]) && files_under(kids[g]->0@[m], keys[g]) by {
        lemma_group_of_members(es, keys[g]);
        lemma_sorted_members(kids[g]->0@, group_of(es, keys[g]), o);
        let a = choose|a: int| 0 <= a < group_of(es, keys[g]).len() && group_of(es, keys[g])[a] == kids[g]->0@[m];
        assert(es.contains(group_of(es, keys[g])[a]));
    }
    lemma_visit_all_takes(roots, keys, kids);
    let left = visit_all(roots, keys, kids).1;
    assert(out.to_multiset().add(kids_bag(left)) == es.to_multiset());
    assert forall|g: int| 0 <= g < left.len() implies (#[trigger] left[g]) is None by {
        if left[g] is Some {
            assert(left[g] == kids[g]);
            lemma_group_nonempty(es, g);
            let grp = group_of(es, keys[g]);
            let p = choose|p: Seq<int>| crate::sort::sorted_with(kids[g]->0@, grp, o, p);
            assert(kids[g]->0@.len() > 0);
            let x = kids[g]->0@[0];
            assert(es.contains(x) && files_under(x, keys[g]));
            let a = choose|a: int| 0 <= a < es.len() && es[a] == x;
            assert(es[a].depth_view() != 1);
            assert(has_parent_in(es, es[a]));
            let b = choose|b: int| 0 <= b < es.len() && parent_key(es[a]) == Some(#[trigger] entry_key(es[b]));
            lemma_visited_up_to(es, out, keys, kids, left, es[b].depth_view());
            assert(es.contains(es[b]));
            assert(out.contains(es[b]));
            let k = choose|k: int| 0 <= k < out.len() && out[k] == es[b];
            lemma_find_key(keys, entry_key(es[b]));
            assert(keys.contains(keys[g]));
            let j = find_key(keys, entry_key(es[b]));
            assert(keys[j] == keys[g]);
            assert(j == g);
        }
    }
    lemma_kids_bag_none(left);
    assert(out.to_multiset() =~= es.to_multiset());
}

/// In the hierarchical arrangement of a consistent walk whose entries with
/// entries under them are directories, only directories have deeper
/// entries right after them.
pub proof fn lemma_arranged_nests(out: Seq<TreeEntry>, es: Seq<TreeEntry>, o: SortOptions)
    requires
        arranged_as_tree(out, es, o),
        well_formed_walk(es),
        parents_are_dirs(es),
    ensures
        entries_nest(out),
{
    let (roots, kids) = choose|roots: Seq<TreeEntry>, kids: Seq<Option<Vec<TreeEntry>>>| {
        &&& stably_sorted(roots, roots_of(es), o)
        &&& kids.len() == group_keys(es).len()
        &&& forall|g: int| 0 <= g < kids.len() ==> #[trigger] kids[g] is Some
            && stably_sorted(kids[g]->0@, group_of(es, group_keys(es)[g]), o)
        &&& out == visit_all(roots, group_keys(es), kids).0
    };
    let keys = group_keys(es);
    lemma_roots_of_members(es);
    lemma_sorted_members(roots, roots_of(es), o);
    assert forall|m: int| 0 <= m < roots.len() implies es.contains(#[trigger] roots[m]) && roots[m].depth_view() == 1 by {
        let a = choose|a: int| 0 <= a < roots_of(es).len() && roots_of(es)[a] == roots[m];
        assert(es.contains(roots_of(es)[a]));
    }
    assert forall|g: int, m: int| 0 <= g < kids.len() && kids[g] is Some && 0 <= m < kids[g]->0@.len() implies
        es.contains(#[trigger] kids[g]->0@[m]) && files_under(kids[g]->0@[m], keys[g]) by {
        lemma_group_of_members(es, keys[g]);
        lemma_sorted_members(kids[g]->0@, group_of(es, keys[g]), o);
        let a = choose|a: int| 0 <= a < group_of(es, keys[g]).len() && group_of(es, keys[g])[a] == kids[g]->0@[m];
        assert(es.contains(group_of(es, keys[g])[a]));
    }
    lemma_visit_all_nest(roots, keys, kids, es, 1);
}

/// The child list kept for key `k`, if it is still to be taken.
pub open spec fn list_at(keys: Seq<Seq<Seq<char>>>, kids: Seq<Option<Vec<TreeEntry>>>, k: Seq<Seq<char>>) -> Option<Seq<TreeEntry>> {
    let i = find_key(keys, k);
    if 0 <= i < kids.len() {
        match kids[i] {
            Some(v) => Some(v@),
            None => None,
        }
    } else {
        None
    }
}

/// Two key orders that hold the same child lists under every key.
pub open spec fn same_lists(
    keys1: Seq<Seq<Seq<char>>>,
    kids1: Seq<Option<Vec<TreeEntry>>>,
    keys2: Seq<Seq<Seq<char>>>,
    kids2: Seq<Option<Vec<TreeEntry>>>,
) -> bool {
    &&& kids1.len() == keys1.len()
    &&& kids2.len() == keys2.len()
    &&& forall|k: Seq<Seq<char>>| #[trigger] list_at(keys1, kids1, k) == list_at(keys2, kids2, k)
}

proof fn lemma_list_at_take(keys: Seq<Seq<Seq<char>>>, kids: Seq<Option<Vec<TreeEntry>>>, e: TreeEntry, k: Seq<Seq<char>>)
    requires
        0 <= find_key(keys, entry_key(e)) < kids.len(),
        kids.len() == keys.len(),
    ensures
        list_at(keys, kids.update(find_key(keys, entry_key(e)), None), k)
            == (if k == entry_key(e) { None } else { list_at(keys, kids, k) }),
{
    lemma_find_key(keys, entry_key(e));
    lemma_find_key(keys, k);
    let i = find_key(keys, entry_key(e));
    let j = find_key(keys, k);
    if j == i {
        assert(keys[j] == k);
    }
}

proof fn lemma_visit_same(
    e: TreeEntry,
    keys1: Seq<Seq<Seq<char>>>,
    kids1: Seq<Option<Vec<TreeEntry>>>,
    keys2: Seq<Seq<Seq<char>>>,
    kids2: Seq<Option<Vec<TreeEntry>>>,
)
    requires
        same_lists(keys1, kids1, keys2, kids2),
    ensures
        visit(e, keys1, kids1).0 == visit(e, keys2, kids2).0,
        same_lists(keys1, visit(e, keys1, kids1).1, keys2, visit(e, keys2, kids2).1),
    decreases pending(kids1), 0nat,
{
    let k = entry_key(e);
    let i1 = find_key(keys1, k);
    let i2 = find_key(keys2, k);
    lemma_find_key(keys1, k);
    lemma_find_key(keys2, k);
    assert(list_at(keys1, kids1, k) == list_at(keys2, kids2, k));
    lemma_visit_pending(e, keys1, kids1);
    lemma_visit_pending(e, keys2, kids2);
    if 0 <= i1 < kids1.len() && kids1[i1] is Some {
        assert(0 <= i2 < kids2.len() && kids2[i2] is Some);
        let rest1 = kids1.update(i1, None);
        let rest2 = kids2.update(i2, None);
        lemma_pending_take(kids1, i1);
        assert forall|k2: Seq<Seq<char>>| #[trigger] list_at(keys1, rest1, k2) == list_at(keys2, rest2, k2) by {
            lemma_list_at_take(keys1, kids1, e, k2);
            lemma_list_at_take(keys2, kids2, e, k2);
            assert(list_at(keys1, kids1, k2) == list_at(keys2, kids2, k2));
        }
        assert(kids1[i1]->0@ == kids2[i2]->0@);
        lemma_visit_all_same(kids1[i1]->0@, keys1, rest1, keys2, rest2);
    } else {
        assert(!(0 <= i2 < kids2.len() && kids2[i2] is Some));
    }
}

proof fn lemma_visit_all_same(
    list: Seq<TreeEntry>,
    keys1: Seq<Seq<Seq<char>>>,
    kids1: Seq<Option<Vec<TreeEntry>>>,
    keys2: Seq<Seq<Seq<char>>>,
    kids2: Seq<Option<Vec<TreeEntry>>>,
)
    requires
        same_lists(keys1, kids1, keys2, kids2),
    ensures
        visit_all(list, keys1, kids1).0 == visit_all(list, keys2, kids2).0,
        same_lists(keys1, visit_all(list, keys1, kids1).1, keys2, visit_all(list, keys2, kids2).1),
    decreases pending(kids1), list.len() + 1,
{
    if list.len() > 0 {
        lemma_visit_pending(list[0], keys1, kids1);
        lemma_visit_all_unfold(list, keys1, kids1);
        lemma_visit_all_unfold(list, keys2, kids2);
        lemma_visit_same(list[0], keys1, kids1, keys2, kids2);
        let after1 = visit(list[0], keys1, kids1).1;
        let after2 = visit(list[0], keys2, kids2).1;
        lemma_visit_all_same(list.drop_first(), keys1, after1, keys2, after2);
    }
}

/// Two entries listed side by side by the hierarchical sort: both at the
/// top level, or both filed under the same parent directory.
pub open spec fn siblings(a: TreeEntry, b: TreeEntry) -> bool {
    ||| a.depth_view() == 1 && b.depth_view() == 1
    ||| a.depth_view() != 1 && b.depth_view() != 1 && parent_key(a) is Some && parent_key(a) == parent_key(b)
}

/// The entries of `x` are in nondecreasing order.
pub open spec fn in_order(x: Seq<TreeEntry>, o: SortOptions) -> bool {
    forall|i: int, j: int| 0 <= i < j < x.len() ==> #[trigger] entry_order(x[i], x[j], o) != crate::order::Order::Greater
}

/// The sorting order behaves as an order among the entries of `es`: it
/// is antisymmetric and transitive on them.
#[verifier::opaque]
spec fn consistent_among(es: Seq<TreeEntry>, o: SortOptions) -> bool {
    &&& forall|a: TreeEntry, b: TreeEntry| es.contains(a) && es.contains(b)
        ==> #[trigger] entry_order(a, b, o) == entry_order(b, a, o).flip()
    &&& forall|a: TreeEntry, b: TreeEntry, c: TreeEntry|
        es.contains(a) && es.contains(b) && es.contains(c)
            && #[trigger] entry_order(a, b, o) != crate::order::Order::Greater
            && #[trigger] entry_order(b, c, o) != crate::order::Order::Greater
            ==> entry_order(a, c, o) != crate::order::Order::Greater
}

proof fn lemma_consistent_among(es: Seq<TreeEntry>, o: SortOptions)
    requires
        crate::sort::order_consistent(es, o),
    ensures
        consistent_among(es, o),
{
    reveal(consistent_among);
    assert forall|a: TreeEntry, b: TreeEntry| es.contains(a) && es.contains(b)
        implies #[trigger] entry_order(a, b, o) == entry_order(b, a, o).flip() by {
        let i = choose|i: int| 0 <= i < es.len() && es[i] == a;
        let j = choose|j: int| 0 <= j < es.len() && es[j] == b;
        assert(entry_order(es[i], es[j], o) == entry_order(es[j], es[i], o).flip());
    }
    assert forall|a: TreeEntry, b: TreeEntry, c: TreeEntry|
        es.contains(a) && es.contains(b) && es.contains(c)
            && #[trigger] entry_order(a, b, o) != crate::order::Order::Greater
            && #[trigger] entry_order(b, c, o) != crate::order::Order::Greater
        implies entry_order(a, c, o) != crate::order::Order::Greater by {
        let i = choose|i: int| 0 <= i < es.len() && es[i] == a;
        let j = choose|j: int| 0 <= j < es.len() && es[j] == b;
        let k = choose|k: int| 0 <= k < es.len() && es[k] == c;
        assert(entry_order(es[i], es[j], o) != crate::order::Order::Greater);
        assert(entry_order(es[j], es[k], o) != crate::order::Order::Greater);
    }
}

/// Consistency among the entries of `es` holds among any of them.
proof fn lemma_among_subset(sub: Seq<TreeEntry>, es: Seq<TreeEntry>, o: SortOptions)
    requires
        consistent_among(es, o),
        forall|a: TreeEntry| sub.contains(a) ==> es.contains(a),
    ensures
        consistent_among(sub, o),
{
    reveal(consistent_among);
}

proof fn lemma_among_flip(es: Seq<TreeEntry>, a: TreeEntry, b: TreeEntry, o: SortOptions)
    requires
        consistent_among(es, o),
        es.contains(a),
        es.contains(b),
    ensures
        entry_order(a, b, o) == entry_order(b, a, o).flip(),
{
    reveal(consistent_among);
}

/// A list whose entries all come from `es` inherits consistency.
proof fn lemma_consistent_sub(sub: Seq<TreeEntry>, es: Seq<TreeEntry>, o: SortOptions)
    requires
        consistent_among(es, o),
        forall|m: int| 0 <= m < sub.len() ==> es.contains(#[trigger] sub[m]),
    ensures
        crate::sort::order_consistent(sub, o),
        consistent_among(sub, o),
{
    reveal(consistent_among);
    assert forall|i: int, j: int| 0 <= i < sub.len() && 0 <= j < sub.len()
        implies #[trigger] entry_order(sub[i], sub[j], o) == entry_order(sub[j], sub[i], o).flip() by {
        assert(es.contains(sub[i]) && es.contains(sub[j]));
    }
    assert forall|i: int, j: int, k: int|
        0 <= i < sub.len() && 0 <= j < sub.len() && 0 <= k < sub.len()
            && #[trigger] entry_order(sub[i], sub[j], o) != crate::order::Order::Greater
            && #[trigger] entry_order(sub[j], sub[k], o) != crate::order::Order::Greater
        implies entry_order(sub[i], sub[k], o) != crate::order::Order::Greater by {
        assert(es.contains(sub[i]) && es.contains(sub[j]) && es.contains(sub[k]));
    }
    assert forall|a: TreeEntry| sub.contains(a) implies es.contains(a) by {
        let i = choose|i: int| 0 <= i < sub.len() && sub[i] == a;
        assert(es.contains(sub[i]));
    }
}

proof fn lemma_stably_sorted_in_order(new: Seq<TreeEntry>, old: Seq<TreeEntry>, o: SortOptions)
    requires
        stably_sorted(new, old, o),
        crate::sort::order_consistent(old, o),
    ensures
        in_order(new, o),
        new.to_multiset() == old.to_multiset(),
{
    crate::sort::lemma_sorted_same_entries(new, old, o);
    let p = choose|p: Seq<int>| crate::sort::sorted_with(new, old, o, p);
    assert forall|i: int, j: int| 0 <= i < j < new.len() implies #[trigger] entry_order(new[i], new[j], o) != crate::order::Order::Greater by {
        assert(entry_order(new[i], new[j], o) != crate::order::Order::Greater);
    }
}

/// Two lists in order holding the same entries are the same list, when no
/// two different entries among them compare equal.
proof fn lemma_unique_in_order(x: Seq<TreeEntry>, y: Seq<TreeEntry>, o: SortOptions)
    requires
        consistent_among(x, o),
        x.to_multiset() == y.to_multiset(),
        in_order(x, o),
        in_order(y, o),
        forall|a: TreeEntry, b: TreeEntry| x.contains(a) && x.contains(b) && #[trigger] entry_order(a, b, o) == crate::order::Order::Equal ==> a == b,
    ensures
        x == y,
    decreases x.len(),
{
    broadcast use vstd::seq_lib::group_to_multiset_ensures;
    broadcast use vstd::multiset::group_multiset_axioms;
    assert(x.len() == y.len()) by {
        vstd::seq_lib::to_multiset_len(x);
        vstd::seq_lib::to_multiset_len(y);
    }
    if x.len() == 0 {
        assert(x =~= y);
    } else {
        assert(x.to_multiset().count(x[0]) > 0);
        assert(y.contains(x[0]));
        let k = choose|k: int| 0 <= k < y.len() && y[k] == x[0];
        assert(y.to_multiset().count(y[0]) > 0);
        assert(x.contains(y[0]));
        let m = choose|m: int| 0 <= m < x.len() && x[m] == y[0];
        assert(x.contains(x[0]) && x.contains(x[m]));
        lemma_among_flip(x, x[0], x[m], o);
        if m > 0 {
            assert(entry_order(x[0], x[m], o) != crate::order::Order::Greater);
        }
        if k > 0 {
            assert(entry_order(y[0], y[k], o) != crate::order::Order::Greater);
        }
        assert(x.contains(x[m]));
        assert(x[0] == y[0]);
        let x2 = x.drop_first();
        let y2 = y.drop_first();
        assert(x.remove(0) =~= x2);
        assert(y.remove(0) =~= y2);
        assert(x2.to_multiset() =~= y2.to_multiset());
        assert forall|i: int, j: int| 0 <= i < j < x2.len() implies #[trigger] entry_order(x2[i], x2[j], o) != crate::order::Order::Greater by {
            assert(entry_order(x[i + 1], x[j + 1], o) != crate::order::Order::Greater);
        }
        assert forall|i: int, j: int| 0 <= i < j < y2.len() implies #[trigger] entry_order(y2[i], y2[j], o) != crate::order::Order::Greater by {
            assert(entry_order(y[i + 1], y[j + 1], o) != crate::order::Order::Greater);
        }
        assert forall|a: TreeEntry, b: TreeEntry| x2.contains(a) && x2.contains(b) && #[trigger] entry_order(a, b, o) == crate::order::Order::Equal implies a == b by {
            let ia = choose|ia: int| 0 <= ia < x2.len() && x2[ia] == a;
            let ib = choose|ib: int| 0 <= ib < x2.len() && x2[ib] == b;
            assert(x[ia + 1] == a);
            assert(x[ib + 1] == b);
            assert(x.contains(a) && x.contains(b));
        }
        assert forall|a: TreeEntry| x2.contains(a) implies x.contains(a) by {
            let ia = choose|ia: int| 0 <= ia < x2.len() && x2[ia] == a;
            assert(x[ia + 1] == a);
        }
        lemma_among_subset(x2, x, o);
        lemma_unique_in_order(x2, y2, o);
        assert forall|i: int| 0 <= i < x.len() implies x[i] == y[i] by {
            if i > 0 {
                assert(x[i] == x2[i - 1]);
                assert(y[i] == y2[i - 1]);
            }
        }
        assert(x =~= y);
    }
}

proof fn lemma_roots_count(s: Seq<TreeEntry>, x: TreeEntry)
    ensures
        roots_of(s).to_multiset().count(x) == (if x.depth_view() == 1 { s.to_multiset().count(x) } else { 0 }),
    decreases s.len(),
{
    broadcast use vstd::seq_lib::group_to_multiset_ensures;
    broadcast use vstd::multiset::group_multiset_axioms;
    if s.len() == 0 {
        assert(roots_of(s) =~= Seq::<TreeEntry>::empty());
        assert(s.to_multiset() =~= vstd::multiset::Multiset::empty());
        assert(roots_of(s).to_multiset() =~= vstd::multiset::Multiset::empty());
    } else {
        lemma_roots_count(s.drop_last(), x);
        assert(s =~= s.drop_last().push(s.last()));
    }
}

proof fn lemma_group_count(s: Seq<TreeEntry>, k: Seq<Seq<char>>, x: TreeEntry)
    ensures
        group_of(s, k).to_multiset().count(x) == (if files_under(x, k) { s.to_multiset().count(x) } else { 0 }),
    decreases s.len(),
{
    broadcast use vstd::seq_lib::group_to_multiset_ensures;
    broadcast use vstd::multiset::group_multiset_axioms;
    if s.len() == 0 {
        assert(group_of(s, k) =~= Seq::<TreeEntry>::empty());
        assert(s.to_multiset() =~= vstd::multiset::Multiset::empty());
        assert(group_of(s, k).to_multiset() =~= vstd::multiset::Multiset::empty());
    } else {
        lemma_group_count(s.drop_last(), k, x);
        assert(s =~= s.drop_last().push(s.last()));
    }
}

proof fn lemma_group_keys_member(s: Seq<TreeEntry>, k: Seq<Seq<char>>)
    requires
        group_keys(s).contains(k),
    ensures
        exists|x: TreeEntry| s.contains(x) && x.depth_view() != 1 && #[trigger] parent_key(x) == Some(k),
    decreases s.len(),
{
    let pre = s.drop_last();
    if group_keys(pre).contains(k) {
        lemma_group_keys_member(pre, k);
        let x = choose|x: TreeEntry| pre.contains(x) && x.depth_view() != 1 && #[trigger] parent_key(x) == Some(k);
        let a = choose|a: int| 0 <= a < pre.len() && pre[a] == x;
        assert(s[a] == x);
    } else {
        let w = choose|w: int| 0 <= w < group_keys(s).len() && group_keys(s)[w] == k;
        assert(group_keys(s).len() > group_keys(pre).len()) by {
            if group_keys(s) == group_keys(pre) {
                assert(group_keys(pre).contains(k));
            }
        }
        assert(s.last() == s[s.len() - 1]);
        assert(parent_key(s.last()) == Some(k)) by {
            assert(group_keys(s) == group_keys(pre).push(parent_key(s.last())->0));
            if w < group_keys(pre).len() {
                assert(group_keys(pre)[w] == k);
            }
        }
    }
}

/// No two different siblings among `es` compare equal.
pub open spec fn siblings_distinct(es: Seq<TreeEntry>, o: SortOptions) -> bool {
    forall|a: TreeEntry, b: TreeEntry| es.contains(a) && es.contains(b) && siblings(a, b)
        && #[trigger] entry_order(a, b, o) == crate::order::Order::Equal ==> a == b
}

proof fn lemma_same_roots(r1: Seq<TreeEntry>, es1: Seq<TreeEntry>, r2: Seq<TreeEntry>, es2: Seq<TreeEntry>, o: SortOptions)
    requires
        stably_sorted(r1, roots_of(es1), o),
        stably_sorted(r2, roots_of(es2), o),
        es1.to_multiset() == es2.to_multiset(),
        consistent_among(es1, o),
        consistent_among(es2, o),
        siblings_distinct(es1, o),
    ensures
        r1 == r2,
{
    lemma_roots_of_members(es1);
    lemma_roots_of_members(es2);
    lemma_consistent_sub(roots_of(es1), es1, o);
    lemma_consistent_sub(roots_of(es2), es2, o);
    lemma_stably_sorted_in_order(r1, roots_of(es1), o);
    lemma_stably_sorted_in_order(r2, roots_of(es2), o);
    lemma_sorted_members(r1, roots_of(es1), o);
    assert forall|m: int| 0 <= m < r1.len() implies es1.contains(#[trigger] r1[m]) by {
        let a = choose|a: int| 0 <= a < roots_of(es1).len() && roots_of(es1)[a] == r1[m];
        assert(es1.contains(roots_of(es1)[a]));
    }
    lemma_consistent_sub(r1, es1, o);
    assert(roots_of(es1).to_multiset() =~= roots_of(es2).to_multiset()) by {
        assert forall|x: TreeEntry| roots_of(es1).to_multiset().count(x) == roots_of(es2).to_multiset().count(x) by {
            lemma_roots_count(es1, x);
            lemma_roots_count(es2, x);
        }
    }
    lemma_roots_of_members(es1);
    lemma_sorted_members(r1, roots_of(es1), o);
    assert forall|a: TreeEntry, b: TreeEntry| r1.contains(a) && r1.contains(b) && #[trigger] entry_order(a, b, o) == crate::order::Order::Equal implies a == b by {
        let ia = choose|ia: int| 0 <= ia < r1.len() && r1[ia] == a;
        let ib = choose|ib: int| 0 <= ib < r1.len() && r1[ib] == b;
        let ja = choose|ja: int| 0 <= ja < roots_of(es1).len() && roots_of(es1)[ja] == r1[ia];
        let jb = choose|jb: int| 0 <= jb < roots_of(es1).len() && roots_of(es1)[jb] == r1[ib];
        assert(es1.contains(roots_of(es1)[ja]) && es1.contains(roots_of(es1)[jb]));
        assert(siblings(a, b));
    }
    lemma_unique_in_order(r1, r2, o);
}

proof fn lemma_same_group(v1: Seq<TreeEntry>, es1: Seq<TreeEntry>, v2: Seq<TreeEntry>, es2: Seq<TreeEntry>, k: Seq<Seq<char>>, o: SortOptions)
    requires
        stably_sorted(v1, group_of(es1, k), o),
        stably_sorted(v2, group_of(es2, k), o),
        es1.to_multiset() == es2.to_multiset(),
        consistent_among(es1, o),
        consistent_among(es2, o),
        siblings_distinct(es1, o),
    ensures
        v1 == v2,
{
    lemma_group_of_members(es1, k);
    lemma_group_of_members(es2, k);
    lemma_consistent_sub(group_of(es1, k), es1, o);
    lemma_consistent_sub(group_of(es2, k), es2, o);
    lemma_stably_sorted_in_order(v1, group_of(es1, k), o);
    lemma_stably_sorted_in_order(v2, group_of(es2, k), o);
    lemma_sorted_members(v1, group_of(es1, k), o);
    assert forall|m: int| 0 <= m < v1.len() implies es1.contains(#[trigger] v1[m]) by {
        let a = choose|a: int| 0 <= a < group_of(es1, k).len() && group_of(es1, k)[a] == v1[m];
        assert(es1.contains(group_of(es1, k)[a]));
    }
    lemma_consistent_sub(v1, es1, o);
    assert(group_of(es1, k).to_multiset() =~= group_of(es2, k).to_multiset()) by {
        assert forall|x: TreeEntry| group_of(es1, k).to_multiset().count(x) == group_of(es2, k).to_multiset().count(x) by {
            lemma_group_count(es1, k, x);
            lemma_group_count(es2, k, x);
        }
    }
    lemma_group_of_members(es1, k);
    lemma_sorted_members(v1, group_of(es1, k), o);
    assert forall|a: TreeEntry, b: TreeEntry| v1.contains(a) && v1.contains(b) && #[trigger] entry_order(a, b, o) == crate::order::Order::Equal implies a == b by {
        let ia = choose|ia: int| 0 <= ia < v1.len() && v1[ia] == a;
        let ib = choose|ib: int| 0 <= ib < v1.len() && v1[ib] == b;
        let ja = choose|ja: int| 0 <= ja < group_of(es1, k).len() && group_of(es1, k)[ja] == v1[ia];
        let jb = choose|jb: int| 0 <= jb < group_of(es1, k).len() && group_of(es1, k)[jb] == v1[ib];
        assert(es1.contains(group_of(es1, k)[ja]) && files_under(group_of(es1, k)[ja], k));
        assert(es1.contains(group_of(es1, k)[jb]) && files_under(group_of(es1, k)[jb], k));
        assert(siblings(a, b));
    }
    lemma_unique_in_order(v1, v2, o);
}

proof fn lemma_same_keys(es1: Seq<TreeEntry>, es2: Seq<TreeEntry>, k: Seq<Seq<char>>)
    requires
        es1.to_multiset() == es2.to_multiset(),
        group_keys(es1).contains(k),
    ensures
        group_keys(es2).contains(k),
{
    broadcast use vstd::seq_lib::group_to_multiset_ensures;
    lemma_group_keys_member(es1, k);
    let x = choose|x: TreeEntry| es1.contains(x) && x.depth_view() != 1 && #[trigger] parent_key(x) == Some(k);
    assert(es1.to_multiset().count(x) > 0);
    assert(es2.contains(x));
    lemma_group_keys_cover(es2, x);
}

/// The hierarchical arrangement does not depend on the input order: two
/// lists holding the same entries (each as many times), arranged with the
/// same options, give the same result, when the sorting order is
/// consistent on the entries (always so unless names are compared in
/// natural order: `lemma_order_consistent`) and no two different siblings
/// compare equal.
pub proof fn lemma_arranged_order_independent(out1: Seq<TreeEntry>, es1: Seq<TreeEntry>, out2: Seq<TreeEntry>, es2: Seq<TreeEntry>, o: SortOptions)
    requires
        arranged_as_tree(out1, es1, o),
        arranged_as_tree(out2, es2, o),
        es1.to_multiset() == es2.to_multiset(),
        crate::sort::order_consistent(es1, o),
        siblings_distinct(es1, o),
    ensures
        out1 == out2,
{
    let (roots1, kids1) = choose|roots: Seq<TreeEntry>, kids: Seq<Option<Vec<TreeEntry>>>| {
        &&& stably_sorted(roots, roots_of(es1), o)
        &&& kids.len() == group_keys(es1).len()
        &&& forall|g: int| 0 <= g < kids.len() ==> #[trigger] kids[g] is Some
            && stably_sorted(kids[g]->0@, group_of(es1, group_keys(es1)[g]), o)
        &&& out1 == visit_all(roots, group_keys(es1), kids).0
    };
    let (roots2, kids2) = choose|roots: Seq<TreeEntry>, kids: Seq<Option<Vec<TreeEntry>>>| {
        &&& stably_sorted(roots, roots_of(es2), o)
        &&& kids.len() == group_keys(es2).len()
        &&& forall|g: int| 0 <= g < kids.len() ==> #[trigger] kids[g] is Some
            && stably_sorted(kids[g]->0@, group_of(es2, group_keys(es2)[g]), o)
        &&& out2 == visit_all(roots, group_keys(es2), kids).0
    };
    let keys1 = group_keys(es1);
    let keys2 = group_keys(es2);
    lemma_consistent_among(es1, o);
    assert forall|x: TreeEntry| es2.contains(x) implies es1.contains(x) by {
        broadcast use vstd::seq_lib::group_to_multiset_ensures;
        assert(es2.to_multiset().count(x) > 0);
    }
    lemma_among_subset(es2, es1, o);
    lemma_same_roots(roots1, es1, roots2, es2, o);
    assert forall|k: Seq<Seq<char>>| #[trigger] list_at(keys1, kids1, k) == list_at(keys2, kids2, k) by {
        lemma_find_key(keys1, k);
        lemma_find_key(keys2, k);
        let i1 = find_key(keys1, k);
        let i2 = find_key(keys2, k);
        if i1 >= 0 {
            assert(keys1[i1] == k);
            lemma_same_keys(es1, es2, k);
            assert(i2 >= 0);
            assert(kids1[i1] is Some && kids2[i2] is Some);
            lemma_same_group(kids1[i1]->0@, es1, kids2[i2]->0@, es2, k, o);
        } else if i2 >= 0 {
            assert(keys2[i2] == k);
            lemma_same_keys(es2, es1, k);
        }
    }
    lemma_visit_all_same(roots1, keys1, kids1, keys2, kids2);
}

proof fn lemma_group_keys_distinct(es: Seq<TreeEntry>)
    ensures
        forall|i: int, j: int| 0 <= i < j < group_keys(es).len() ==> group_keys(es)[i] != group_keys(es)[j],
    decreases es.len(),
{
    if es.len() > 0 {
        lemma_group_keys_distinct(es.drop_last());
        let pre = group_keys(es.drop_last());
        let cur = group_keys(es);
        assert forall|i: int, j: int| 0 <= i < j < cur.len() implies cur[i] != cur[j] by {
            if j == pre.len() {
                assert(cur[i] == pre[i]);
                assert(pre.contains(pre[i]));
            }
        }
    }
}

proof fn lemma_group_of_empty(es: Seq<TreeEntry>, k: Seq<Seq<char>>)
    requires
        !group_keys(es).contains(k),
    ensures
        group_of(es, k) =~= Seq::<TreeEntry>::empty(),
    decreases es.len(),
{
    if es.len() > 0 {
        let pre = group_keys(es.drop_last());
        assert forall|x: Seq<Seq<char>>| pre.contains(x) implies group_keys(es).contains(x) by {
            let w = choose|w: int| 0 <= w < pre.len() && pre[w] == x;
            assert(group_keys(es)[w] == x);
        }
        lemma_group_of_empty(es.drop_last(), k);
        if files_under(es.last(), k) {
            assert(group_keys(es).last() == k);
        }
    }
}

} // verus!
