//! What is shown beside an entry's name (its size, permissions and git
//! status), and the summary line under the tree.

use vstd::prelude::*;
use crate::entry::{EntryMeta, TreeEntry};
use crate::text::{decimal, push_char, push_decimal, push_str};
use crate::utils::{format_size, permission_string, permission_text, size_text};

verus! {

/// The per-entry annotations a rendering shows.
pub struct Annotations {
    /// Whether sizes are shown (`--size`, or `--du`).
    pub show_size: bool,
    /// Whether permission strings are shown.
    pub show_permissions: bool,
    /// Cumulative directory sizes by entry index, present under `--du`.
    pub du_sizes: Option<Vec<u64>>,
    /// The git status character of each entry, by entry index, when one
    /// is known.
    pub git_marks: Vec<Option<char>>,
}

/// The cumulative size recorded for entry `index`, if any.
pub open spec fn du_at(a: Annotations, index: int) -> Option<u64> {
    match a.du_sizes {
        Some(d) => if 0 <= index < d@.len() { Some(d@[index]) } else { None },
        None => None,
    }
}

/// The git status character recorded for entry `index`, if any.
pub open spec fn mark_at(a: Annotations, index: int) -> Option<char> {
    if 0 <= index < a.git_marks@.len() { a.git_marks@[index] } else { None }
}

/// The size shown for an entry: for a directory its cumulative size (only
/// known under `--du`), for anything else its own length; nothing when
/// sizes are off or the number is unknown.
pub open spec fn shown_size(e: TreeEntry, index: int, a: Annotations) -> Option<u64> {
    if !a.show_size {
        None
    } else if e.is_dir_view() {
        du_at(a, index)
    } else {
        match e.metadata_view() {
            Some(m) => Some(m.len),
            None => None,
        }
    }
}

/// The permission string shown for an entry, if any.
pub open spec fn shown_permissions(e: TreeEntry, a: Annotations) -> Option<Seq<char>> {
    if a.show_permissions {
        match e.metadata_view() {
            Some(m) => Some(permission_text(m)),
            None => None,
        }
    } else {
        None
    }
}

impl Annotations {
    /// The cumulative size recorded for entry `index`, if any.
    pub fn du_size(&self, index: usize) -> (r: Option<u64>)
        ensures r == du_at(*self, index as int),
    {
        match &self.du_sizes {
            Some(d) => if index < d.len() { Some(d[index]) } else { None },
            None => None,
        }
    }

    /// The git status character recorded for entry `index`, if any.
    pub fn git_mark(&self, index: usize) -> (r: Option<char>)
        ensures r == mark_at(*self, index as int),
    {
        if index < self.git_marks.len() { self.git_marks[index] } else { None }
    }

    /// The size shown for entry `e` at position `index`.
    pub fn size_of(&self, e: &TreeEntry, index: usize) -> (r: Option<u64>)
        ensures r == shown_size(*e, index as int, *self),
    {
        if !self.show_size {
            None
        } else if e.is_dir() {
            self.du_size(index)
        } else {
            match e.metadata() {
                Some(m) => Some(m.len),
                None => None,
            }
        }
    }

    /// The permission string shown for entry `e`.
    pub fn permissions_of(&self, e: &TreeEntry) -> (r: Option<String>)
        ensures
            match r {
                Some(s) => shown_permissions(*e, *self) == Some(s@),
                None => shown_permissions(*e, *self) is None,
            },
    {
        if self.show_permissions {
            match e.metadata() {
                Some(m) => Some(permission_string(&m)),
                None => None,
            }
        } else {
            None
        }
    }
}

/// The text-mode size column of an entry: ` (<size>)`, or nothing.
pub open spec fn size_column_text(e: TreeEntry, index: int, a: Annotations) -> Seq<char> {
    match shown_size(e, index, a) {
        Some(s) => seq![' ', '('] + size_text(s as nat) + seq![')'],
        None => Seq::empty(),
    }
}

/// The text-mode size column of an entry, e.g. ` (1.5 KiB)`; empty when
/// no size is shown for it.
pub fn size_column(e: &TreeEntry, index: usize, a: &Annotations) -> (r: String)
    ensures r@ == size_column_text(*e, index as int, *a),
{
    let mut out = String::new();
    match a.size_of(e, index) {
        Some(s) => {
            push_char(&mut out, ' ');
            push_char(&mut out, '(');
            let t = format_size(s);
            push_str(&mut out, t.as_str());
            push_char(&mut out, ')');
        }
        None => {}
    }
    assert(out@ =~= size_column_text(*e, index as int, *a));
    out
}

/// The text-mode permission column: the permission string (or ten dashes
/// when the metadata is unknown) and a space, or nothing when the column
/// is off.
pub open spec fn permissions_column_text(meta: Option<EntryMeta>, show: bool) -> Seq<char> {
    if show {
        match meta {
            Some(m) => permission_text(m) + seq![' '],
            None => seq!['-', '-', '-', '-', '-', '-', '-', '-', '-', '-', ' '],
        }
    } else {
        Seq::empty()
    }
}

/// The text-mode permission column for an entry (or the root) with the
/// given metadata, e.g. `drwxr-xr-x `.
pub fn permissions_column(meta: Option<EntryMeta>, show: bool) -> (r: String)
    ensures r@ == permissions_column_text(meta, show),
{
    let mut out = String::new();
    if show {
        match meta {
            Some(m) => {
                let p = permission_string(&m);
                push_str(&mut out, p.as_str());
            }
            None => {
                let mut k: usize = 0;
                while k < 10
                    invariant
                        k <= 10,
                        out@ == Seq::new(k as nat, |_i: int| '-'),
                    decreases 10 - k,
                {
                    push_char(&mut out, '-');
                    k = k + 1;
                    assert(out@ =~= Seq::new(k as nat, |_i: int| '-'));
                }
            }
        }
        push_char(&mut out, ' ');
    }
    assert(out@ =~= permissions_column_text(meta, show));
    out
}

/// The summary under the tree, e.g. `3 directories, 5 files`, or under
/// `--du` `1.5 KiB used in 3 directories, 5 files`.
pub open spec fn footer_text(dirs: nat, files: nat, du_total: Option<u64>) -> Seq<char> {
    let counts = decimal(dirs) + seq![' ', 'd', 'i', 'r', 'e', 'c', 't', 'o', 'r', 'i', 'e', 's', ',', ' ']
        + decimal(files) + seq![' ', 'f', 'i', 'l', 'e', 's'];
    match du_total {
        Some(t) => size_text(t as nat) + seq![' ', 'u', 's', 'e', 'd', ' ', 'i', 'n', ' '] + counts,
        None => counts,
    }
}

/// Formats the summary under the tree.
pub fn footer(dirs: usize, files: usize, du_total: Option<u64>) -> (r: String)
    ensures r@ == footer_text(dirs as nat, files as nat, du_total),
{
    let mut out = String::new();
    match du_total {
        Some(t) => {
            let s = format_size(t);
            push_str(&mut out, s.as_str());
            push_str(&mut out, " used in ");
        }
        None => {}
    }
    let ghost head = out@;
    push_decimal(&mut out, dirs as u128);
    push_str(&mut out, " directories, ");
    push_decimal(&mut out, files as u128);
    push_str(&mut out, " files");
    proof {
        reveal_strlit(" used in ");
        reveal_strlit(" directories, ");
        reveal_strlit(" files");
    }
    assert(out@ =~= footer_text(dirs as nat, files as nat, du_total));
    out
}

/// The directories among `es`, in order.
pub open spec fn dirs_of(es: Seq<TreeEntry>) -> Seq<TreeEntry>
    decreases es.len(),
{
    if es.len() == 0 {
        Seq::empty()
    } else {
        let pre = dirs_of(es.drop_last());
        if es.last().is_dir_view() { pre.push(es.last()) } else { pre }
    }
}

/// `--dirs-only` keeps exactly the directories, at every depth: the kept
/// list is the input filtered by being a directory, so every directory of
/// the input is kept (as many times, in the same order) and no file is.
pub proof fn lemma_dirs_kept(es: Seq<TreeEntry>)
    ensures
        dirs_of(es) == es.filter(|e: TreeEntry| e.is_dir_view()),
        forall|x: TreeEntry| #[trigger] dirs_of(es).to_multiset().count(x)
            == (if x.is_dir_view() { es.to_multiset().count(x) } else { 0 }),
    decreases es.len(),
{
    broadcast use vstd::seq_lib::group_to_multiset_ensures;
    broadcast use vstd::multiset::group_multiset_axioms;
    let f = |e: TreeEntry| e.is_dir_view();
    if es.len() == 0 {
        reveal(Seq::filter);
        assert(dirs_of(es) =~= es.filter(f));
        assert(es.to_multiset() =~= vstd::multiset::Multiset::empty());
        assert(dirs_of(es).to_multiset() =~= vstd::multiset::Multiset::empty());
    } else {
        lemma_dirs_kept(es.drop_last());
        reveal(Seq::filter);
        assert(es.filter(f) == (if f(es.last()) { es.drop_last().filter(f).push(es.last()) } else { es.drop_last().filter(f) }));
        assert(es =~= es.drop_last().push(es.last()));
        assert forall|x: TreeEntry| #[trigger] dirs_of(es).to_multiset().count(x)
            == (if x.is_dir_view() { es.to_multiset().count(x) } else { 0 }) by {
            assert(es.to_multiset() == es.drop_last().to_multiset().insert(es.last()));
        }
    }
}

/// Keeps only the directories (`--dirs-only`), in their order. Done
/// before the tree is drawn, so that dropped files never count as
/// siblings.
pub fn retain_dirs(entries: &mut Vec<TreeEntry>)
    ensures
        final(entries)@ == dirs_of(old(entries)@),
{
    let ghost all = entries@;
    let mut input: Vec<TreeEntry> = Vec::new();
    std::mem::swap(&mut input, entries);
    for e in it: input.into_iter()
        invariant
            all == it.seq(),
            entries@ == dirs_of(all.take(it.index() as int)),
    {
        let ghost j = it.index() as int;
        proof {
            assert(all.take(j + 1).drop_last() =~= all.take(j));
            assert(all.take(j + 1).last() == e);
        }
        if e.is_dir() {
            entries.push(e);
        }
    }
    proof {
        assert(all.take(all.len() as int) =~= all);
    }
}

/// A line of the text tree: the leading columns, the prefix and connector,
/// a space, the name, then the trailing column.
pub open spec fn tree_line_text(lead: Seq<char>, prefix: Seq<char>, connector: Seq<char>, name: Seq<char>, tail: Seq<char>) -> Seq<char> {
    lead + prefix + connector + seq![' '] + name + tail
}

/// Assembles a line of the text tree from its (possibly styled) parts.
pub fn tree_line(lead: &str, prefix: &str, connector: &str, name: &str, tail: &str) -> (r: String)
    ensures
        r@ == tree_line_text(lead@, prefix@, connector@, name@, tail@),
{
    let mut out = String::new();
    push_str(&mut out, lead);
    push_str(&mut out, prefix);
    push_str(&mut out, connector);
    push_char(&mut out, ' ');
    push_str(&mut out, name);
    push_str(&mut out, tail);
    assert(out@ =~= tree_line_text(lead@, prefix@, connector@, name@, tail@));
    out
}

/// The number of directories among the first `n` entries.
pub open spec fn dirs_in(es: Seq<TreeEntry>, n: int) -> nat
    decreases n,
{
    if n <= 0 {
        0
    } else {
        dirs_in(es, n - 1) + (if es[n - 1].is_dir_view() { 1nat } else { 0nat })
    }
}

/// Counts the directories and the other entries of a list: the totals
/// the summary reports.
pub fn count_entries(entries: &[TreeEntry]) -> (r: (usize, usize))
    ensures
        r.0 == dirs_in(entries@, entries@.len() as int),
        r.0 + r.1 == entries@.len(),
{
    let mut dirs: usize = 0;
    let mut files: usize = 0;
    let mut i: usize = 0;
    while i < entries.len()
        invariant
            0 <= i <= entries@.len(),
            dirs == dirs_in(entries@, i as int),
            dirs + files == i,
        decreases entries.len() - i,
    {
        if entries[i].is_dir() {
            dirs = dirs + 1;
        } else {
            files = files + 1;
        }
        i = i + 1;
    }
    (dirs, files)
}

} // verus!
