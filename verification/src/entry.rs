//! A tree entry that may come from a live filesystem walk or from a
//! user-supplied listing (`--fromfile`).
//!
//! Sorting and rendering only look at an entry's path, depth, name,
//! directory flag and metadata, which is what lets both kinds of entry
//! share one pipeline.

use vstd::prelude::*;
use crate::path::{file_name, file_name_of, split_slash, lemma_split_slash_nonempty, path_components, keep_named, is_named,
    lemma_split_slash_no_slash, lemma_split_slash_single, lemma_split_slash_join, lemma_keep_named_concat, lemma_keep_named_all};
use crate::tree::{complete_walk, has_parent_in, entry_key, parent_key, files_under, parents_are_dirs};
use crate::text::{chars_of, push_char, push_str};

verus! {

/// The kind of filesystem object an entry or its metadata describes.
#[derive(Clone, Copy, PartialEq, Eq, Debug, Structural)]
pub enum FileKind {
    Dir,
    Symlink,
    Other,
}

/// What a `stat` (never following symlinks) reported for an entry.
#[derive(Clone, Copy, PartialEq, Eq, Debug, Structural)]
pub struct EntryMeta {
    /// Size in bytes.
    pub len: u64,
    /// Modification time in nanoseconds relative to the Unix epoch, when
    /// the platform reports one.
    pub modified: Option<i128>,
    /// The Unix permission bits, including setuid/setgid/sticky.
    pub mode: u32,
    /// The file type.
    pub kind: FileKind,
}

/// An entry produced by walking the real filesystem.
pub struct WalkedEntry {
    /// The path of the entry, as the walk produced it.
    pub path: String,
    /// Depth below the walk root (the root itself is at depth 0).
    pub depth: usize,
    /// The entry's file name (the whole path when it has none).
    pub file_name: String,
    /// The file type the walk reported, if any.
    pub file_type: Option<FileKind>,
    /// The entry's metadata, when it could be read.
    pub metadata: Option<EntryMeta>,
}

/// A synthetic entry parsed from `--fromfile` input. `is_dir` is inferred
/// from the input (a trailing `/`, or being an ancestor of another entry)
/// and is trusted as-is; it is never confirmed against the real
/// filesystem.
pub struct ListedEntry {
    pub path: String,
    pub depth: usize,
    pub is_dir: bool,
    /// What a `stat` of `path` reported, once looked up (the parser leaves
    /// it unknown).
    pub metadata: Option<EntryMeta>,
}

/// A single node in the displayed tree.
pub enum TreeEntry {
    /// Produced by walking the real filesystem.
    Walked(WalkedEntry),
    /// Synthesized from a `--fromfile` path list.
    Listed(ListedEntry),
}

impl TreeEntry {
    /// The entry's path.
    pub open spec fn path_view(self) -> Seq<char> {
        match self {
            TreeEntry::Walked(e) => e.path@,
            TreeEntry::Listed(e) => e.path@,
        }
    }

    /// The entry's depth.
    pub open spec fn depth_view(self) -> nat {
        match self {
            TreeEntry::Walked(e) => e.depth as nat,
            TreeEntry::Listed(e) => e.depth as nat,
        }
    }

    /// The entry's file name: the walk's name, or for a listed entry the
    /// final normal component of its path (the whole path when there is
    /// none).
    pub open spec fn name_view(self) -> Seq<char> {
        match self {
            TreeEntry::Walked(e) => e.file_name@,
            TreeEntry::Listed(e) => match file_name_of(e.path@) {
                Some(f) => f,
                None => e.path@,
            },
        }
    }

    /// Whether the entry is a directory.
    pub open spec fn is_dir_view(self) -> bool {
        match self {
            TreeEntry::Walked(e) => e.file_type == Some(FileKind::Dir),
            TreeEntry::Listed(e) => e.is_dir,
        }
    }

    /// The entry's metadata, when known.
    pub open spec fn metadata_view(self) -> Option<EntryMeta> {
        match self {
            TreeEntry::Walked(e) => e.metadata,
            TreeEntry::Listed(e) => e.metadata,
        }
    }

    /// The size used for sorting: 0 for directories, otherwise the
    /// metadata's length (0 when unknown).
    pub open spec fn size_view(self) -> u64 {
        if self.is_dir_view() {
            0
        } else {
            match self.metadata_view() {
                Some(m) => m.len,
                None => 0,
            }
        }
    }

    /// The modification time used for sorting, when known.
    pub open spec fn modified_view(self) -> Option<i128> {
        match self.metadata_view() {
            Some(m) => m.modified,
            None => None,
        }
    }

    /// The entry's path.
    pub fn path(&self) -> (p: &String)
        ensures p@ == self.path_view(),
    {
        match self {
            TreeEntry::Walked(e) => &e.path,
            TreeEntry::Listed(e) => &e.path,
        }
    }

    /// The entry's depth below the root.
    pub fn depth(&self) -> (d: usize)
        ensures d == self.depth_view(),
    {
        match self {
            TreeEntry::Walked(e) => e.depth,
            TreeEntry::Listed(e) => e.depth,
        }
    }

    /// The entry's file name.
    pub fn file_name(&self) -> (n: String)
        ensures n@ == self.name_view(),
    {
        match self {
            TreeEntry::Walked(e) => e.file_name.clone(),
            TreeEntry::Listed(e) => match file_name(e.path.as_str()) {
                Some(f) => f,
                None => e.path.clone(),
            },
        }
    }

    /// Whether this entry is a directory. For listed entries this is the
    /// flag inferred by `parse_fromfile`; it is trusted as-is.
    pub fn is_dir(&self) -> (b: bool)
        ensures b == self.is_dir_view(),
    {
        match self {
            TreeEntry::Walked(e) => match e.file_type {
                Some(FileKind::Dir) => true,
                _ => false,
            },
            TreeEntry::Listed(e) => e.is_dir,
        }
    }

    /// The entry's metadata, when it is known.
    pub fn metadata(&self) -> (m: Option<EntryMeta>)
        ensures m == self.metadata_view(),
    {
        match self {
            TreeEntry::Walked(e) => e.metadata,
            TreeEntry::Listed(e) => e.metadata,
        }
    }

    /// The size used for sorting: 0 for directories, otherwise the length
    /// from the metadata (0 when unknown).
    pub fn size(&self) -> (s: u64)
        ensures s == self.size_view(),
    {
        if self.is_dir() {
            0
        } else {
            match self.metadata() {
                Some(m) => m.len,
                None => 0,
            }
        }
    }

    /// Whether the walk reported the entry as a symlink (a listed entry
    /// never is one).
    pub open spec fn is_symlink_view(self) -> bool {
        match self {
            TreeEntry::Walked(e) => e.file_type == Some(FileKind::Symlink),
            TreeEntry::Listed(_) => false,
        }
    }

    /// Whether the walk reported the entry as a symlink.
    pub fn is_symlink(&self) -> (b: bool)
        ensures b == self.is_symlink_view(),
    {
        match self {
            TreeEntry::Walked(e) => match e.file_type {
                Some(FileKind::Symlink) => true,
                _ => false,
            },
            TreeEntry::Listed(_) => false,
        }
    }

    /// The modification time, when known.
    pub fn modified(&self) -> (t: Option<i128>)
        ensures t == self.modified_view(),
    {
        match self.metadata() {
            Some(m) => m.modified,
            None => None,
        }
    }
}


/// A line without one trailing carriage return.
pub open spec fn strip_cr(l: Seq<char>) -> Seq<char> {
    if l.len() > 0 && l.last() == '\r' { l.drop_last() } else { l }
}

/// A line without one leading `./`.
pub open spec fn strip_dot_slash(l: Seq<char>) -> Seq<char> {
    if l.len() >= 2 && l[0] == '.' && l[1] == '/' { l.skip(2) } else { l }
}

/// The non-empty pieces, in order.
pub open spec fn nonempty_pieces(segs: Seq<Seq<char>>) -> Seq<Seq<char>>
    decreases segs.len(),
{
    if segs.len() == 0 {
        Seq::empty()
    } else {
        let pre = nonempty_pieces(segs.drop_last());
        if segs.last().len() > 0 { pre.push(segs.last()) } else { pre }
    }
}

/// The path components a listing line names: its `/`-separated non-empty
/// pieces, after dropping a trailing carriage return and a leading `./`.
pub open spec fn line_components(l: Seq<char>) -> Seq<Seq<char>> {
    nonempty_pieces(split_slash(strip_dot_slash(strip_cr(l))))
}

/// Whether some component is hidden (starts with `.`).
pub open spec fn has_hidden(comps: Seq<Seq<char>>) -> bool {
    exists|i: int| 0 <= i < comps.len() && comps[i].len() > 0 && #[trigger] comps[i][0] == '.'
}

/// How many leading components of a line are kept under a depth limit.
pub open spec fn kept_len(n: nat, max_depth: Option<usize>) -> nat {
    match max_depth {
        Some(d) => if d < n { d as nat } else { n },
        None => n,
    }
}

/// The paths one listing line contributes, each with whether it is known
/// to be a directory: every leading run of its components up to the
/// depth limit. All but the last are directories; the last is one when it
/// was cut short by the limit or the line ends in `/`. Blank lines, lines
/// with no components, lines cut to nothing and (unless `all`) lines with a
/// hidden component contribute nothing.
pub open spec fn line_paths(l: Seq<char>, all: bool, max_depth: Option<usize>) -> Seq<(Seq<Seq<char>>, bool)> {
    let l1 = strip_cr(l);
    let comps = line_components(l);
    let limit = kept_len(comps.len(), max_depth);
    let last_is_dir = limit < comps.len() || (l1.len() > 0 && l1.last() == '/');
    if l1.len() == 0 || comps.len() == 0 || (!all && has_hidden(comps)) || limit == 0 {
        Seq::empty()
    } else {
        Seq::new(limit, |m: int| (comps.take(m + 1), m + 1 < limit || last_is_dir))
    }
}

/// The paths contributed by a whole listing, line after line.
pub open spec fn listed_paths(lines: Seq<Seq<char>>, all: bool, max_depth: Option<usize>) -> Seq<(Seq<Seq<char>>, bool)>
    decreases lines.len(),
{
    if lines.len() == 0 {
        Seq::empty()
    } else {
        listed_paths(lines.drop_last(), all, max_depth) + line_paths(lines.last(), all, max_depth)
    }
}

/// The components of the relative path built by pushing the pieces `p`
/// one after another: `.` pieces vanish except as the first component.
pub open spec fn relative_key(p: Seq<Seq<char>>) -> Seq<Seq<char>>
    decreases p.len(),
{
    if p.len() == 0 {
        Seq::empty()
    } else {
        let pre = relative_key(p.drop_last());
        if p.len() > 1 && p.last() == seq!['.'] { pre } else { pre.push(p.last()) }
    }
}

/// The pieces joined with `/`.
pub open spec fn join_slash(p: Seq<Seq<char>>) -> Seq<char>
    decreases p.len(),
{
    if p.len() == 0 {
        Seq::empty()
    } else if p.len() == 1 {
        p[0]
    } else {
        join_slash(p.drop_last()) + seq!['/'] + p.last()
    }
}

/// `root` joined with the relative path `rel` (`Path::join`): a separator
/// is added unless `root` is empty or already ends in one.
pub open spec fn join_path(root: Seq<char>, rel: Seq<char>) -> Seq<char> {
    if root.len() == 0 || root.last() == '/' { root + rel } else { root + seq!['/'] + rel }
}


/// The non-empty `/`-separated pieces of `cs[lo..hi]`.
fn pieces(cs: &Vec<char>, lo: usize, hi: usize) -> (v: Vec<String>)
    requires
        lo <= hi <= cs@.len(),
    ensures
        v.deep_view() == nonempty_pieces(split_slash(cs@.subrange(lo as int, hi as int))),
{
    let mut out: Vec<String> = Vec::new();
    let mut cur = String::new();
    let mut cur_len: usize = 0;
    let mut i = lo;
    proof {
        assert(cs@.subrange(lo as int, lo as int) =~= Seq::<char>::empty());
    }
    while i < hi
        invariant
            lo <= i <= hi <= cs@.len(),
            split_slash(cs@.subrange(lo as int, i as int)).len() >= 1,
            cur@ == split_slash(cs@.subrange(lo as int, i as int)).last(),
            cur_len == cur@.len(),
            cur_len <= i - lo,
            out.deep_view() == nonempty_pieces(split_slash(cs@.subrange(lo as int, i as int)).drop_last()),
        decreases hi - i,
    {
        let c = cs[i];
        let ghost pre = cs@.subrange(lo as int, i as int);
        let ghost next = cs@.subrange(lo as int, i + 1);
        proof {
            assert(next.drop_last() =~= pre);
            assert(next.last() == c);
            lemma_split_slash_nonempty(pre);
            assert(split_slash(pre) =~= split_slash(pre).drop_last().push(split_slash(pre).last()));
        }
        if c == '/' {
            let ghost old_out = out.deep_view();
            let seg = cur;
            cur = String::new();
            if cur_len > 0 {
                out.push(seg);
                proof {
                    assert(out.deep_view() =~= old_out.push(split_slash(pre).last()));
                }
            }
            cur_len = 0;
            proof {
                assert(split_slash(next).drop_last() =~= split_slash(pre));
            }
        } else {
            push_char(&mut cur, c);
            cur_len = cur_len + 1;
            proof {
                assert(split_slash(next).drop_last() =~= split_slash(pre).drop_last());
            }
        }
        i = i + 1;
    }
    let ghost whole = cs@.subrange(lo as int, hi as int);
    proof {
        lemma_split_slash_nonempty(whole);
        assert(split_slash(whole) =~= split_slash(whole).drop_last().push(split_slash(whole).last()));
    }
    let ghost old_out = out.deep_view();
    if cur_len > 0 {
        out.push(cur);
        proof {
            assert(out.deep_view() =~= old_out.push(split_slash(whole).last()));
        }
    }
    out
}

/// The components, kept length and last-is-directory flag of one listing
/// line; a kept length of 0 means the line contributes nothing.
fn line_parts(line: &String, all: bool, max_depth: Option<usize>) -> (r: (Vec<String>, usize, bool))
    ensures
        r.1 <= r.0.deep_view().len(),
        line_paths(line@, all, max_depth) == Seq::new(
            r.1 as nat,
            |m: int| (r.0.deep_view().take(m + 1), m + 1 < r.1 || r.2),
        ),
{
    let cs = chars_of(line.as_str());
    let n = cs.len();
    let end = if n > 0 && cs[n - 1] == '\r' { n - 1 } else { n };
    let ghost l1 = strip_cr(line@);
    proof {
        assert(l1 =~= cs@.subrange(0, end as int));
    }
    if end == 0 {
        proof {
            assert(line_paths(line@, all, max_depth) =~= Seq::<(Seq<Seq<char>>, bool)>::empty());
        }
        return (Vec::new(), 0, false);
    }
    let last_slash = cs[end - 1] == '/';
    let start: usize = if end >= 2 && cs[0] == '.' && cs[1] == '/' { 2 } else { 0 };
    proof {
        assert(strip_dot_slash(l1) =~= cs@.subrange(start as int, end as int));
    }
    let comps = pieces(&cs, start, end);
    let count = comps.len();
    proof {
        assert(line_components(line@) == comps.deep_view());
    }
    if count == 0 {
        proof {
            assert(line_paths(line@, all, max_depth) =~= Seq::<(Seq<Seq<char>>, bool)>::empty());
        }
        return (comps, 0, false);
    }
    if !all {
        let mut k: usize = 0;
        while k < count
            invariant
                count == comps.deep_view().len(),
                line_components(line@) == comps.deep_view(),
                !all,
                0 <= k <= count,
                forall|j: int| 0 <= j < k ==> !(comps.deep_view()[j].len() > 0 && comps.deep_view()[j][0] == '.'),
            decreases count - k,
        {
            let piece = comps[k].as_str();
            if piece.unicode_len() > 0 && piece.get_char(0) == '.' {
                proof {
                    assert(comps.deep_view()[k as int] == comps@[k as int]@);
                    assert(has_hidden(comps.deep_view()));
                    assert(line_paths(line@, all, max_depth) =~= Seq::<(Seq<Seq<char>>, bool)>::empty());
                }
                return (comps, 0, false);
            }
            proof {
                assert(comps.deep_view()[k as int] == comps@[k as int]@);
            }
            k = k + 1;
        }
    }
    let limit = match max_depth {
        Some(d) => if d < count { d } else { count },
        None => count,
    };
    if limit == 0 {
        proof {
            assert(line_paths(line@, all, max_depth) =~= Seq::<(Seq<Seq<char>>, bool)>::empty());
        }
        return (comps, 0, false);
    }
    let last_dir = limit < count || last_slash;
    proof {
        assert(line_paths(line@, all, max_depth) =~= Seq::new(
            limit as nat,
            |m: int| (comps.deep_view().take(m + 1), m + 1 < limit || last_dir),
        ));
    }
    (comps, limit, last_dir)
}


/// `e` is the listed entry for the path `acc[w].0`: rooted at `root`,
/// with the depth of its relative path, a directory when any occurrence
/// of that relative path in `acc` is one, and no metadata yet.
pub open spec fn listed_entry_for(e: TreeEntry, acc: Seq<(Seq<Seq<char>>, bool)>, w: int, root: Seq<char>) -> bool {
    let p = acc[w].0;
    let k = relative_key(p);
    &&& e is Listed
    &&& e->Listed_0.path@ == join_path(root, join_slash(p))
    &&& e->Listed_0.depth == k.len()
    &&& e->Listed_0.metadata is None
    &&& e->Listed_0.is_dir == exists|t: int| 0 <= t < acc.len() && #[trigger] relative_key(acc[t].0) == k && acc[t].1
}

/// `res` holds one entry per distinct relative path in `acc`, in order of
/// first occurrence, each built from that first occurrence.
pub open spec fn listing_entries(res: Seq<TreeEntry>, acc: Seq<(Seq<Seq<char>>, bool)>, root: Seq<char>) -> bool {
    exists|w: Seq<int>| listing_entries_at(res, acc, root, w)
}

/// `listing_entries`, with `w` giving the position in `acc` of the first
/// occurrence of each entry's relative path.
pub open spec fn listing_entries_at(res: Seq<TreeEntry>, acc: Seq<(Seq<Seq<char>>, bool)>, root: Seq<char>, w: Seq<int>) -> bool {
        &&& w.len() == res.len()
        &&& forall|i: int| 0 <= i < res.len() ==> 0 <= #[trigger] w[i] < acc.len() && listed_entry_for(res[i], acc, w[i], root)
        &&& forall|i: int, j: int| 0 <= i < j < res.len() ==> #[trigger] w[i] < #[trigger] w[j]
        &&& forall|i: int, t: int| 0 <= i < res.len() && 0 <= t < w[i] ==>
            #[trigger] relative_key(acc[t].0) != relative_key(acc[#[trigger] w[i]].0)
        &&& forall|t: int| 0 <= t < acc.len() ==> #[trigger] first_seen_at(acc, w, t)
}

/// The relative path of `acc[t]` is that of some `acc[w[i]]`.
pub open spec fn first_seen_at(acc: Seq<(Seq<Seq<char>>, bool)>, w: Seq<int>, t: int) -> bool {
    exists|i: int| 0 <= i < w.len() && #[trigger] relative_key(acc[w[i]].0) == relative_key(acc[t].0)
}

/// Duplicate paths collapse into one entry: the entries of a listing
/// have pairwise different relative paths (compared by components, as
/// paths are).
pub proof fn lemma_listing_distinct(res: Seq<TreeEntry>, acc: Seq<(Seq<Seq<char>>, bool)>, root: Seq<char>, w: Seq<int>)
    requires
        listing_entries_at(res, acc, root, w),
    ensures
        forall|i: int, j: int| 0 <= i < j < res.len() ==>
            #[trigger] relative_key(acc[w[i]].0) != #[trigger] relative_key(acc[w[j]].0),
{
    assert forall|i: int, j: int| 0 <= i < j < res.len() implies
        #[trigger] relative_key(acc[w[i]].0) != #[trigger] relative_key(acc[w[j]].0) by {
        assert(w[i] < w[j]);
        assert(0 <= w[i]);
        assert(relative_key(acc[w[i]].0) != relative_key(acc[w[j]].0));
    }
}

/// Every path a listing contributes comes with all its leading runs of
/// components, each marked as a directory.
proof fn lemma_listed_prefixes(lines: Seq<Seq<char>>, all: bool, md: Option<usize>, t: int, m: int)
    requires
        0 <= t < listed_paths(lines, all, md).len(),
        1 <= m < listed_paths(lines, all, md)[t].0.len(),
    ensures
        exists|t2: int| 0 <= t2 < listed_paths(lines, all, md).len()
            && #[trigger] listed_paths(lines, all, md)[t2] == (listed_paths(lines, all, md)[t].0.take(m), true),
    decreases lines.len(),
{
    let acc = listed_paths(lines, all, md);
    let pre = listed_paths(lines.drop_last(), all, md);
    let cur = line_paths(lines.last(), all, md);
    assert(acc == pre + cur);
    if t < pre.len() {
        assert(acc[t] == pre[t]);
        lemma_listed_prefixes(lines.drop_last(), all, md, t, m);
        let t2 = choose|t2: int| 0 <= t2 < pre.len() && #[trigger] pre[t2] == (pre[t].0.take(m), true);
        assert(acc[t2] == pre[t2]);
    } else {
        let l = lines.last();
        let l1 = strip_cr(l);
        let comps = line_components(l);
        let limit = kept_len(comps.len(), md);
        let q = t - pre.len();
        assert(cur[q] == (comps.take(q + 1), q + 1 < limit || (limit < comps.len() || (l1.len() > 0 && l1.last() == '/'))));
        let t2 = pre.len() + m - 1;
        assert(cur[m - 1] == (comps.take(m), m < limit || (limit < comps.len() || (l1.len() > 0 && l1.last() == '/'))));
        assert(comps.take(q + 1).take(m) =~= comps.take(m));
        assert(acc[t2] == cur[m - 1]);
        assert(acc[t2] == (acc[t].0.take(m), true));
    }
}

/// A proper, non-empty prefix of a relative path is the relative path of
/// a proper, non-empty leading run of the pieces.
proof fn lemma_relative_key_prefix(p: Seq<Seq<char>>, k: int)
    requires
        0 < k < relative_key(p).len(),
    ensures
        exists|m: int| 1 <= m < p.len() && #[trigger] relative_key(p.take(m)) == relative_key(p).take(k),
    decreases p.len(),
{
    let pre = relative_key(p.drop_last());
    assert(p.drop_last() =~= p.take(p.len() - 1));
    if k < pre.len() {
        lemma_relative_key_prefix(p.drop_last(), k);
        let m = choose|m: int| 1 <= m < p.drop_last().len() && #[trigger] relative_key(p.drop_last().take(m)) == pre.take(k);
        assert(p.drop_last().take(m) =~= p.take(m));
        assert(relative_key(p).take(k) =~= pre.take(k));
        assert(relative_key(p.take(m)) == relative_key(p).take(k));
    } else {
        assert(k == pre.len());
        assert(relative_key(p).take(k) =~= pre);
        assert(p.len() >= 2) by {
            if p.len() == 1 {
                assert(relative_key(p.drop_last()) =~= Seq::<Seq<char>>::empty());
            }
        }
        assert(relative_key(p.take(p.len() - 1)) == relative_key(p).take(k));
    }
}

/// Ancestor directories are inferred: every proper ancestor of a listed
/// path (a non-empty proper prefix of its components) is listed too, as a
/// directory.
pub proof fn lemma_listing_ancestors(
    lines: Seq<Seq<char>>,
    all: bool,
    max_depth: Option<usize>,
    res: Seq<TreeEntry>,
    root: Seq<char>,
    w: Seq<int>,
    i: int,
    k: int,
)
    requires
        listing_entries_at(res, listed_paths(lines, all, max_depth), root, w),
        0 <= i < res.len(),
        0 < k < relative_key(listed_paths(lines, all, max_depth)[w[i]].0).len(),
    ensures
        exists|j: int| 0 <= j < res.len()
            && #[trigger] relative_key(listed_paths(lines, all, max_depth)[w[j]].0)
                == relative_key(listed_paths(lines, all, max_depth)[w[i]].0).take(k)
            && res[j].is_dir_view(),
{
    let acc = listed_paths(lines, all, max_depth);
    let p = acc[w[i]].0;
    assert(0 <= w[i] < acc.len());
    lemma_relative_key_prefix(p, k);
    let m = choose|m: int| 1 <= m < p.len() && #[trigger] relative_key(p.take(m)) == relative_key(p).take(k);
    lemma_listed_prefixes(lines, all, max_depth, w[i], m);
    let t2 = choose|t2: int| 0 <= t2 < acc.len() && #[trigger] acc[t2] == (p.take(m), true);
    assert(first_seen_at(acc, w, t2));
    let j = choose|j: int| 0 <= j < w.len() && #[trigger] relative_key(acc[w[j]].0) == relative_key(acc[t2].0);
    assert(listed_entry_for(res[j], acc, w[j], root));
    assert(relative_key(acc[t2].0) == relative_key(acc[w[j]].0) && acc[t2].1);
    assert(res[j].is_dir_view());
}

/// No path a listing contributes has a `.` piece.
pub open spec fn no_dot_pieces(acc: Seq<(Seq<Seq<char>>, bool)>) -> bool {
    forall|t: int, k: int| 0 <= t < acc.len() && 0 <= k < acc[t].0.len() ==> #[trigger] acc[t].0[k] != seq!['.']
}

/// A piece that is non-empty and holds no separator.
pub open spec fn plain_piece(c: Seq<char>) -> bool {
    c.len() > 0 && forall|k: int| 0 <= k < c.len() ==> #[trigger] c[k] != '/'
}

proof fn lemma_nonempty_pieces_plain(segs: Seq<Seq<char>>)
    requires
        forall|i: int, k: int| 0 <= i < segs.len() && 0 <= k < segs[i].len() ==> #[trigger] segs[i][k] != '/',
    ensures
        forall|i: int| 0 <= i < nonempty_pieces(segs).len() ==> plain_piece(#[trigger] nonempty_pieces(segs)[i]),
    decreases segs.len(),
{
    if segs.len() > 0 {
        let pre = segs.drop_last();
        assert forall|i: int, k: int| 0 <= i < pre.len() && 0 <= k < pre[i].len() implies #[trigger] pre[i][k] != '/' by {
            assert(pre[i] == segs[i]);
        }
        lemma_nonempty_pieces_plain(pre);
        let last = segs.last();
        assert forall|k: int| 0 <= k < last.len() implies #[trigger] last[k] != '/' by {
            assert(segs[segs.len() - 1][k] != '/');
        }
        let np = nonempty_pieces(pre);
        let cur = nonempty_pieces(segs);
        assert forall|i: int| 0 <= i < cur.len() implies plain_piece(#[trigger] cur[i]) by {
            if i < np.len() {
                assert(cur[i] == np[i]);
            } else {
                assert(cur[i] == last);
            }
        }
    }
}

/// The paths of a listing are non-empty runs of plain pieces.
proof fn lemma_listed_plain(lines: Seq<Seq<char>>, all: bool, md: Option<usize>)
    ensures
        forall|t: int| 0 <= t < listed_paths(lines, all, md).len() ==> (#[trigger] listed_paths(lines, all, md)[t]).0.len() >= 1
            && forall|k: int| 0 <= k < listed_paths(lines, all, md)[t].0.len() ==> plain_piece(#[trigger] listed_paths(lines, all, md)[t].0[k]),
    decreases lines.len(),
{
    if lines.len() > 0 {
        lemma_listed_plain(lines.drop_last(), all, md);
        let pre = listed_paths(lines.drop_last(), all, md);
        let l = lines.last();
        let comps = line_components(l);
        let segs = split_slash(strip_dot_slash(strip_cr(l)));
        lemma_split_slash_no_slash(strip_dot_slash(strip_cr(l)));
        lemma_nonempty_pieces_plain(segs);
        let cur = line_paths(l, all, md);
        let acc = listed_paths(lines, all, md);
        assert(acc == pre + cur);
        assert forall|t: int| 0 <= t < acc.len() implies (#[trigger] acc[t]).0.len() >= 1
            && forall|k: int| 0 <= k < acc[t].0.len() ==> plain_piece(#[trigger] acc[t].0[k]) by {
            if t < pre.len() {
                assert(acc[t] == pre[t]);
            } else {
                let q = t - pre.len();
                let limit = kept_len(comps.len(), md);
                assert(acc[t] == cur[q]);
                assert(cur[q].0 == comps.take(q + 1));
                assert forall|k: int| 0 <= k < acc[t].0.len() implies plain_piece(#[trigger] acc[t].0[k]) by {
                    assert(acc[t].0[k] == comps[k]);
                }
            }
        }
    }
}

/// Without `all`, hidden components drop their lines, so no listed path
/// has a `.` piece.
pub proof fn lemma_no_dots_without_all(lines: Seq<Seq<char>>, md: Option<usize>)
    ensures
        no_dot_pieces(listed_paths(lines, false, md)),
    decreases lines.len(),
{
    if lines.len() > 0 {
        lemma_no_dots_without_all(lines.drop_last(), md);
        let pre = listed_paths(lines.drop_last(), false, md);
        let l = lines.last();
        let comps = line_components(l);
        let cur = line_paths(l, false, md);
        let acc = listed_paths(lines, false, md);
        assert(acc == pre + cur);
        assert forall|t: int, k: int| 0 <= t < acc.len() && 0 <= k < acc[t].0.len() implies #[trigger] acc[t].0[k] != seq!['.'] by {
            if t < pre.len() {
                assert(acc[t] == pre[t]);
            } else {
                let q = t - pre.len();
                assert(acc[t] == cur[q]);
                assert(cur.len() > 0);
                assert(!has_hidden(comps));
                assert(acc[t].0[k] == comps[k]);
                if comps[k] == seq!['.'] {
                    assert(comps[k].len() > 0 && comps[k][0] == '.');
                }
            }
        }
    }
}

/// Joining plain pieces with `/` and splitting again gives them back.
proof fn lemma_split_join_slash(p: Seq<Seq<char>>)
    requires
        p.len() >= 1,
        forall|k: int| 0 <= k < p.len() ==> plain_piece(#[trigger] p[k]),
    ensures
        split_slash(join_slash(p)) == p,
    decreases p.len(),
{
    if p.len() == 1 {
        assert(plain_piece(p[0]));
        lemma_split_slash_single(p[0]);
        assert(split_slash(join_slash(p)) =~= p);
    } else {
        let q = p.drop_last();
        assert forall|k: int| 0 <= k < q.len() implies plain_piece(#[trigger] q[k]) by {
            assert(q[k] == p[k]);
        }
        lemma_split_join_slash(q);
        assert(plain_piece(p[p.len() - 1]));
        lemma_split_slash_single(p.last());
        lemma_split_slash_join(join_slash(q), p.last());
        assert(split_slash(join_slash(p)) =~= p);
    }
}

/// A path whose text starts with `/` has an empty first piece.
proof fn lemma_split_slash_leading(s: Seq<char>)
    requires
        s.len() > 0,
        s[0] == '/',
    ensures
        split_slash(s)[0].len() == 0,
{
    lemma_split_slash_join(Seq::empty(), s.skip(1));
    assert(Seq::<char>::empty() + seq!['/'] + s.skip(1) =~= s);
}

/// The components of a listed path: those of the root, then the pieces.
proof fn lemma_joined_components(root: Seq<char>, p: Seq<Seq<char>>)
    requires
        p.len() >= 1,
        forall|k: int| 0 <= k < p.len() ==> plain_piece(#[trigger] p[k]) && p[k] != seq!['.'],
    ensures
        path_components(join_path(root, join_slash(p))) == path_components(root) + p,
{
    let rel = join_slash(p);
    assert forall|k: int| 0 <= k < p.len() implies plain_piece(#[trigger] p[k]) by {}
    lemma_split_join_slash(p);
    assert forall|k: int| 0 <= k < p.len() implies is_named(#[trigger] p[k]) by {
        assert(plain_piece(p[k]) && p[k] != seq!['.']);
    }
    lemma_keep_named_all(p);
    assert(plain_piece(p[0]));
    if root.len() == 0 {
        assert(join_path(root, rel) == rel);
        if rel.len() > 0 && rel[0] == '/' {
            lemma_split_slash_leading(rel);
        }
        assert(split_slash(root) =~= seq![Seq::<char>::empty()]);
        assert(keep_named(seq![Seq::<char>::empty()]) =~= Seq::<Seq<char>>::empty()) by {
            assert(seq![Seq::<char>::empty()].drop_last() =~= Seq::<Seq<char>>::empty());
            assert(keep_named(Seq::<Seq<char>>::empty()) =~= Seq::<Seq<char>>::empty());
        }
        assert(path_components(root) =~= Seq::<Seq<char>>::empty());
        assert(path_components(join_path(root, rel)) =~= path_components(root) + p);
    } else {
        let base = if root.last() == '/' { root.drop_last() } else { root };
        let x = join_path(root, rel);
        assert(x =~= base + seq!['/'] + rel);
        lemma_split_slash_join(base, rel);
        lemma_split_slash_nonempty(base);
        assert(x[0] == root[0]);
        let tail = if root.last() == '/' { seq![Seq::<char>::empty()] } else { Seq::<Seq<char>>::empty() };
        if root.last() == '/' {
            lemma_split_slash_join(base, Seq::empty());
            assert(base + seq!['/'] + Seq::<char>::empty() =~= root);
            assert(split_slash(root) == split_slash(base) + tail);
            lemma_keep_named_concat(split_slash(base), tail);
            assert(keep_named(tail) =~= Seq::<Seq<char>>::empty()) by {
                assert(tail.drop_last() =~= Seq::<Seq<char>>::empty());
                assert(keep_named(Seq::<Seq<char>>::empty()) =~= Seq::<Seq<char>>::empty());
            }
        } else {
            assert(split_slash(root) == split_slash(base) + tail) by {
                assert(split_slash(base) + tail =~= split_slash(base));
            }
            lemma_keep_named_concat(split_slash(base), tail);
            assert(keep_named(tail) =~= Seq::<Seq<char>>::empty());
        }
        lemma_keep_named_concat(split_slash(base), p);
        assert(keep_named(split_slash(root)) =~= keep_named(split_slash(base)));
        assert(split_slash(x)[0] == split_slash(base)[0]);
        assert(split_slash(root)[0] == split_slash(base)[0]);
        assert(path_components(x) =~= path_components(root) + p);
    }
}

/// Pieces without `.` are their own relative path.
proof fn lemma_relative_key_plain(p: Seq<Seq<char>>)
    requires
        forall|k: int| 0 <= k < p.len() ==> #[trigger] p[k] != seq!['.'],
    ensures
        relative_key(p) == p,
    decreases p.len(),
{
    if p.len() > 0 {
        assert forall|k: int| 0 <= k < p.drop_last().len() implies #[trigger] p.drop_last()[k] != seq!['.'] by {
            assert(p.drop_last()[k] == p[k]);
        }
        lemma_relative_key_plain(p.drop_last());
        assert(p[p.len() - 1] != seq!['.']);
        assert(p.drop_last().push(p.last()) =~= p);
    }
}

/// A parsed path list forms a complete tree: when no listed piece is `.`
/// (always so without `all`, which drops hidden components), every entry
/// is at depth 1 or more, every entry below the top level has its parent
/// directory among the entries, and an entry filed under another is one
/// level deeper, and is a directory. So the hierarchical sort rebuilds it
/// depth-first and keeps every entry, whatever the order of the lines.
pub proof fn lemma_listing_is_complete_walk(
    lines: Seq<Seq<char>>,
    all: bool,
    max_depth: Option<usize>,
    res: Seq<TreeEntry>,
    root: Seq<char>,
)
    requires
        listing_entries(res, listed_paths(lines, all, max_depth), root),
        no_dot_pieces(listed_paths(lines, all, max_depth)),
    ensures
        complete_walk(res),
        parents_are_dirs(res),
{
    let acc = listed_paths(lines, all, max_depth);
    let w = choose|w: Seq<int>| listing_entries_at(res, acc, root, w);
    lemma_listing_distinct(res, acc, root, w);
    lemma_listed_plain(lines, all, max_depth);
    let rc = path_components(root);
    assert forall|i: int| 0 <= i < res.len() implies {
        let p = #[trigger] acc[w[i]].0;
        &&& p.len() >= 1
        &&& relative_key(p) == p
        &&& res[i].depth_view() == p.len()
        &&& entry_key(res[i]) == rc + p
        &&& parent_key(res[i]) == Some(rc + p.drop_last())
    } by {
        let p = acc[w[i]].0;
        assert(0 <= w[i] < acc.len());
        assert(listed_entry_for(res[i], acc, w[i], root));
        assert forall|k: int| 0 <= k < p.len() implies plain_piece(#[trigger] p[k]) && p[k] != seq!['.'] by {
            assert(acc[w[i]].0[k] != seq!['.']);
        }
        assert forall|k: int| 0 <= k < p.len() implies #[trigger] p[k] != seq!['.'] by {
            assert(acc[w[i]].0[k] != seq!['.']);
        }
        lemma_relative_key_plain(p);
        lemma_joined_components(root, p);
        let c = rc + p;
        assert(plain_piece(p[p.len() - 1]));
        assert(c.last() == p.last());
        if c.last() == seq!['/'] {
            assert(p.last()[0] == '/');
        }
        assert(c.drop_last() =~= rc + p.drop_last());
    }
    assert forall|i: int| 0 <= i < res.len() implies #[trigger] res[i].depth_view() >= 1 by {
        assert(acc[w[i]].0.len() >= 1);
    }
    assert forall|i: int| 0 <= i < res.len() && res[i].depth_view() != 1 implies #[trigger] has_parent_in(res, res[i]) by {
        let p = acc[w[i]].0;
        assert(relative_key(p) == p);
        lemma_listing_ancestors(lines, all, max_depth, res, root, w, i, p.len() - 1);
        let j = choose|j: int| 0 <= j < res.len()
            && #[trigger] relative_key(acc[w[j]].0) == relative_key(acc[w[i]].0).take(p.len() - 1)
            && res[j].is_dir_view();
        let q = acc[w[j]].0;
        assert(relative_key(q) == q);
        assert(q == p.take(p.len() - 1));
        assert(p.drop_last() =~= p.take(p.len() - 1));
        assert(entry_key(res[j]) == rc + q);
        assert(parent_key(res[i]) == Some(entry_key(res[j])));
    }
    assert forall|i: int, j: int|
        #![trigger files_under(res[i], entry_key(res[j]))]
        0 <= i < res.len() && 0 <= j < res.len() && files_under(res[i], entry_key(res[j]))
            implies res[i].depth_view() == res[j].depth_view() + 1 by {
        let p = acc[w[i]].0;
        let q = acc[w[j]].0;
        assert(parent_key(res[i]) == Some(rc + p.drop_last()));
        assert(entry_key(res[j]) == rc + q);
        assert(rc + p.drop_last() == rc + q);
        assert(p.drop_last() =~= (rc + p.drop_last()).skip(rc.len() as int));
        assert(q =~= (rc + q).skip(rc.len() as int));
    }
    assert forall|i: int, j: int|
        #![trigger files_under(res[i], entry_key(res[j]))]
        0 <= i < res.len() && 0 <= j < res.len() && files_under(res[i], entry_key(res[j]))
            implies res[j].is_dir_view() by {
        let p = acc[w[i]].0;
        let q = acc[w[j]].0;
        assert(rc + p.drop_last() == rc + q);
        assert(p.drop_last() =~= (rc + p.drop_last()).skip(rc.len() as int));
        assert(q =~= (rc + q).skip(rc.len() as int));
        assert(relative_key(p) == p);
        assert(relative_key(q) == q);
        assert(p.len() >= 2);
        lemma_listing_ancestors(lines, all, max_depth, res, root, w, i, p.len() - 1);
        let j2 = choose|j2: int| 0 <= j2 < res.len()
            && #[trigger] relative_key(acc[w[j2]].0) == relative_key(acc[w[i]].0).take(p.len() - 1)
            && res[j2].is_dir_view();
        assert(p.drop_last() =~= p.take(p.len() - 1));
        assert(relative_key(acc[w[j2]].0) == relative_key(acc[w[j]].0));
        if j2 < j {
            assert(relative_key(acc[w[j2]].0) != relative_key(acc[w[j]].0));
        } else if j < j2 {
            assert(relative_key(acc[w[j]].0) != relative_key(acc[w[j2]].0));
        }
    }
}

fn is_dot(s: &String) -> (r: bool)
    ensures r == (s@ == seq!['.']),
{
    let cs = chars_of(s.as_str());
    let r = cs.len() == 1 && cs[0] == '.';
    proof {
        if cs@.len() == 1 {
            assert(cs@ =~= seq![cs@[0]]);
        }
    }
    r
}

fn clone_key(k: &Vec<String>) -> (r: Vec<String>)
    ensures r.deep_view() == k.deep_view(),
{
    let mut r: Vec<String> = Vec::new();
    let mut i: usize = 0;
    while i < k.len()
        invariant
            0 <= i <= k.len(),
            r.deep_view() == k.deep_view().take(i as int),
        decreases k.len() - i,
    {
        let c = k[i].clone();
        let ghost old_r = r.deep_view();
        r.push(c);
        proof {
            assert(c@ == k.deep_view()[i as int]);
            assert(r.deep_view() =~= old_r.push(c@));
            assert(k.deep_view().take(i + 1) =~= k.deep_view().take(i as int).push(k.deep_view()[i as int]));
        }
        i = i + 1;
    }
    proof {
        assert(k.deep_view().take(k.len() as int) =~= k.deep_view());
    }
    r
}


/// The recorded relative paths (`keys`, with the text `rels` each was
/// first written as and the directory flags `flags`) are the distinct
/// relative paths of `done` in order of first occurrence `w`.
spec fn tracks(
    keys: Seq<Seq<Seq<char>>>,
    rels: Seq<Seq<char>>,
    flags: Seq<bool>,
    w: Seq<int>,
    done: Seq<(Seq<Seq<char>>, bool)>,
) -> bool {
    &&& keys.len() == w.len() && rels.len() == w.len() && flags.len() == w.len()
    &&& forall|i: int| 0 <= i < w.len() ==> 0 <= #[trigger] w[i] < done.len()
        && keys[i] == relative_key(done[w[i]].0)
        && rels[i] == join_slash(done[w[i]].0)
    &&& forall|i: int, j: int| 0 <= i < j < w.len() ==> #[trigger] w[i] < #[trigger] w[j]
    &&& forall|i: int, t: int| 0 <= i < w.len() && 0 <= t < w[i] ==>
        #[trigger] relative_key(done[t].0) != #[trigger] keys[i]
    &&& forall|t: int| 0 <= t < done.len() ==> keys.contains(#[trigger] relative_key(done[t].0))
    &&& forall|i: int| 0 <= i < w.len() ==> #[trigger] flags[i] == seen_as_dir(done, keys[i])
}

/// Whether some path in `done` with relative path `k` is a directory.
spec fn seen_as_dir(done: Seq<(Seq<Seq<char>>, bool)>, k: Seq<Seq<char>>) -> bool {
    exists|t: int| 0 <= t < done.len() && #[trigger] relative_key(done[t].0) == k && done[t].1
}

proof fn lemma_tracks_distinct(keys: Seq<Seq<Seq<char>>>, rels: Seq<Seq<char>>, flags: Seq<bool>, w: Seq<int>, done: Seq<(Seq<Seq<char>>, bool)>)
    requires tracks(keys, rels, flags, w, done),
    ensures forall|i: int, j: int| 0 <= i < w.len() && 0 <= j < w.len() && i != j ==> keys[i] != keys[j],
{
    assert forall|i: int, j: int| 0 <= i < w.len() && 0 <= j < w.len() && i != j implies keys[i] != keys[j] by {
        if i < j {
            assert(relative_key(done[w[i]].0) != keys[j]);
        } else {
            assert(relative_key(done[w[j]].0) != keys[i]);
        }
    }
}

proof fn lemma_seen_push(done: Seq<(Seq<Seq<char>>, bool)>, x: (Seq<Seq<char>>, bool), k: Seq<Seq<char>>)
    ensures
        seen_as_dir(done.push(x), k) == (seen_as_dir(done, k) || (relative_key(x.0) == k && x.1)),
{
    let d2 = done.push(x);
    if seen_as_dir(d2, k) {
        let t = choose|t: int| 0 <= t < d2.len() && #[trigger] relative_key(d2[t].0) == k && d2[t].1;
        if t < done.len() {
            assert(done[t] == d2[t]);
        }
    }
    if seen_as_dir(done, k) {
        let t = choose|t: int| 0 <= t < done.len() && #[trigger] relative_key(done[t].0) == k && done[t].1;
        assert(d2[t] == done[t]);
    }
    if relative_key(x.0) == k && x.1 {
        assert(d2[done.len() as int] == x);
    }
}

proof fn lemma_tracks_covers(keys: Seq<Seq<Seq<char>>>, rels: Seq<Seq<char>>, flags: Seq<bool>, w: Seq<int>, done: Seq<(Seq<Seq<char>>, bool)>)
    requires tracks(keys, rels, flags, w, done),
    ensures
        forall|t: int| 0 <= t < done.len() ==> #[trigger] first_seen_at(done, w, t),
{
    assert forall|t: int| 0 <= t < done.len() implies #[trigger] first_seen_at(done, w, t) by {
        assert(keys.contains(relative_key(done[t].0)));
        let q = choose|q: int| 0 <= q < keys.len() && keys[q] == relative_key(done[t].0);
        assert(relative_key(done[t].0) == relative_key(done[w[q]].0));
    }
}

/// Records one more path of the listing.
fn record_path(
    keys: &mut Vec<Vec<String>>,
    rels: &mut Vec<String>,
    flags: &mut Vec<bool>,
    key: &Vec<String>,
    rel: &String,
    flag: bool,
    Ghost(p): Ghost<Seq<Seq<char>>>,
    Ghost(done): Ghost<Seq<(Seq<Seq<char>>, bool)>>,
    Ghost(w): Ghost<Seq<int>>,
) -> (nw: Ghost<Seq<int>>)
    requires
        tracks(old(keys).deep_view(), old(rels).deep_view(), old(flags)@, w, done),
        key.deep_view() == relative_key(p),
        rel@ == join_slash(p),
    ensures
        tracks(final(keys).deep_view(), final(rels).deep_view(), final(flags)@, nw@, done.push((p, flag))),
{
    let ghost x = (p, flag);
    let ghost d2 = done.push(x);
    let ghost k = key.deep_view();
    let ghost ok = keys.deep_view();
    let ghost orl = rels.deep_view();
    let ghost of = flags@;
    proof {
        lemma_tracks_distinct(ok, orl, of, w, done);
        assert forall|t: int| 0 <= t < done.len() implies d2[t] == done[t] by {}
        assert(d2[done.len() as int] == x);
    }
    let found = crate::tree::find_group(keys, key);
    proof {
        crate::tree::lemma_find_key(ok, k);
    }
    match found {
        Some(g) => {
            let updated = flags[g] || flag;
            flags.set(g, updated);
            proof {
                assert forall|i: int| 0 <= i < w.len() implies #[trigger] flags@[i] == seen_as_dir(d2, ok[i]) by {
                    lemma_seen_push(done, x, ok[i]);
                    if i != g {
                        assert(ok[i] != k);
                    }
                }
                assert forall|t: int| 0 <= t < d2.len() implies ok.contains(#[trigger] relative_key(d2[t].0)) by {
                    if t == done.len() {
                        assert(ok[g as int] == k);
                    }
                }
                assert(tracks(ok, orl, flags@, w, d2));
            }
            Ghost(w)
        },
        None => {
            let new_key = clone_key(key);
            let new_rel = rel.clone();
            keys.push(new_key);
            rels.push(new_rel);
            flags.push(flag);
            let ghost nw = w.push(done.len() as int);
            proof {
                let nk = keys.deep_view();
                assert(nk =~= ok.push(k));
                assert(rels.deep_view() =~= orl.push(rel@));
                assert forall|i: int| 0 <= i < nw.len() implies #[trigger] flags@[i] == seen_as_dir(d2, nk[i]) by {
                    lemma_seen_push(done, x, nk[i]);
                    if i == w.len() {
                        if seen_as_dir(done, k) {
                            let t = choose|t: int| 0 <= t < done.len() && #[trigger] relative_key(done[t].0) == k && done[t].1;
                            assert(ok.contains(relative_key(done[t].0)));
                        }
                    } else {
                        assert(nk[i] == ok[i]);
                        assert(ok.contains(ok[i]));
                    }
                }
                assert forall|t: int| 0 <= t < d2.len() implies nk.contains(#[trigger] relative_key(d2[t].0)) by {
                    if t < done.len() {
                        let q = choose|q: int| 0 <= q < ok.len() && ok[q] == relative_key(done[t].0);
                        assert(nk[q] == ok[q]);
                    } else {
                        assert(nk[w.len() as int] == k);
                    }
                }
                assert forall|i: int, t: int| 0 <= i < nw.len() && 0 <= t < nw[i] implies
                    #[trigger] relative_key(d2[t].0) != #[trigger] nk[i] by {
                    if i == w.len() {
                        assert(ok.contains(relative_key(done[t].0)));
                    } else {
                        assert(nk[i] == ok[i]);
                    }
                }
                assert forall|i: int| 0 <= i < nw.len() implies 0 <= #[trigger] nw[i] < d2.len()
                    && nk[i] == relative_key(d2[nw[i]].0)
                    && rels.deep_view()[i] == join_slash(d2[nw[i]].0) by {
                }
                assert(tracks(nk, rels.deep_view(), flags@, nw, d2));
            }
            Ghost(nw)
        },
    }
}

/// Builds the entries for the recorded relative paths.
fn build_entries(
    keys: &Vec<Vec<String>>,
    rels: &Vec<String>,
    flags: &Vec<bool>,
    root: &str,
    Ghost(w): Ghost<Seq<int>>,
    Ghost(done): Ghost<Seq<(Seq<Seq<char>>, bool)>>,
) -> (res: Vec<TreeEntry>)
    requires
        tracks(keys.deep_view(), rels.deep_view(), flags@, w, done),
    ensures
        listing_entries(res@, done, root@),
{
    let mut res: Vec<TreeEntry> = Vec::new();
    let mut i: usize = 0;
    while i < keys.len()
        invariant
            0 <= i <= keys@.len(),
            tracks(keys.deep_view(), rels.deep_view(), flags@, w, done),
            res@.len() == i,
            forall|q: int| 0 <= q < i ==> listed_entry_for(#[trigger] res@[q], done, w[q], root@),
        decreases keys.len() - i,
    {
        let mut path = String::new();
        push_str(&mut path, root);
        let rc = chars_of(root);
        if rc.len() > 0 && rc[rc.len() - 1] != '/' {
            push_char(&mut path, '/');
        }
        push_str(&mut path, rels[i].as_str());
        let depth = keys[i].len();
        let ghost q = i as int;
        proof {
            assert(rels.deep_view()[q] == rels@[q]@);
            assert(path@ =~= join_path(root@, join_slash(done[w[q]].0)));
            assert(keys.deep_view()[q].len() == keys@[q].len());
        }
        res.push(TreeEntry::Listed(ListedEntry { path, depth, is_dir: flags[i], metadata: None }));
        proof {
            assert(flags@[q] == seen_as_dir(done, keys.deep_view()[q]));
            assert(listed_entry_for(res@[q], done, w[q], root@));
        }
        i = i + 1;
    }
    proof {
        let ks = keys.deep_view();
        assert(ks.len() == keys@.len());
        assert(w.len() == res@.len());
        lemma_tracks_covers(ks, rels.deep_view(), flags@, w, done);
        assert forall|i: int, t: int| 0 <= i < res@.len() && 0 <= t < w[i] implies
            #[trigger] relative_key(done[t].0) != relative_key(done[#[trigger] w[i]].0) by {
            assert(relative_key(done[t].0) != ks[i]);
        }
        assert forall|i: int| 0 <= i < res@.len() implies 0 <= #[trigger] w[i] < done.len() && listed_entry_for(res@[i], done, w[i], root@) by {
            assert(listed_entry_for(res@[i], done, w[i], root@));
        }
        assert forall|i: int, j: int| 0 <= i < j < res@.len() implies #[trigger] w[i] < #[trigger] w[j] by {}
        assert(listing_entries_at(res@, done, root@, w));
    }
    res
}

/// Parses `--fromfile` input, given as its lines, into synthetic entries
/// rooted at `root`. Ancestor directories are inferred from path
/// components; a line ending in `/` marks its path as a directory. Hidden
/// components drop the line unless `all` is set, a depth limit truncates
/// lines (the component at the cut becomes a directory), blank lines are
/// ignored, and duplicate paths collapse into one entry.
pub fn parse_fromfile(lines: &Vec<String>, root: &str, all: bool, max_depth: Option<usize>) -> (res: Vec<TreeEntry>)
    ensures
        listing_entries(res@, listed_paths(lines.deep_view(), all, max_depth), root@),
{
    let ghost ls = lines.deep_view();
    let mut keys: Vec<Vec<String>> = Vec::new();
    let mut rels: Vec<String> = Vec::new();
    let mut flags: Vec<bool> = Vec::new();
    let ghost mut w: Seq<int> = Seq::empty();
    let ghost mut done: Seq<(Seq<Seq<char>>, bool)> = Seq::empty();
    let mut li: usize = 0;
    proof {
        assert(ls.take(0) =~= Seq::<Seq<char>>::empty());
        assert(tracks(keys.deep_view(), rels.deep_view(), flags@, w, done));
    }
    while li < lines.len()
        invariant
            0 <= li <= lines.len(),
            ls == lines.deep_view(),
            done == listed_paths(ls.take(li as int), all, max_depth),
            tracks(keys.deep_view(), rels.deep_view(), flags@, w, done),
        decreases lines.len() - li,
    {
        let (comps, limit, last_dir) = line_parts(&lines[li], all, max_depth);
        let ghost lp = line_paths(ls[li as int], all, max_depth);
        proof {
            assert(ls[li as int] == lines@[li as int]@);
            assert(ls.take(li + 1).drop_last() =~= ls.take(li as int));
        }
        let mut key: Vec<String> = Vec::new();
        let mut rel = String::new();
        let mut m: usize = 0;
        let ghost base = done;
        proof {
            assert(lp.take(0) =~= Seq::<(Seq<Seq<char>>, bool)>::empty());
            assert(comps.deep_view().take(0) =~= Seq::<Seq<char>>::empty());
        }
        while m < limit
            invariant
                0 <= m <= limit <= comps.deep_view().len(),
                lp == Seq::new(limit as nat, |q: int| (comps.deep_view().take(q + 1), q + 1 < limit || last_dir)),
                done == base + lp.take(m as int),
                key.deep_view() == relative_key(comps.deep_view().take(m as int)),
                rel@ == join_slash(comps.deep_view().take(m as int)),
                tracks(keys.deep_view(), rels.deep_view(), flags@, w, done),
            decreases limit - m,
        {
            let ghost cv = comps.deep_view();
            let piece = &comps[m];
            proof {
                assert(cv.take(m + 1).drop_last() =~= cv.take(m as int));
                assert(cv.take(m + 1).last() == piece@);
            }
            if m == 0 || !is_dot(piece) {
                let ghost old_key = key.deep_view();
                key.push(piece.clone());
                proof {
                    assert(key.deep_view() =~= old_key.push(piece@));
                }
            }
            if m > 0 {
                push_char(&mut rel, '/');
            }
            push_str(&mut rel, piece.as_str());
            proof {
                assert(key.deep_view() =~= relative_key(cv.take(m + 1)));
                if m == 0 {
                    assert(rel@ =~= join_slash(cv.take(1)));
                } else {
                    assert(rel@ =~= join_slash(cv.take(m + 1)));
                }
            }
            let flag = m + 1 < limit || last_dir;
            let ghost x = (cv.take(m + 1), flag);
            proof {
                assert(lp[m as int] == x);
                assert(lp.take(m + 1) =~= lp.take(m as int).push(x));
            }
            let nw = record_path(&mut keys, &mut rels, &mut flags, &key, &rel, flag, Ghost(cv.take(m + 1)), Ghost(done), Ghost(w));
            proof {
                w = nw@;
                done = done.push(x);
            }
            m = m + 1;
        }
        proof {
            assert(lp.take(limit as int) =~= lp);
        }
        li = li + 1;
    }
    proof {
        assert(ls.take(lines.len() as int) =~= ls);
    }
    build_entries(&keys, &rels, &flags, root, Ghost(w), Ghost(done))
}

} // verus!
