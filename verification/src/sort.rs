//! Sorting of directory entries: the sort options, the order they define
//! on entries, a stable sort, and the hierarchical (tree-preserving) sort.

use vstd::prelude::*;
use crate::entry::TreeEntry;
use crate::order::{Order, int_order, name_order, compare_names, compare_u64, compare_i128,
    lemma_name_order_flip, lemma_name_order_trans, lemma_name_order_equal};
use crate::natural::{natural_order, compare_natural};
use crate::path::{extension_of, file_name, name_extension_text};
use crate::text::{lowercase, lowercase_text, chars_of};

pub use crate::tree::sort_entries_hierarchically;

verus! {

/// Defines the available sorting strategies.
#[derive(Clone, Copy, PartialEq, Eq, Debug, Structural)]
pub enum SortType {
    /// Sort by name (default)
    Name,
    /// Sort by file size
    Size,
    /// Sort by modification time
    Modified,
    /// Sort by file extension
    Extension,
}

impl Default for SortType {
    fn default() -> (t: SortType)
        ensures t == SortType::Name,
    {
        SortType::Name
    }
}

/// The command-line name of a sorting strategy.
pub open spec fn sort_type_name(t: SortType) -> Seq<char> {
    match t {
        SortType::Name => "name"@,
        SortType::Size => "size"@,
        SortType::Modified => "modified"@,
        SortType::Extension => "extension"@,
    }
}

impl SortType {
    /// The name the strategy goes by on the command line (and in help
    /// messages): `name`, `size`, `modified` or `extension`.
    pub fn name(&self) -> (r: &'static str)
        ensures r@ == sort_type_name(*self),
    {
        match self {
            SortType::Name => "name",
            SortType::Size => "size",
            SortType::Modified => "modified",
            SortType::Extension => "extension",
        }
    }
}

/// Configuration options for sorting directory entries.
#[derive(Clone, Copy, PartialEq, Eq, Debug, Structural)]
pub struct SortOptions {
    /// The primary sorting strategy
    pub sort_type: SortType,
    /// Whether to sort directories before files
    pub directories_first: bool,
    /// Whether to use case-sensitive name sorting
    pub case_sensitive: bool,
    /// Whether to use natural/version sorting (e.g., file1 < file10)
    pub natural_sort: bool,
    /// Whether to reverse the sort order
    pub reverse: bool,
    /// Whether to sort dotfiles/dotfolders first
    pub dotfiles_first: bool,
}

impl Default for SortOptions {
    fn default() -> (o: SortOptions)
        ensures
            o == (SortOptions {
                sort_type: SortType::Name,
                directories_first: false,
                case_sensitive: false,
                natural_sort: false,
                reverse: false,
                dotfiles_first: false,
            }),
    {
        SortOptions {
            sort_type: SortType::Name,
            directories_first: false,
            case_sensitive: false,
            natural_sort: false,
            reverse: false,
            dotfiles_first: false,
        }
    }
}

/// Whether an entry's name starts with a dot.
pub open spec fn is_dotfile_view(e: TreeEntry) -> bool {
    e.name_view().len() > 0 && e.name_view()[0] == '.'
}

/// The extension of a name, or the empty text when it has none.
pub open spec fn extension_or_empty(name: Seq<char>) -> Seq<char> {
    match extension_of(name) {
        Some(x) => x,
        None => Seq::empty(),
    }
}

/// The extension an entry is sorted by: as written when sorting is case
/// sensitive, lowercased otherwise.
pub open spec fn extension_key(e: TreeEntry, o: SortOptions) -> Seq<char> {
    let x = extension_or_empty(e.name_view());
    if o.case_sensitive { x } else { lowercase_text(x) }
}

/// The rank of an entry's category when dotfiles go first:
/// dot-directories, directories, dotfiles, files.
pub open spec fn dotfile_rank(e: TreeEntry) -> int {
    (if e.is_dir_view() { 0int } else { 2int }) + (if is_dotfile_view(e) { 0int } else { 1int })
}

/// The order of two entries' categories: by dotfile rank when dotfiles go
/// first, directories before files when directories go first, all equal
/// otherwise.
pub open spec fn category_order(a: TreeEntry, b: TreeEntry, o: SortOptions) -> Order {
    if o.dotfiles_first {
        int_order(dotfile_rank(a), dotfile_rank(b))
    } else if o.directories_first {
        int_order(if a.is_dir_view() { 0int } else { 1int }, if b.is_dir_view() { 0int } else { 1int })
    } else {
        Order::Equal
    }
}

/// The order of two entries' names: natural order, the case-sensitive
/// default order (digits, uppercase, lowercase, others), or the order of
/// the lowercased names.
pub open spec fn name_key_order(a: TreeEntry, b: TreeEntry, o: SortOptions) -> Order {
    if o.natural_sort {
        natural_order(a.name_view(), b.name_view())
    } else if o.case_sensitive {
        name_order(a.name_view(), b.name_view(), true)
    } else {
        name_order(lowercase_text(a.name_view()), lowercase_text(b.name_view()), false)
    }
}

/// The order of two optional modification times: known times first, in
/// increasing order.
pub open spec fn time_order(a: Option<i128>, b: Option<i128>) -> Order {
    match (a, b) {
        (Some(x), Some(y)) => int_order(x as int, y as int),
        (Some(_), None) => Order::Less,
        (None, Some(_)) => Order::Greater,
        (None, None) => Order::Equal,
    }
}

/// The order of two entries by the primary sorting strategy.
pub open spec fn primary_order(a: TreeEntry, b: TreeEntry, o: SortOptions) -> Order {
    match o.sort_type {
        SortType::Name => name_key_order(a, b, o),
        SortType::Size => int_order(a.size_view() as int, b.size_view() as int),
        SortType::Modified => time_order(a.modified_view(), b.modified_view()),
        SortType::Extension => {
            let e = name_order(extension_key(a, o), extension_key(b, o), false);
            if e == Order::Equal { name_key_order(a, b, o) } else { e }
        },
    }
}

/// The order of two entries before reversal: category first, then the
/// primary strategy.
pub open spec fn base_order(a: TreeEntry, b: TreeEntry, o: SortOptions) -> Order {
    let c = category_order(a, b, o);
    if c != Order::Equal { c } else { primary_order(a, b, o) }
}

/// The order in which `sort_entries` arranges two entries.
pub open spec fn entry_order(a: TreeEntry, b: TreeEntry, o: SortOptions) -> Order {
    if o.reverse { base_order(a, b, o).flip() } else { base_order(a, b, o) }
}

/// Per-entry data computed once before sorting.
struct SortKey {
    is_dir: bool,
    is_dotfile: bool,
    size: u64,
    modified: Option<i128>,
    name: String,
    name_chars: Vec<char>,
    name_lower: Vec<char>,
    extension: Vec<char>,
}

/// `k` holds what the options need of entry `e`.
spec fn key_of(k: SortKey, e: TreeEntry, o: SortOptions) -> bool {
    &&& k.is_dir == e.is_dir_view()
    &&& k.is_dotfile == is_dotfile_view(e)
    &&& k.name@ == e.name_view()
    &&& k.name_chars@ == e.name_view()
    &&& o.sort_type == SortType::Size ==> k.size == e.size_view()
    &&& o.sort_type == SortType::Modified ==> k.modified == e.modified_view()
    &&& (!o.natural_sort && !o.case_sensitive) ==> k.name_lower@ == lowercase_text(e.name_view())
    &&& o.sort_type == SortType::Extension ==> k.extension@ == extension_key(e, o)
}

/// The extension of a file name, or the empty string when it has none
/// (`Path::extension` of the name).
pub fn get_extension(filename: &str) -> (r: String)
    ensures
        r@ == extension_or_empty(filename@),
{
    match file_name(filename) {
        Some(f) => name_extension_text(&f),
        None => String::new(),
    }
}

/// Whether a name denotes a dotfile or dotfolder (starts with `.`).
pub fn is_dotfile(name: &str) -> (r: bool)
    ensures
        r == (name@.len() > 0 && name@[0] == '.'),
{
    name.unicode_len() > 0 && name.get_char(0) == '.'
}

fn make_key(e: &TreeEntry, o: &SortOptions) -> (k: SortKey)
    ensures
        key_of(k, *e, *o),
{
    let name = e.file_name();
    let name_chars = chars_of(name.as_str());
    let is_dir = e.is_dir();
    let is_dotfile = is_dotfile(name.as_str());
    let size = if o.sort_type == SortType::Size { e.size() } else { 0 };
    let modified = if o.sort_type == SortType::Modified { e.modified() } else { None };
    let name_lower = if !o.natural_sort && !o.case_sensitive {
        let l = lowercase(name.as_str());
        chars_of(l.as_str())
    } else {
        Vec::new()
    };
    let extension = if o.sort_type == SortType::Extension {
        let x = get_extension(name.as_str());
        if o.case_sensitive {
            chars_of(x.as_str())
        } else {
            let l = lowercase(x.as_str());
            chars_of(l.as_str())
        }
    } else {
        Vec::new()
    };
    SortKey { is_dir, is_dotfile, size, modified, name, name_chars, name_lower, extension }
}

fn rank_of(is_dir: bool, is_dot: bool) -> (r: u64)
    ensures r == (if is_dir { 0int } else { 2int }) + (if is_dot { 0int } else { 1int }),
{
    (if is_dir { 0 } else { 2 }) + (if is_dot { 0 } else { 1 })
}

fn compare_names_keyed(ka: &SortKey, kb: &SortKey, o: &SortOptions, Ghost(a): Ghost<TreeEntry>, Ghost(b): Ghost<TreeEntry>) -> (r: Order)
    requires
        key_of(*ka, a, *o),
        key_of(*kb, b, *o),
    ensures
        r == name_key_order(a, b, *o),
{
    if o.natural_sort {
        compare_natural(ka.name.as_str(), kb.name.as_str())
    } else if o.case_sensitive {
        compare_names(&ka.name_chars, &kb.name_chars, true)
    } else {
        compare_names(&ka.name_lower, &kb.name_lower, false)
    }
}

/// Compares two entries through their precomputed keys (before reversal).
fn compare_keyed(ka: &SortKey, kb: &SortKey, o: &SortOptions, Ghost(a): Ghost<TreeEntry>, Ghost(b): Ghost<TreeEntry>) -> (r: Order)
    requires
        key_of(*ka, a, *o),
        key_of(*kb, b, *o),
    ensures
        r == base_order(a, b, *o),
{
    if o.dotfiles_first {
        let c = compare_u64(rank_of(ka.is_dir, ka.is_dotfile), rank_of(kb.is_dir, kb.is_dotfile));
        if c != Order::Equal {
            return c;
        }
    } else if o.directories_first {
        if ka.is_dir && !kb.is_dir {
            return Order::Less;
        } else if !ka.is_dir && kb.is_dir {
            return Order::Greater;
        }
    }
    match o.sort_type {
        SortType::Name => compare_names_keyed(ka, kb, o, Ghost(a), Ghost(b)),
        SortType::Size => compare_u64(ka.size, kb.size),
        SortType::Modified => match (ka.modified, kb.modified) {
            (Some(x), Some(y)) => compare_i128(x, y),
            (Some(_), None) => Order::Less,
            (None, Some(_)) => Order::Greater,
            (None, None) => Order::Equal,
        },
        SortType::Extension => {
            let e = compare_names(&ka.extension, &kb.extension, false);
            if e == Order::Equal {
                compare_names_keyed(ka, kb, o, Ghost(a), Ghost(b))
            } else {
                e
            }
        },
    }
}

/// Compares two entries in sorting order (reversed when asked).
fn compare_entries(ka: &SortKey, kb: &SortKey, o: &SortOptions, Ghost(a): Ghost<TreeEntry>, Ghost(b): Ghost<TreeEntry>) -> (r: Order)
    requires
        key_of(*ka, a, *o),
        key_of(*kb, b, *o),
    ensures
        r == entry_order(a, b, *o),
{
    let r = compare_keyed(ka, kb, o, Ghost(a), Ghost(b));
    if o.reverse { r.reverse() } else { r }
}


/// `p` lists each index below `n` exactly once.
pub open spec fn is_permutation(p: Seq<int>, n: nat) -> bool {
    &&& p.len() == n
    &&& forall|i: int| 0 <= i < n ==> 0 <= #[trigger] p[i] < n
    &&& forall|i: int, j: int| 0 <= i < j < n ==> #[trigger] p[i] != #[trigger] p[j]
}

/// The sorting order is a total preorder on the entries of `es`: it is
/// antisymmetric (comparing the other way round flips the result) and
/// `not greater` is transitive.
pub open spec fn order_consistent(es: Seq<TreeEntry>, o: SortOptions) -> bool {
    &&& forall|i: int, j: int|
        0 <= i < es.len() && 0 <= j < es.len() ==> #[trigger] entry_order(es[i], es[j], o)
            == entry_order(es[j], es[i], o).flip()
    &&& forall|i: int, j: int, k: int|
        0 <= i < es.len() && 0 <= j < es.len() && 0 <= k < es.len()
            && #[trigger] entry_order(es[i], es[j], o) != Order::Greater
            && #[trigger] entry_order(es[j], es[k], o) != Order::Greater
            ==> entry_order(es[i], es[k], o) != Order::Greater
}

/// `new` is `old` rearranged by the permutation `p`, and, when the order is
/// consistent on `old`, in nondecreasing order with entries that compare
/// equal kept in their input relative order.
pub open spec fn sorted_with(new: Seq<TreeEntry>, old: Seq<TreeEntry>, o: SortOptions, p: Seq<int>) -> bool {
    &&& new.len() == old.len()
    &&& is_permutation(p, old.len())
    &&& forall|i: int| 0 <= i < new.len() ==> new[i] == old[#[trigger] p[i]]
    &&& order_consistent(old, o) ==> forall|i: int, j: int|
        #![trigger entry_order(new[i], new[j], o)]
        0 <= i < j < new.len() ==> {
            &&& entry_order(new[i], new[j], o) != Order::Greater
            &&& entry_order(new[i], new[j], o) == Order::Equal ==> p[i] < p[j]
        }
}

/// `new` is a stable sort of `old` under the options' order.
pub open spec fn stably_sorted(new: Seq<TreeEntry>, old: Seq<TreeEntry>, o: SortOptions) -> bool {
    exists|p: Seq<int>| sorted_with(new, old, o, p)
}

/// The rank of an entry's category under the options: by dotfile rank
/// when dotfiles go first, directories (0) before files (1) when
/// directories go first, all 0 otherwise; negated when the sort is
/// reversed. Entries are sorted by this key whatever the other options.
pub open spec fn category_key(e: TreeEntry, o: SortOptions) -> int {
    let r = if o.dotfiles_first {
        dotfile_rank(e)
    } else if o.directories_first {
        if e.is_dir_view() { 0int } else { 1int }
    } else {
        0int
    };
    if o.reverse { -r } else { r }
}

/// The entries are in order of their categories.
pub open spec fn category_sorted(s: Seq<TreeEntry>, o: SortOptions) -> bool {
    forall|i: int, j: int| 0 <= i < j < s.len() ==> #[trigger] category_key(s[i], o) <= #[trigger] category_key(s[j], o)
}

proof fn lemma_category_decides(a: TreeEntry, b: TreeEntry, o: SortOptions)
    ensures
        category_key(a, o) < category_key(b, o) ==> entry_order(a, b, o) == Order::Less,
        category_key(a, o) > category_key(b, o) ==> entry_order(a, b, o) == Order::Greater,
{
}

/// Finds where `x` goes among the sorted `items`: after every item that
/// does not sort after it.
#[verifier::rlimit(40)]
fn insertion_point(
    items: &Vec<(SortKey, TreeEntry)>,
    key: &SortKey,
    o: &SortOptions,
    Ghost(x): Ghost<TreeEntry>,
    Ghost(orig): Ghost<Seq<TreeEntry>>,
    Ghost(perm): Ghost<Seq<int>>,
    Ghost(xi): Ghost<int>,
) -> (pos: usize)
    requires
        key_of(*key, x, *o),
        forall|k: int| 0 <= k < items@.len() ==> key_of(#[trigger] items@[k].0, items@[k].1, *o),
        perm.len() == items@.len(),
        0 <= xi < orig.len(),
        orig[xi] == x,
        forall|k: int| 0 <= k < items@.len() ==> 0 <= #[trigger] perm[k] < orig.len() && items@[k].1 == orig[perm[k]],
        order_consistent(orig, *o) ==> forall|a: int, b: int|
            0 <= a < b < items@.len() ==> #[trigger] entry_order(items@[a].1, items@[b].1, *o) != Order::Greater,
        forall|a: int, b: int| 0 <= a < b < items@.len() ==> #[trigger] category_key(items@[a].1, *o) <= #[trigger] category_key(items@[b].1, *o),
    ensures
        pos <= items@.len(),
        forall|k: int| 0 <= k < pos ==> #[trigger] category_key(items@[k].1, *o) <= category_key(x, *o),
        forall|k: int| pos <= k < items@.len() ==> #[trigger] category_key(items@[k].1, *o) >= category_key(x, *o),
        order_consistent(orig, *o) ==> forall|k: int| 0 <= k < pos ==> #[trigger] entry_order(x, items@[k].1, *o) != Order::Less,
        order_consistent(orig, *o) ==> forall|k: int| pos <= k < items@.len() ==> #[trigger] entry_order(x, items@[k].1, *o) == Order::Less,
{
    let mut lo: usize = 0;
    let mut hi: usize = items.len();
    while lo < hi
        invariant
            0 <= lo <= hi <= items@.len(),
            key_of(*key, x, *o),
            forall|k: int| 0 <= k < items@.len() ==> key_of(#[trigger] items@[k].0, items@[k].1, *o),
            perm.len() == items@.len(),
            0 <= xi < orig.len(),
            orig[xi] == x,
            forall|k: int| 0 <= k < items@.len() ==> 0 <= #[trigger] perm[k] < orig.len() && items@[k].1 == orig[perm[k]],
            order_consistent(orig, *o) ==> forall|a: int, b: int|
                0 <= a < b < items@.len() ==> #[trigger] entry_order(items@[a].1, items@[b].1, *o) != Order::Greater,
            order_consistent(orig, *o) ==> forall|k: int| 0 <= k < lo ==> #[trigger] entry_order(x, items@[k].1, *o) != Order::Less,
            order_consistent(orig, *o) ==> forall|k: int| hi <= k < items@.len() ==> #[trigger] entry_order(x, items@[k].1, *o) == Order::Less,
            forall|a: int, b: int| 0 <= a < b < items@.len() ==> #[trigger] category_key(items@[a].1, *o) <= #[trigger] category_key(items@[b].1, *o),
            forall|k: int| 0 <= k < lo ==> #[trigger] category_key(items@[k].1, *o) <= category_key(x, *o),
            forall|k: int| hi <= k < items@.len() ==> #[trigger] category_key(items@[k].1, *o) >= category_key(x, *o),
        decreases hi - lo,
    {
        let mid = lo + (hi - lo) / 2;
        let c = compare_entries(key, &items[mid].0, o, Ghost(x), Ghost(items@[mid as int].1));
        proof {
            lemma_category_decides(x, items@[mid as int].1, *o);
        }
        if c == Order::Less {
            proof {
                assert forall|k: int| mid <= k < items@.len() implies #[trigger] category_key(items@[k].1, *o) >= category_key(x, *o) by {
                    if k > mid {
                        assert(category_key(items@[mid as int].1, *o) <= category_key(items@[k].1, *o));
                    }
                }
                if order_consistent(orig, *o) {
                    assert forall|k: int| mid <= k < items@.len() implies #[trigger] entry_order(x, items@[k].1, *o) == Order::Less by {
                        if k > mid && k < hi {
                            let (pm, pk) = (perm[mid as int], perm[k]);
                            assert(entry_order(orig[pm], orig[pk], *o) != Order::Greater);
                            assert(entry_order(orig[xi], orig[pk], *o) == entry_order(orig[pk], orig[xi], *o).flip());
                            assert(entry_order(orig[xi], orig[pm], *o) == entry_order(orig[pm], orig[xi], *o).flip());
                            if entry_order(orig[pk], orig[xi], *o) != Order::Greater {
                                assert(entry_order(orig[pm], orig[xi], *o) != Order::Greater);
                            }
                        }
                    }
                }
            }
            hi = mid;
        } else {
            proof {
                assert forall|k: int| 0 <= k <= mid implies #[trigger] category_key(items@[k].1, *o) <= category_key(x, *o) by {
                    if k < mid {
                        assert(category_key(items@[k].1, *o) <= category_key(items@[mid as int].1, *o));
                    }
                }
                if order_consistent(orig, *o) {
                    assert forall|k: int| 0 <= k <= mid implies #[trigger] entry_order(x, items@[k].1, *o) != Order::Less by {
                        if k < mid && k >= lo {
                            let (pm, pk) = (perm[mid as int], perm[k]);
                            assert(entry_order(orig[pk], orig[pm], *o) != Order::Greater);
                            assert(entry_order(orig[xi], orig[pk], *o) == entry_order(orig[pk], orig[xi], *o).flip());
                            assert(entry_order(orig[xi], orig[pm], *o) == entry_order(orig[pm], orig[xi], *o).flip());
                            assert(entry_order(orig[pm], orig[xi], *o) != Order::Greater);
                            assert(entry_order(orig[pk], orig[xi], *o) != Order::Greater);
                        }
                    }
                }
            }
            lo = mid + 1;
        }
    }
    lo
}


/// Sorts the entries according to the options: a stable sort under
/// `entry_order` (categories first when directories or dotfiles go first,
/// then the primary strategy, the whole order reversed when asked).
///
/// Each entry's sort key is computed once, so metadata and lowercased
/// names are not recomputed per comparison.
pub fn sort_entries(entries: &mut Vec<TreeEntry>, options: &SortOptions)
    ensures
        stably_sorted(final(entries)@, old(entries)@, *options),
        category_sorted(final(entries)@, *options),
{
    let ghost orig = entries@;
    let mut input: Vec<TreeEntry> = Vec::new();
    std::mem::swap(&mut input, entries);
    let mut items: Vec<(SortKey, TreeEntry)> = Vec::new();
    let ghost mut perm: Seq<int> = Seq::empty();
    let ghost mut i: int = 0;
    for e in it: input.into_iter()
        invariant
            orig == it.seq(),
            i == it.index(),
            i <= orig.len(),
            items@.len() == i,
            perm.len() == i,
            forall|k: int| 0 <= k < i ==> key_of(#[trigger] items@[k].0, items@[k].1, *options),
            forall|k: int| 0 <= k < i ==> 0 <= #[trigger] perm[k] < i && items@[k].1 == orig[perm[k]],
            forall|a: int, b: int| 0 <= a < b < i ==> #[trigger] perm[a] != #[trigger] perm[b],
            forall|a: int, b: int| 0 <= a < b < i ==> #[trigger] category_key(items@[a].1, *options) <= #[trigger] category_key(items@[b].1, *options),
            order_consistent(orig, *options) ==> forall|a: int, b: int|
                #![trigger entry_order(items@[a].1, items@[b].1, *options)]
                0 <= a < b < i ==> {
                    &&& entry_order(items@[a].1, items@[b].1, *options) != Order::Greater
                    &&& entry_order(items@[a].1, items@[b].1, *options) == Order::Equal ==> perm[a] < perm[b]
                },
    {
        let key = make_key(&e, options);
        let pos = insertion_point(&items, &key, options, Ghost(e), Ghost(orig), Ghost(perm), Ghost(i));
        let ghost old_items = items@;
        let ghost old_perm = perm;
        items.insert(pos, (key, e));
        proof {
            perm = perm.insert(pos as int, i);
            assert forall|k: int| 0 <= k < i + 1 implies key_of(#[trigger] items@[k].0, items@[k].1, *options) by {
                if k < pos { assert(items@[k] == old_items[k]); }
                else if k > pos { assert(items@[k] == old_items[k - 1]); }
            }
            assert forall|k: int| 0 <= k < i + 1 implies 0 <= #[trigger] perm[k] < i + 1 && items@[k].1 == orig[perm[k]] by {
                if k < pos { assert(items@[k] == old_items[k]); }
                else if k > pos { assert(items@[k] == old_items[k - 1]); }
            }
            assert forall|a: int, b: int| 0 <= a < b < i + 1 implies #[trigger] perm[a] != #[trigger] perm[b] by {
                if a < pos && b > pos { assert(old_perm[a] != old_perm[b - 1]); }
                else if a > pos { assert(old_perm[a - 1] != old_perm[b - 1]); }
                else if b < pos { assert(old_perm[a] != old_perm[b]); }
            }
            assert forall|a: int, b: int| 0 <= a < b < i + 1 implies
                #[trigger] category_key(items@[a].1, *options) <= #[trigger] category_key(items@[b].1, *options) by {
                if a < pos && b == pos {
                    assert(items@[a] == old_items[a]);
                } else if a == pos && b > pos {
                    assert(items@[b] == old_items[b - 1]);
                } else if a < pos && b > pos {
                    assert(items@[a] == old_items[a]);
                    assert(items@[b] == old_items[b - 1]);
                } else if a > pos {
                    assert(items@[a] == old_items[a - 1]);
                    assert(items@[b] == old_items[b - 1]);
                } else {
                    assert(items@[a] == old_items[a]);
                    assert(items@[b] == old_items[b]);
                }
            }
            if order_consistent(orig, *options) {
                assert forall|a: int, b: int| #![trigger entry_order(items@[a].1, items@[b].1, *options)] 0 <= a < b < i + 1 implies {
                    &&& entry_order(items@[a].1, items@[b].1, *options) != Order::Greater
                    &&& entry_order(items@[a].1, items@[b].1, *options) == Order::Equal ==> perm[a] < perm[b]
                } by {
                    if a < pos && b == pos {
                        let pa = old_perm[a];
                        assert(items@[a].1 == old_items[a].1);
                        assert(entry_order(orig[i], orig[pa], *options) != Order::Less);
                        assert(entry_order(orig[i], orig[pa], *options) == entry_order(orig[pa], orig[i], *options).flip());
                    } else if a == pos && b > pos {
                        assert(items@[b].1 == old_items[b - 1].1);
                        assert(entry_order(orig[i], old_items[b - 1].1, *options) == Order::Less);
                    } else if a < pos && b > pos {
                        assert(items@[a] == old_items[a]);
                        assert(items@[b] == old_items[b - 1]);
                    } else if a > pos {
                        assert(items@[a] == old_items[a - 1]);
                        assert(items@[b] == old_items[b - 1]);
                    } else {
                        assert(items@[a] == old_items[a]);
                        assert(items@[b] == old_items[b]);
                    }
                }
            }
            i = i + 1;
        }
    }
    let ghost sorted_items = items@;
    for item in it2: items.into_iter()
        invariant
            sorted_items == it2.seq(),
            entries@.len() == it2.index(),
            forall|k: int| 0 <= k < it2.index() ==> entries@[k] == #[trigger] sorted_items[k].1,
    {
        let (_, e) = item;
        entries.push(e);
    }
    proof {
        assert(entries@.len() == orig.len());
        assert forall|k: int| 0 <= k < entries@.len() implies entries@[k] == orig[#[trigger] perm[k]] by {
            assert(entries@[k] == sorted_items[k].1);
        }
        assert(is_permutation(perm, orig.len()));
        if order_consistent(orig, *options) {
            assert forall|a: int, b: int| #![trigger entry_order(entries@[a], entries@[b], *options)] 0 <= a < b < entries@.len() implies {
                &&& entry_order(entries@[a], entries@[b], *options) != Order::Greater
                &&& entry_order(entries@[a], entries@[b], *options) == Order::Equal ==> perm[a] < perm[b]
            } by {
                assert(entries@[a] == sorted_items[a].1);
                assert(entries@[b] == sorted_items[b].1);
                assert(entry_order(sorted_items[a].1, sorted_items[b].1, *options) != Order::Greater);
            }
        }
        assert(sorted_with(entries@, orig, *options, perm));
        assert forall|a: int, b: int| 0 <= a < b < entries@.len() implies
            #[trigger] category_key(entries@[a], *options) <= #[trigger] category_key(entries@[b], *options) by {
            assert(entries@[a] == sorted_items[a].1);
            assert(entries@[b] == sorted_items[b].1);
        }
    }
}


proof fn lemma_name_key_order_props(a: TreeEntry, b: TreeEntry, c: TreeEntry, o: SortOptions)
    requires
        !o.natural_sort,
    ensures
        name_key_order(a, b, o) == name_key_order(b, a, o).flip(),
        name_key_order(a, b, o) != Order::Greater && name_key_order(b, c, o) != Order::Greater
            ==> name_key_order(a, c, o) != Order::Greater,
{
    if o.case_sensitive {
        lemma_name_order_flip(a.name_view(), b.name_view(), true);
        if name_key_order(a, b, o) != Order::Greater && name_key_order(b, c, o) != Order::Greater {
            lemma_name_order_trans(a.name_view(), b.name_view(), c.name_view(), true);
        }
    } else {
        let (la, lb, lc) = (lowercase_text(a.name_view()), lowercase_text(b.name_view()), lowercase_text(c.name_view()));
        lemma_name_order_flip(la, lb, false);
        if name_key_order(a, b, o) != Order::Greater && name_key_order(b, c, o) != Order::Greater {
            lemma_name_order_trans(la, lb, lc, false);
        }
    }
}

/// For a name order `x`: equality is transitive, and a strict step
/// followed or preceded by a non-strict one is strict.
proof fn lemma_name_order_strict(x: Seq<char>, y: Seq<char>, z: Seq<char>)
    requires
        name_order(x, y, false) != Order::Greater,
        name_order(y, z, false) != Order::Greater,
    ensures
        name_order(x, z, false) != Order::Greater,
        name_order(x, y, false) == Order::Less || name_order(y, z, false) == Order::Less
            ==> name_order(x, z, false) == Order::Less,
        name_order(x, y, false) == Order::Equal && name_order(y, z, false) == Order::Equal
            ==> name_order(x, z, false) == Order::Equal,
{
    lemma_name_order_trans(x, y, z, false);
    lemma_name_order_equal(x, y, false);
    lemma_name_order_equal(y, z, false);
    lemma_name_order_equal(x, z, false);
    lemma_name_order_flip(x, y, false);
    lemma_name_order_flip(y, z, false);
    lemma_name_order_flip(x, z, false);
}

proof fn lemma_primary_order_props(a: TreeEntry, b: TreeEntry, c: TreeEntry, o: SortOptions)
    requires
        !o.natural_sort,
    ensures
        primary_order(a, b, o) == primary_order(b, a, o).flip(),
        primary_order(a, b, o) != Order::Greater && primary_order(b, c, o) != Order::Greater
            ==> primary_order(a, c, o) != Order::Greater,
{
    lemma_name_key_order_props(a, b, c, o);
    match o.sort_type {
        SortType::Extension => {
            let (xa, xb, xc) = (extension_key(a, o), extension_key(b, o), extension_key(c, o));
            lemma_name_order_flip(xa, xb, false);
            if primary_order(a, b, o) != Order::Greater && primary_order(b, c, o) != Order::Greater {
                lemma_name_order_strict(xa, xb, xc);
            }
        },
        _ => {},
    }
}

/// The sorting order (without the natural-order comparison, which is not
/// known to be an order) is antisymmetric.
pub proof fn lemma_entry_order_flip(a: TreeEntry, b: TreeEntry, o: SortOptions)
    requires
        !o.natural_sort,
    ensures
        entry_order(a, b, o) == entry_order(b, a, o).flip(),
{
    lemma_primary_order_props(a, b, a, o);
}

/// The sorting order (without the natural-order comparison) is
/// transitive.
pub proof fn lemma_entry_order_trans(a: TreeEntry, b: TreeEntry, c: TreeEntry, o: SortOptions)
    requires
        !o.natural_sort,
        entry_order(a, b, o) != Order::Greater,
        entry_order(b, c, o) != Order::Greater,
    ensures
        entry_order(a, c, o) != Order::Greater,
{
    if o.reverse {
        lemma_primary_order_props(c, b, a, o);
        lemma_primary_order_props(a, b, c, o);
        lemma_primary_order_props(b, a, c, o);
        lemma_primary_order_props(c, a, b, o);
    } else {
        lemma_primary_order_props(a, b, c, o);
    }
}

/// Unless names are compared in natural order, the sorting order is a
/// total preorder on any list of entries, so `sort_entries` always
/// produces a sorted, stable arrangement.
pub proof fn lemma_order_consistent(es: Seq<TreeEntry>, o: SortOptions)
    requires
        !o.natural_sort,
    ensures
        order_consistent(es, o),
{
    assert forall|i: int, j: int| 0 <= i < es.len() && 0 <= j < es.len() implies
        #[trigger] entry_order(es[i], es[j], o) == entry_order(es[j], es[i], o).flip() by {
        lemma_entry_order_flip(es[i], es[j], o);
    }
    assert forall|i: int, j: int, k: int|
        0 <= i < es.len() && 0 <= j < es.len() && 0 <= k < es.len()
            && #[trigger] entry_order(es[i], es[j], o) != Order::Greater
            && #[trigger] entry_order(es[j], es[k], o) != Order::Greater
        implies entry_order(es[i], es[k], o) != Order::Greater by {
        lemma_entry_order_trans(es[i], es[j], es[k], o);
    }
}


/// A list rearranged by a permutation holds the same entries, as many
/// times each.
proof fn lemma_permuted_multiset(new: Seq<TreeEntry>, old: Seq<TreeEntry>, p: Seq<int>)
    requires
        new.len() == old.len(),
        is_permutation(p, old.len()),
        forall|i: int| 0 <= i < new.len() ==> new[i] == old[#[trigger] p[i]],
    ensures
        new.to_multiset() == old.to_multiset(),
    decreases new.len(),
{
    broadcast use vstd::seq_lib::group_to_multiset_ensures;
    broadcast use vstd::multiset::group_multiset_axioms;
    let n = new.len() as int;
    if n > 0 {
        let k = p[n - 1];
        let new2 = new.drop_last();
        let old2 = old.remove(k);
        let p2 = Seq::new((n - 1) as nat, |i: int| if p[i] < k { p[i] } else { p[i] - 1 });
        assert forall|i: int| 0 <= i < n - 1 implies 0 <= #[trigger] p2[i] < n - 1 by {
            assert(p[i] != p[n - 1]);
        }
        assert forall|i: int, j: int| 0 <= i < j < n - 1 implies #[trigger] p2[i] != #[trigger] p2[j] by {
            assert(p[i] != p[j]);
            assert(p[i] != k);
            assert(p[j] != k);
        }
        assert forall|i: int| 0 <= i < new2.len() implies new2[i] == old2[#[trigger] p2[i]] by {
            assert(new2[i] == new[i]);
            assert(new[i] == old[p[i]]);
            assert(p[i] != k) by {
                assert(p[i] != p[n - 1]);
            }
        }
        lemma_permuted_multiset(new2, old2, p2);
        assert(new == new2.push(new[n - 1]));
        assert(new[n - 1] == old[k]);
        assert(old.to_multiset().count(old[k]) > 0) by {
            assert(old.contains(old[k]));
        }
        assert(old.to_multiset() =~= old2.to_multiset().insert(old[k]));
    } else {
        assert(old.len() == 0);
        assert(new =~= old);
    }
}

/// Sorting only rearranges: the sorted list holds exactly the entries of
/// the input list, each as many times.
pub proof fn lemma_sorted_same_entries(new: Seq<TreeEntry>, old: Seq<TreeEntry>, o: SortOptions)
    requires
        stably_sorted(new, old, o),
    ensures
        new.to_multiset() == old.to_multiset(),
{
    let p = choose|p: Seq<int>| sorted_with(new, old, o, p);
    lemma_permuted_multiset(new, old, p);
}

/// Reversing the sort flips every comparison; and, unless names are
/// compared in natural order, reversed sorting compares two entries the
/// way plain sorting compares them the other way round.
pub proof fn lemma_reverse_flips(a: TreeEntry, b: TreeEntry, o: SortOptions)
    ensures
        entry_order(a, b, (SortOptions { reverse: true, ..o }))
            == entry_order(a, b, (SortOptions { reverse: false, ..o })).flip(),
        !o.natural_sort ==> entry_order(a, b, (SortOptions { reverse: true, ..o }))
            == entry_order(b, a, (SortOptions { reverse: false, ..o })),
{
    if !o.natural_sort {
        lemma_entry_order_flip(a, b, (SortOptions { reverse: false, ..o }));
    }
}

/// Sorting by extension compares extensions as written under
/// `--case-sensitive`, and ignores their case otherwise: without it,
/// extensions that differ only in case tie (and the names decide), and
/// changing the case of an entry's extension never moves it against an
/// entry whose extension differs from it otherwise; with it, two
/// different extensions never tie, and are ordered as written.
pub proof fn lemma_extension_case(a: TreeEntry, a2: TreeEntry, b: TreeEntry, o: SortOptions)
    requires
        o.sort_type == SortType::Extension,
    ensures
        !o.case_sensitive && lowercase_text(extension_or_empty(a.name_view()))
            == lowercase_text(extension_or_empty(b.name_view()))
            ==> primary_order(a, b, o) == name_key_order(a, b, o),
        !o.case_sensitive && lowercase_text(extension_or_empty(a.name_view()))
            == lowercase_text(extension_or_empty(a2.name_view()))
            && lowercase_text(extension_or_empty(a.name_view()))
            != lowercase_text(extension_or_empty(b.name_view()))
            ==> primary_order(a, b, o) == primary_order(a2, b, o),
        o.case_sensitive && extension_or_empty(a.name_view()) != extension_or_empty(b.name_view())
            ==> primary_order(a, b, o) == name_order(extension_or_empty(a.name_view()), extension_or_empty(b.name_view()), false)
            && primary_order(a, b, o) != Order::Equal,
{
    lemma_name_order_equal(extension_key(a, o), extension_key(b, o), false);
}

/// Directories first: with directories-first or dotfiles-first sorting
/// (and no reversal), a directory sorts before any file, whatever the
/// sorting strategy.
pub proof fn lemma_directories_before_files(a: TreeEntry, b: TreeEntry, o: SortOptions)
    requires
        o.directories_first || o.dotfiles_first,
        !o.reverse,
        a.is_dir_view(),
        !b.is_dir_view(),
    ensures
        entry_order(a, b, o) == Order::Less,
{
}

/// Directories first holds for every sort, natural sorting included: in
/// a list sorted by category with directories-first or dotfiles-first and
/// no reversal, no file comes before a directory; with dotfiles-first the
/// categories come as dot-directories, directories, dotfiles, files.
pub proof fn lemma_categories_in_order(s: Seq<TreeEntry>, o: SortOptions, i: int, j: int)
    requires
        category_sorted(s, o),
        o.directories_first || o.dotfiles_first,
        !o.reverse,
        0 <= i < j < s.len(),
    ensures
        s[j].is_dir_view() ==> s[i].is_dir_view(),
        o.dotfiles_first ==> dotfile_rank(s[i]) <= dotfile_rank(s[j]),
{
    assert(category_key(s[i], o) <= category_key(s[j], o));
}

/// Dotfiles first orders the categories dot-directories, directories,
/// dotfiles, files: without reversal, an entry of an earlier category
/// sorts before one of a later category.
pub proof fn lemma_dotfile_categories(a: TreeEntry, b: TreeEntry, o: SortOptions)
    requires
        o.dotfiles_first,
        !o.reverse,
        dotfile_rank(a) < dotfile_rank(b),
    ensures
        entry_order(a, b, o) == Order::Less,
{
}

/// Compares two names case-insensitively: the order of their lowercased
/// forms.
pub fn compare_case_insensitive(a: &str, b: &str) -> (r: Order)
    ensures
        r == name_order(lowercase_text(a@), lowercase_text(b@), false),
{
    let la = lowercase(a);
    let lb = lowercase(b);
    compare_names(&chars_of(la.as_str()), &chars_of(lb.as_str()), false)
}

/// The default case-sensitive order: character by character, digits
/// before uppercase before lowercase before everything else (by code
/// point within a class), and a name before any longer name it begins.
pub fn compare_default_order(a: &str, b: &str) -> (r: Order)
    ensures
        r == name_order(a@, b@, true),
{
    compare_names(&chars_of(a), &chars_of(b), true)
}

} // verus!
