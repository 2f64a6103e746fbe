//! The classic tree view: the tree connectors and prefixes, cumulative
//! (`--du`) sizes, summary labels, and HTML escaping.

use vstd::prelude::*;
use crate::text::{push_char, push_decimal, decimal};
use crate::entry::TreeEntry;

verus! {

/// The HTML escape of one character.
pub open spec fn escape_char(c: char) -> Seq<char> {
    if c == '&' {
        seq!['&', 'a', 'm', 'p', ';']
    } else if c == '<' {
        seq!['&', 'l', 't', ';']
    } else if c == '>' {
        seq!['&', 'g', 't', ';']
    } else if c == '"' {
        seq!['&', 'q', 'u', 'o', 't', ';']
    } else if c == '\'' {
        seq!['&', '#', '3', '9', ';']
    } else {
        seq![c]
    }
}

/// Text escaped for HTML content and attribute values: each character
/// replaced by its escape.
pub open spec fn html_escaped(s: Seq<char>) -> Seq<char>
    decreases s.len(),
{
    if s.len() == 0 {
        Seq::empty()
    } else {
        html_escaped(s.drop_last()) + escape_char(s.last())
    }
}

/// Escapes text for safe inclusion in HTML content and attribute values.
pub fn html_escape(s: &str) -> (r: String)
    ensures
        r@ == html_escaped(s@),
{
    let cs = crate::text::chars_of(s);
    let mut out = String::new();
    let mut i: usize = 0;
    proof {
        assert(cs@.take(0) =~= Seq::<char>::empty());
    }
    while i < cs.len()
        invariant
            0 <= i <= cs@.len(),
            cs@ == s@,
            out@ == html_escaped(cs@.take(i as int)),
        decreases cs.len() - i,
    {
        let c = cs[i];
        let ghost before = out@;
        if c == '&' {
            push_char(&mut out, '&'); push_char(&mut out, 'a'); push_char(&mut out, 'm');
            push_char(&mut out, 'p'); push_char(&mut out, ';');
        } else if c == '<' {
            push_char(&mut out, '&'); push_char(&mut out, 'l'); push_char(&mut out, 't');
            push_char(&mut out, ';');
        } else if c == '>' {
            push_char(&mut out, '&'); push_char(&mut out, 'g'); push_char(&mut out, 't');
            push_char(&mut out, ';');
        } else if c == '"' {
            push_char(&mut out, '&'); push_char(&mut out, 'q'); push_char(&mut out, 'u');
            push_char(&mut out, 'o'); push_char(&mut out, 't'); push_char(&mut out, ';');
        } else if c == '\'' {
            push_char(&mut out, '&'); push_char(&mut out, '#'); push_char(&mut out, '3');
            push_char(&mut out, '9'); push_char(&mut out, ';');
        } else {
            push_char(&mut out, c);
        }
        proof {
            assert(cs@.take(i + 1).drop_last() =~= cs@.take(i as int));
            assert(cs@.take(i + 1).last() == c);
            assert(out@ =~= before + escape_char(c));
        }
        i = i + 1;
    }
    proof {
        assert(cs@.take(cs@.len() as int) =~= cs@);
    }
    out
}

/// The label of a summary line, e.g. `[+3 files]`, `[+1 file, +2 more]`.
pub open spec fn summary_text(hidden_files: nat, hidden_items: nat) -> Seq<char> {
    let files = if hidden_files > 0 {
        seq!['+'] + decimal(hidden_files) + (if hidden_files == 1 { seq![' ', 'f', 'i', 'l', 'e'] } else { seq![' ', 'f', 'i', 'l', 'e', 's'] })
    } else {
        Seq::empty()
    };
    let sep = if hidden_files > 0 && hidden_items > 0 { seq![',', ' '] } else { Seq::empty() };
    let more = if hidden_items > 0 {
        seq!['+'] + decimal(hidden_items) + seq![' ', 'm', 'o', 'r', 'e']
    } else {
        Seq::empty()
    };
    seq!['['] + files + sep + more + seq![']']
}

/// Formats a summary node's label, e.g. `[+3 files]` or `[+1 file, +2 more]`.
pub fn summary_label(hidden_files: usize, hidden_items: usize) -> (r: String)
    ensures
        r@ == summary_text(hidden_files as nat, hidden_items as nat),
{
    let mut out = String::new();
    push_char(&mut out, '[');
    if hidden_files > 0 {
        push_char(&mut out, '+');
        push_decimal(&mut out, hidden_files as u128);
        push_char(&mut out, ' ');
        push_char(&mut out, 'f');
        push_char(&mut out, 'i');
        push_char(&mut out, 'l');
        push_char(&mut out, 'e');
        if hidden_files != 1 {
            push_char(&mut out, 's');
        }
    }
    if hidden_files > 0 && hidden_items > 0 {
        push_char(&mut out, ',');
        push_char(&mut out, ' ');
    }
    if hidden_items > 0 {
        push_char(&mut out, '+');
        push_decimal(&mut out, hidden_items as u128);
        push_char(&mut out, ' ');
        push_char(&mut out, 'm');
        push_char(&mut out, 'o');
        push_char(&mut out, 'r');
        push_char(&mut out, 'e');
    }
    push_char(&mut out, ']');
    proof {
        assert(out@ =~= summary_text(hidden_files as nat, hidden_items as nat));
    }
    out
}


/// `depth - 1`, or 0 for depth 0.
pub open spec fn parent_level(d: int) -> int {
    if d > 0 { d - 1 } else { 0 }
}

/// A stack cut down to at most `n` entries.
pub open spec fn keep_at_most<T>(s: Seq<T>, n: int) -> Seq<T> {
    if n < s.len() { s.take(n) } else { s }
}

/// Whether node `i` has a later sibling: some later node at the same
/// depth with only deeper nodes in between.
pub open spec fn has_later_sibling(depths: Seq<usize>, i: int) -> bool {
    exists|j: int| i < j < depths.len() && #[trigger] depths[j] == depths[i]
        && forall|k: int| i < k < j ==> depths[k] > depths[i]
}

/// Whether some node at or after `from` has depth `d` with only deeper
/// nodes before it.
pub open spec fn pending_at(depths: Seq<usize>, from: int, d: int) -> bool {
    exists|j: int| from <= j < depths.len() && #[trigger] depths[j] == d
        && forall|k: int| from <= k < j ==> depths[k] > d
}

/// The stack of "ancestor was the last of its siblings" flags in force
/// before node `i`: each node cuts the stack to its parent level and
/// pushes its own flag.
pub open spec fn last_flags_before(depths: Seq<usize>, i: int) -> Seq<bool>
    decreases i,
{
    if i <= 0 {
        Seq::empty()
    } else {
        let s = last_flags_before(depths, i - 1);
        keep_at_most(s, parent_level(depths[i - 1] as int)).push(!has_later_sibling(depths, i - 1))
    }
}

/// The prefix text drawn for a stack of last-sibling flags: four spaces
/// under an ancestor that was last, a vertical bar and three spaces
/// otherwise.
pub open spec fn prefix_text(flags: Seq<bool>) -> Seq<char>
    decreases flags.len(),
{
    if flags.len() == 0 {
        Seq::empty()
    } else {
        prefix_text(flags.drop_last()) + (if flags.last() { seq![' ', ' ', ' ', ' '] } else { seq!['\u{2502}', ' ', ' ', ' '] })
    }
}

/// The prefix drawn before node `i`.
pub open spec fn node_prefix(depths: Seq<usize>, i: int) -> Seq<char> {
    prefix_text(keep_at_most(last_flags_before(depths, i), parent_level(depths[i] as int)))
}

/// The connector drawn for node `i`: a corner for the last of its
/// siblings, a tee otherwise.
pub open spec fn node_connector(depths: Seq<usize>, i: int) -> Seq<char> {
    if has_later_sibling(depths, i) {
        seq!['\u{251c}', '\u{2500}', '\u{2500}']
    } else {
        seq!['\u{2514}', '\u{2500}', '\u{2500}']
    }
}

proof fn lemma_pending_step(depths: Seq<usize>, i: int, e: int)
    requires
        0 < i <= depths.len(),
    ensures
        e == depths[i - 1] ==> pending_at(depths, i - 1, e),
        e < depths[i - 1] ==> pending_at(depths, i - 1, e) == pending_at(depths, i, e),
        e > depths[i - 1] ==> !pending_at(depths, i - 1, e),
        pending_at(depths, i, depths[i - 1] as int) == has_later_sibling(depths, i - 1),
{
    let idx = i - 1;
    let d = depths[idx] as int;
    if e == d {
        assert(depths[idx] == e);
    }
    if e < d {
        if pending_at(depths, i, e) {
            let j = choose|j: int| i <= j < depths.len() && #[trigger] depths[j] == e
                && forall|k: int| i <= k < j ==> depths[k] > e;
            assert(forall|k: int| idx <= k < j ==> depths[k] > e);
        }
        if pending_at(depths, idx, e) {
            let j = choose|j: int| idx <= j < depths.len() && #[trigger] depths[j] == e
                && forall|k: int| idx <= k < j ==> depths[k] > e;
            assert(j != idx);
            assert(forall|k: int| i <= k < j ==> depths[k] > e);
        }
    }
    if e > d {
        if pending_at(depths, idx, e) {
            let j = choose|j: int| idx <= j < depths.len() && #[trigger] depths[j] == e
                && forall|k: int| idx <= k < j ==> depths[k] > e;
            if j > idx {
                assert(depths[idx] > e);
            }
        }
    }
    if pending_at(depths, i, d) {
        let j = choose|j: int| i <= j < depths.len() && #[trigger] depths[j] == d
            && forall|k: int| i <= k < j ==> depths[k] > d;
        assert(depths[j] == depths[idx]);
    }
    if has_later_sibling(depths, idx) {
        let j = choose|j: int| idx < j < depths.len() && #[trigger] depths[j] == depths[idx]
            && forall|k: int| idx < k < j ==> depths[k] > depths[idx];
        assert(depths[j] == d);
    }
}

proof fn lemma_pending_beyond(depths: Seq<usize>, i: int, e: int)
    requires
        0 <= i <= depths.len(),
        i < depths.len() ==> e > depths[i],
    ensures
        !pending_at(depths, i, e),
{
    if pending_at(depths, i, e) {
        let j = choose|j: int| i <= j < depths.len() && #[trigger] depths[j] == e
            && forall|k: int| i <= k < j ==> depths[k] > e;
        if j > i {
            assert(depths[i] > e);
        }
    }
}

fn last_flags(depths: &[usize]) -> (is_last: Vec<bool>)
    requires
        forall|i: int| 0 <= i < depths@.len() ==> #[trigger] depths@[i] < usize::MAX,
    ensures
        is_last@.len() == depths@.len(),
        forall|i: int| 0 <= i < depths@.len() ==> #[trigger] is_last@[i] == !has_later_sibling(depths@, i),
{
    let n = depths.len();
    let mut is_last: Vec<bool> = Vec::new();
    let mut k: usize = 0;
    while k < n
        invariant
            0 <= k <= n,
            n == depths@.len(),
            is_last@.len() == k,
        decreases n - k,
    {
        is_last.push(false);
        k = k + 1;
    }
    let mut pending: Vec<bool> = Vec::new();
    let mut i = n;
    while i > 0
        invariant
            0 <= i <= n,
            n == depths@.len(),
            forall|q: int| 0 <= q < depths@.len() ==> #[trigger] depths@[q] < usize::MAX,
            is_last@.len() == n,
            i < n ==> pending@.len() == depths@[i as int] + 1,
            i == n ==> pending@.len() == 0,
            forall|d: int| 0 <= d < pending@.len() ==> #[trigger] pending@[d] == pending_at(depths@, i as int, d),
            forall|j: int| i <= j < n ==> #[trigger] is_last@[j] == !has_later_sibling(depths@, j),
        decreases i,
    {
        let idx = i - 1;
        let d = depths[idx];
        let ghost old_pending = pending@;
        if pending.len() <= d {
            let mut extra = pending.len();
            while extra <= d
                invariant
                    old_pending.len() <= extra <= d + 1,
                    d < usize::MAX,
                    pending@.len() == extra,
                    forall|e: int| 0 <= e < old_pending.len() ==> pending@[e] == old_pending[e],
                    forall|e: int| old_pending.len() <= e < extra ==> !pending@[e],
                decreases d + 1 - extra,
            {
                pending.push(false);
                extra = extra + 1;
            }
        } else {
            pending.truncate(d + 1);
        }
        proof {
            assert forall|e: int| 0 <= e < pending@.len() implies #[trigger] pending@[e] == pending_at(depths@, i as int, e) by {
                if e >= old_pending.len() {
                    lemma_pending_beyond(depths@, i as int, e);
                } else {
                    assert(pending@[e] == old_pending[e]);
                    assert(old_pending[e] == pending_at(depths@, i as int, e));
                }
            }
            lemma_pending_step(depths@, i as int, d as int);
        }
        let last = !pending[d];
        is_last.set(idx, last);
        pending.set(d, true);
        proof {
            assert forall|e: int| 0 <= e < pending@.len() implies #[trigger] pending@[e] == pending_at(depths@, idx as int, e) by {
                lemma_pending_step(depths@, i as int, e);
            }
        }
        i = idx;
    }
    is_last
}


fn render_prefix(flags: &Vec<bool>) -> (s: String)
    ensures
        s@ == prefix_text(flags@),
{
    let mut s = String::new();
    let mut i: usize = 0;
    proof {
        assert(flags@.take(0) =~= Seq::<bool>::empty());
    }
    while i < flags.len()
        invariant
            0 <= i <= flags@.len(),
            s@ == prefix_text(flags@.take(i as int)),
        decreases flags.len() - i,
    {
        let ghost before = s@;
        if flags[i] {
            push_char(&mut s, ' ');
        } else {
            push_char(&mut s, '\u{2502}');
        }
        push_char(&mut s, ' ');
        push_char(&mut s, ' ');
        push_char(&mut s, ' ');
        proof {
            assert(flags@.take(i + 1).drop_last() =~= flags@.take(i as int));
            assert(flags@.take(i + 1).last() == flags@[i as int]);
            assert(s@ =~= prefix_text(flags@.take(i + 1)));
        }
        i = i + 1;
    }
    proof {
        assert(flags@.take(flags@.len() as int) =~= flags@);
    }
    s
}

/// Builds the tree connectors: one `(prefix, connector)` pair per node, in
/// node order. A node is the last of its siblings when no later node of
/// the same depth follows before a shallower one; the prefix shows, for
/// each enclosing level, whether the ancestor there was last.
pub fn build_tree_info(depths: &[usize]) -> (info: Vec<(String, &'static str)>)
    requires
        forall|i: int| 0 <= i < depths@.len() ==> #[trigger] depths@[i] < usize::MAX,
    ensures
        info@.len() == depths@.len(),
        forall|i: int| 0 <= i < depths@.len() ==> (#[trigger] info@[i]).0@ == node_prefix(depths@, i)
            && info@[i].1@ == node_connector(depths@, i),
{
    let is_last = last_flags(depths);
    let n = depths.len();
    let mut stack: Vec<bool> = Vec::new();
    let mut info: Vec<(String, &'static str)> = Vec::new();
    let mut i: usize = 0;
    while i < n
        invariant
            0 <= i <= n,
            n == depths@.len(),
            is_last@.len() == n,
            forall|j: int| 0 <= j < n ==> #[trigger] is_last@[j] == !has_later_sibling(depths@, j),
            stack@ == last_flags_before(depths@, i as int),
            info@.len() == i,
            forall|j: int| 0 <= j < i ==> (#[trigger] info@[j]).0@ == node_prefix(depths@, j)
                && info@[j].1@ == node_connector(depths@, j),
        decreases n - i,
    {
        let d = depths[i];
        let keep = if d > 0 { d - 1 } else { 0 };
        if keep < stack.len() {
            stack.truncate(keep);
        }
        proof {
            assert(stack@ =~= keep_at_most(last_flags_before(depths@, i as int), parent_level(d as int)));
        }
        let prefix = render_prefix(&stack);
        let connector: &'static str = if is_last[i] { "\u{2514}\u{2500}\u{2500}" } else { "\u{251c}\u{2500}\u{2500}" };
        proof {
            reveal_strlit("\u{2514}\u{2500}\u{2500}");
            reveal_strlit("\u{251c}\u{2500}\u{2500}");
            assert(connector@ =~= node_connector(depths@, i as int));
        }
        stack.push(is_last[i]);
        info.push((prefix, connector));
        proof {
            assert(stack@ =~= last_flags_before(depths@, i + 1));
        }
        i = i + 1;
    }
    info
}


/// The depths of a depth-first listing: the first node is at depth 1,
/// every node at depth 1 or more, and no node more than one level deeper
/// than the node before it.
pub open spec fn depth_first(depths: Seq<usize>) -> bool {
    &&& depths.len() > 0 ==> depths[0] == 1
    &&& forall|i: int| 0 <= i < depths.len() ==> #[trigger] depths[i] >= 1
    &&& forall|i: int| 0 < i < depths.len() ==> #[trigger] depths[i] <= depths[i - 1] + 1
}

/// Node `j` is the enclosing node at level `l` of node `i`: the last node
/// before `i` at depth `l`, with only deeper nodes between them.
pub open spec fn is_ancestor_at(depths: Seq<usize>, i: int, j: int, l: int) -> bool {
    &&& 0 <= j < i
    &&& depths[j] == l
    &&& forall|k: int| j < k < i ==> #[trigger] depths[k] > l
}

/// Node `i` has an enclosing node at level `l`.
pub open spec fn has_ancestor_at(depths: Seq<usize>, i: int, l: int) -> bool {
    exists|j: int| #[trigger] is_ancestor_at(depths, i, j, l)
}

/// The flags in force before node `i` (`i > 0`) cover the levels up to
/// the depth of node `i - 1`, each telling whether the enclosing node at
/// that level is the last of its siblings.
proof fn lemma_flags_track_ancestors(depths: Seq<usize>, i: int)
    requires
        depth_first(depths),
        0 < i <= depths.len(),
    ensures
        last_flags_before(depths, i).len() == depths[i - 1],
        forall|l: int| 1 <= l <= depths[i - 1] ==> #[trigger] has_ancestor_at(depths, i, l),
        forall|l: int, j: int| 1 <= l <= depths[i - 1] && #[trigger] is_ancestor_at(depths, i, j, l)
            ==> last_flags_before(depths, i)[l - 1] == !has_later_sibling(depths, j),
    decreases i,
{
    let f = last_flags_before(depths, i);
    let d = depths[i - 1] as int;
    if i == 1 {
        assert(last_flags_before(depths, 0) =~= Seq::<bool>::empty());
        assert(is_ancestor_at(depths, 1, 0, 1));
        assert forall|l: int| 1 <= l <= depths[i - 1] implies #[trigger] has_ancestor_at(depths, i, l) by {
            assert(is_ancestor_at(depths, 1, 0, l));
        }
        assert forall|l: int, j: int| 1 <= l <= depths[i - 1] && #[trigger] is_ancestor_at(depths, i, j, l)
            implies f[l - 1] == !has_later_sibling(depths, j) by {
            assert(j == 0);
        }
    } else {
        lemma_flags_track_ancestors(depths, i - 1);
        let g = last_flags_before(depths, i - 1);
        let e = depths[i - 2] as int;
        assert(depths[i - 1] <= depths[i - 2] + 1);
        assert(depths[i - 1] >= 1);
        let kept = keep_at_most(g, parent_level(d));
        assert(kept.len() == d - 1);
        assert(f == kept.push(!has_later_sibling(depths, i - 1)));
        assert forall|l: int| 1 <= l <= d implies #[trigger] has_ancestor_at(depths, i, l) by {
            if l == d {
                assert(is_ancestor_at(depths, i, i - 1, l));
            } else {
                assert(has_ancestor_at(depths, i - 1, l));
                let j = choose|j: int| #[trigger] is_ancestor_at(depths, i - 1, j, l);
                assert(is_ancestor_at(depths, i, j, l));
            }
        }
        assert forall|l: int, j: int| 1 <= l <= d && #[trigger] is_ancestor_at(depths, i, j, l)
            implies f[l - 1] == !has_later_sibling(depths, j) by {
            if l == d {
                if j < i - 1 {
                    assert(depths[i - 1] > l);
                }
                assert(j == i - 1);
            } else {
                assert(j != i - 1);
                assert(is_ancestor_at(depths, i - 1, j, l));
                assert(f[l - 1] == g[l - 1]);
            }
        }
    }
}

/// The prefix text of a flag stack has one four-character column per
/// flag: blank for a set flag, a vertical bar otherwise.
proof fn lemma_prefix_text_columns(flags: Seq<bool>)
    ensures
        prefix_text(flags).len() == 4 * flags.len(),
        forall|l: int| 0 <= l < flags.len() ==> #[trigger] prefix_text(flags).subrange(4 * l, 4 * l + 4)
            == (if flags[l] { seq![' ', ' ', ' ', ' '] } else { seq!['\u{2502}', ' ', ' ', ' '] }),
    decreases flags.len(),
{
    if flags.len() > 0 {
        let pre = flags.drop_last();
        lemma_prefix_text_columns(pre);
        let t = prefix_text(flags);
        let tp = prefix_text(pre);
        assert forall|l: int| 0 <= l < flags.len() implies #[trigger] prefix_text(flags).subrange(4 * l, 4 * l + 4)
            == (if flags[l] { seq![' ', ' ', ' ', ' '] } else { seq!['\u{2502}', ' ', ' ', ' '] }) by {
            if l < pre.len() {
                assert(t.subrange(4 * l, 4 * l + 4) =~= tp.subrange(4 * l, 4 * l + 4));
                assert(pre[l] == flags[l]);
            } else {
                assert(t.subrange(4 * l, 4 * l + 4) =~= (if flags.last() { seq![' ', ' ', ' ', ' '] } else { seq!['\u{2502}', ' ', ' ', ' '] }));
            }
        }
    }
}

/// Every node of a depth-first listing has an enclosing node at each
/// level above its own.
pub proof fn lemma_ancestor_exists(depths: Seq<usize>, i: int, l: int)
    requires
        depth_first(depths),
        0 <= i < depths.len(),
        1 <= l < depths[i],
    ensures
        has_ancestor_at(depths, i, l),
{
    assert(i > 0);
    assert(depths[i] <= depths[i - 1] + 1);
    lemma_flags_track_ancestors(depths, i);
    assert(has_ancestor_at(depths, i, l));
}

/// How the tree is drawn, for a depth-first listing: node `i`'s prefix
/// has one four-character column per level above its own, and the column
/// of level `l` continues with `│` exactly when the enclosing node at that
/// level has a later sibling (it is blank under a last sibling).
pub proof fn lemma_prefix_columns(depths: Seq<usize>, i: int, l: int, j: int)
    requires
        depth_first(depths),
        0 <= i < depths.len(),
        1 <= l < depths[i],
        is_ancestor_at(depths, i, j, l),
    ensures
        node_prefix(depths, i).len() == 4 * (depths[i] - 1),
        node_prefix(depths, i).subrange(4 * (l - 1), 4 * l)
            == (if has_later_sibling(depths, j) { seq!['\u{2502}', ' ', ' ', ' '] } else { seq![' ', ' ', ' ', ' '] }),
{
    assert(i > 0);
    assert(depths[i] <= depths[i - 1] + 1);
    lemma_flags_track_ancestors(depths, i);
    let f = last_flags_before(depths, i);
    let kept = keep_at_most(f, parent_level(depths[i] as int));
    assert(kept.len() == depths[i] - 1);
    lemma_prefix_text_columns(kept);
    assert(kept[l - 1] == f[l - 1]);
    assert(prefix_text(kept).subrange(4 * (l - 1), 4 * (l - 1) + 4)
        == (if kept[l - 1] { seq![' ', ' ', ' ', ' '] } else { seq!['\u{2502}', ' ', ' ', ' '] }));
}

/// The first node of a depth-first listing, and every node at depth 1,
/// has an empty prefix.
pub proof fn lemma_top_level_prefix(depths: Seq<usize>, i: int)
    requires
        depth_first(depths),
        0 <= i < depths.len(),
        depths[i] == 1,
    ensures
        node_prefix(depths, i) == Seq::<char>::empty(),
{
    let kept = keep_at_most(last_flags_before(depths, i), parent_level(depths[i] as int));
    if i > 0 {
        lemma_flags_track_ancestors(depths, i);
    } else {
        assert(last_flags_before(depths, 0) =~= Seq::<bool>::empty());
    }
    assert(kept.len() == 0);
    assert(kept =~= Seq::<bool>::empty());
}

/// An entry's own size: its metadata's length, or 0 when unknown.
pub open spec fn own_size(e: TreeEntry) -> nat {
    match e.metadata_view() {
        Some(m) => m.len as nat,
        None => 0,
    }
}

/// The stack of enclosing entries (by index) in force before entry `i`:
/// each entry cuts the stack to its parent level and pushes itself.
pub open spec fn ancestors_before(es: Seq<TreeEntry>, i: int) -> Seq<int>
    decreases i,
{
    if i <= 0 {
        Seq::empty()
    } else {
        keep_at_most(ancestors_before(es, i - 1), parent_level(es[i - 1].depth_view() as int)).push(i - 1)
    }
}

/// The index of the entry that entry `i` is counted under, if any: the
/// innermost enclosing entry at its parent level.
pub open spec fn parent_index(es: Seq<TreeEntry>, i: int) -> Option<int> {
    let s = keep_at_most(ancestors_before(es, i), parent_level(es[i].depth_view() as int));
    if s.len() > 0 { Some(s.last()) } else { None }
}

proof fn lemma_ancestors_below(es: Seq<TreeEntry>, i: int)
    requires 0 <= i,
    ensures forall|k: int| 0 <= k < ancestors_before(es, i).len() ==> 0 <= #[trigger] ancestors_before(es, i)[k] < i,
    decreases i,
{
    if i > 0 {
        lemma_ancestors_below(es, i - 1);
        let s = ancestors_before(es, i - 1);
        let t = keep_at_most(s, parent_level(es[i - 1].depth_view() as int));
        assert forall|k: int| 0 <= k < t.len() implies 0 <= #[trigger] t[k] < i - 1 by {
            assert(t[k] == s[k]);
        }
    }
}

proof fn lemma_parent_index_below(es: Seq<TreeEntry>, i: int)
    requires 0 <= i < es.len(),
    ensures parent_index(es, i) matches Some(p) ==> 0 <= p < i,
{
    lemma_ancestors_below(es, i);
    let s = ancestors_before(es, i);
    let t = keep_at_most(s, parent_level(es[i].depth_view() as int));
    if t.len() > 0 {
        assert(t.last() == s[t.len() - 1]);
    }
}

/// The cumulative size of entry `i`: its own size plus the cumulative
/// sizes of the entries counted under it.
pub open spec fn cumulative_size(es: Seq<TreeEntry>, i: int) -> nat
    decreases es.len() - i, 1nat,
{
    if 0 <= i < es.len() {
        own_size(es[i]) + children_size(es, i, i + 1)
    } else {
        0
    }
}

/// The cumulative sizes of the entries from `from` on that are counted
/// directly under entry `i`.
pub open spec fn children_size(es: Seq<TreeEntry>, i: int, from: int) -> nat
    decreases es.len() - from + 1, 0nat,
{
    if from < 0 || from >= es.len() {
        0
    } else {
        (if parent_index(es, from) == Some(i) { cumulative_size(es, from) } else { 0 })
            + children_size(es, i, from + 1)
    }
}

/// The sum of the cumulative sizes of the top-level (depth 1) entries
/// from `from` on.
pub open spec fn top_level_size(es: Seq<TreeEntry>, from: int) -> nat
    decreases es.len() - from,
{
    if from < 0 || from >= es.len() {
        0
    } else {
        (if es[from].depth_view() == 1 { cumulative_size(es, from) } else { 0 }) + top_level_size(es, from + 1)
    }
}


/// `x` reduced to the range of `u64` (what wrapping arithmetic keeps).
pub open spec fn wrap64(x: nat) -> nat {
    x % 0x1_0000_0000_0000_0000
}

proof fn lemma_wrap_add(a: nat, b: nat, x: u64, y: u64)
    requires
        x == wrap64(a),
        y == wrap64(b),
    ensures
        vstd::wrapping::u64_specs::wrapping_add(x, y) == wrap64(a + b),
{
    vstd::arithmetic::div_mod::lemma_add_mod_noop(a as int, b as int, 0x1_0000_0000_0000_0000);
    vstd::arithmetic::div_mod::lemma_mod_bound(a as int, 0x1_0000_0000_0000_0000);
    vstd::arithmetic::div_mod::lemma_mod_bound(b as int, 0x1_0000_0000_0000_0000);
    if x + y >= 0x1_0000_0000_0000_0000 {
        vstd::arithmetic::div_mod::lemma_mod_sub_multiples_vanish((x + y) as int, 0x1_0000_0000_0000_0000);
        vstd::arithmetic::div_mod::lemma_small_mod((x + y - 0x1_0000_0000_0000_0000) as nat, 0x1_0000_0000_0000_0000);
    } else {
        vstd::arithmetic::div_mod::lemma_small_mod((x + y) as nat, 0x1_0000_0000_0000_0000);
    }
}

proof fn lemma_children_size_step(es: Seq<TreeEntry>, j: int, from: int)
    requires
        0 <= from < es.len(),
    ensures
        children_size(es, j, from) == (if parent_index(es, from) == Some(j) { cumulative_size(es, from) } else { 0 })
            + children_size(es, j, from + 1),
{
}

/// The depths of a list of entries.
pub open spec fn depths_of(es: Seq<TreeEntry>) -> Seq<usize> {
    Seq::new(es.len(), |i: int| es[i].depth_view() as usize)
}

/// The sum of the own sizes of the entries `from..to`.
pub open spec fn own_total(es: Seq<TreeEntry>, from: int, to: int) -> nat
    decreases to - from,
{
    if from >= to { 0 } else { own_size(es[from]) + own_total(es, from + 1, to) }
}

/// Where the subtree of node `i` ends: the first node from `k` on at the
/// depth of `i` or shallower (the end of the list when there is none).
pub open spec fn subtree_end(depths: Seq<usize>, i: int, k: int) -> int
    decreases depths.len() - k,
{
    if k >= depths.len() {
        depths.len() as int
    } else if depths[k] <= depths[i] {
        k
    } else {
        subtree_end(depths, i, k + 1)
    }
}

proof fn lemma_subtree_end(depths: Seq<usize>, i: int, k: int)
    requires
        0 <= i < k <= depths.len(),
        forall|m: int| i < m < k ==> #[trigger] depths[m] > depths[i],
    ensures
        k <= subtree_end(depths, i, k) <= depths.len(),
        forall|m: int| i < m < subtree_end(depths, i, k) ==> #[trigger] depths[m] > depths[i],
        subtree_end(depths, i, k) < depths.len() ==> depths[subtree_end(depths, i, k)] <= depths[i],
    decreases depths.len() - k,
{
    if k < depths.len() && depths[k] > depths[i] {
        lemma_subtree_end(depths, i, k + 1);
    }
}

proof fn lemma_own_total_split(es: Seq<TreeEntry>, a: int, b: int, c: int)
    requires
        a <= b <= c,
    ensures
        own_total(es, a, c) == own_total(es, a, b) + own_total(es, b, c),
    decreases b - a,
{
    if a < b {
        lemma_own_total_split(es, a + 1, b, c);
    }
}

/// In a depth-first listing, the stack of enclosing entries before entry
/// `i` holds, at each level up to the depth of entry `i - 1`, the
/// enclosing entry at that level.
proof fn lemma_ancestors_track(es: Seq<TreeEntry>, i: int)
    requires
        depth_first(depths_of(es)),
        0 < i <= es.len(),
    ensures
        ancestors_before(es, i).len() == depths_of(es)[i - 1],
        forall|l: int| 1 <= l <= depths_of(es)[i - 1] ==>
            is_ancestor_at(depths_of(es), i, #[trigger] ancestors_before(es, i)[l - 1], l),
    decreases i,
{
    let ds = depths_of(es);
    let a = ancestors_before(es, i);
    let d = ds[i - 1] as int;
    assert(ds[i - 1] == es[i - 1].depth_view());
    if i == 1 {
        assert(ancestors_before(es, 0) =~= Seq::<int>::empty());
        assert(a =~= seq![0int]);
    } else {
        lemma_ancestors_track(es, i - 1);
        let b = ancestors_before(es, i - 1);
        assert(ds[i - 1] <= ds[i - 2] + 1);
        assert(ds[i - 1] >= 1);
        let kept = keep_at_most(b, parent_level(d));
        assert(kept.len() == d - 1);
        assert(a == kept.push(i - 1));
        assert forall|l: int| 1 <= l <= d implies is_ancestor_at(ds, i, #[trigger] a[l - 1], l) by {
            if l < d {
                assert(a[l - 1] == b[l - 1]);
                assert(is_ancestor_at(ds, i - 1, b[l - 1], l));
            }
        }
    }
}

proof fn lemma_ancestor_unique(depths: Seq<usize>, k: int, j1: int, j2: int, l: int)
    requires
        is_ancestor_at(depths, k, j1, l),
        is_ancestor_at(depths, k, j2, l),
    ensures
        j1 == j2,
{
    if j1 < j2 {
        assert(depths[j2] > l);
    } else if j2 < j1 {
        assert(depths[j1] > l);
    }
}

/// In a depth-first listing, an entry is counted under the enclosing
/// entry one level up, and top-level entries under none.
proof fn lemma_parent_is_ancestor(es: Seq<TreeEntry>, k: int)
    requires
        depth_first(depths_of(es)),
        0 <= k < es.len(),
    ensures
        depths_of(es)[k] == 1 ==> parent_index(es, k) is None,
        depths_of(es)[k] > 1 ==> (parent_index(es, k) matches Some(j) && is_ancestor_at(depths_of(es), k, j, depths_of(es)[k] - 1)),
{
    let ds = depths_of(es);
    assert(ds[k] == es[k].depth_view());
    assert(ds[k] >= 1);
    let pl = parent_level(es[k].depth_view() as int);
    if k == 0 {
        assert(ancestors_before(es, 0) =~= Seq::<int>::empty());
    } else {
        lemma_ancestors_track(es, k);
        assert(ds[k] <= ds[k - 1] + 1);
        let a = ancestors_before(es, k);
        let kept = keep_at_most(a, pl);
        assert(kept.len() == ds[k] - 1);
        if ds[k] > 1 {
            assert(kept.last() == a[ds[k] - 2]);
            assert(is_ancestor_at(ds, k, a[(ds[k] - 1) - 1], ds[k] - 1));
        }
    }
}

/// Whether entry `k` is counted directly under entry `i`.
proof fn lemma_parent_is_i(es: Seq<TreeEntry>, i: int, k: int)
    requires
        depth_first(depths_of(es)),
        0 <= i < es.len(),
        0 <= k < es.len(),
    ensures
        parent_index(es, k) == Some(i) <==> (depths_of(es)[k] == depths_of(es)[i] + 1 && is_ancestor_at(depths_of(es), k, i, depths_of(es)[i] as int)),
{
    let ds = depths_of(es);
    lemma_parent_is_ancestor(es, k);
    if ds[k] > 1 {
        let j = parent_index(es, k)->0;
        if ds[k] == ds[i] + 1 && is_ancestor_at(ds, k, i, ds[i] as int) {
            lemma_ancestor_unique(ds, k, i, j, ds[k] - 1);
        }
    }
}

proof fn lemma_children_skip(es: Seq<TreeEntry>, i: int, a: int, b: int)
    requires
        0 <= a <= b <= es.len(),
        forall|k: int| a <= k < b ==> #[trigger] parent_index(es, k) != Some(i),
    ensures
        children_size(es, i, a) == children_size(es, i, b),
    decreases b - a,
{
    if a < b {
        lemma_children_skip(es, i, a + 1, b);
    }
}

proof fn lemma_top_skip(es: Seq<TreeEntry>, a: int, b: int)
    requires
        0 <= a <= b <= es.len(),
        forall|k: int| a <= k < b ==> #[trigger] es[k].depth_view() != 1,
    ensures
        top_level_size(es, a) == top_level_size(es, b),
    decreases b - a,
{
    if a < b {
        lemma_top_skip(es, a + 1, b);
    }
}

/// The entries counted under `i` from a child `from` on (or from the end
/// of its subtree) add up to the own sizes from there to the end of the
/// subtree of `i`.
proof fn lemma_children_total(es: Seq<TreeEntry>, i: int, from: int)
    requires
        depth_first(depths_of(es)),
        0 <= i < from <= subtree_end(depths_of(es), i, i + 1),
        from == subtree_end(depths_of(es), i, i + 1) || depths_of(es)[from] == depths_of(es)[i] + 1,
        forall|m: int| i < m < from ==> #[trigger] depths_of(es)[m] > depths_of(es)[i],
    ensures
        children_size(es, i, from) == own_total(es, from, subtree_end(depths_of(es), i, i + 1)),
    decreases es.len() - from + 1, 0nat,
{
    let ds = depths_of(es);
    lemma_subtree_end(ds, i, i + 1);
    let e = subtree_end(ds, i, i + 1);
    if from == e {
        assert forall|k: int| e <= k < es.len() implies #[trigger] parent_index(es, k) != Some(i) by {
            lemma_parent_is_i(es, i, k);
            if parent_index(es, k) == Some(i) {
                if k > e {
                    assert(ds[e] <= ds[i]);
                }
            }
        }
        lemma_children_skip(es, i, e, es.len() as int);
    } else {
        let c = from;
        lemma_subtree_end(ds, c, c + 1);
        let ec = subtree_end(ds, c, c + 1);
        assert(ec <= e) by {
            if ec > e {
                assert(ds[e] > ds[c]);
                assert(ds[e] <= ds[i]);
            }
        }
        assert forall|m: int| i < m < ec implies #[trigger] ds[m] > ds[i] by {
            if m >= c {
                if m > c {
                    assert(ds[m] > ds[c]);
                }
            }
        }
        lemma_parent_is_i(es, i, c);
        assert(is_ancestor_at(ds, c, i, ds[i] as int));
        assert(parent_index(es, c) == Some(i));
        assert forall|k: int| c + 1 <= k < ec implies #[trigger] parent_index(es, k) != Some(i) by {
            lemma_parent_is_i(es, i, k);
            assert(ds[k] > ds[c]);
        }
        lemma_children_skip(es, i, c + 1, ec);
        lemma_cumulative_is_subtree_sum(es, c);
        if ec < e {
            assert(ds[ec] > ds[i]);
            assert(ds[ec] <= ds[c]);
        }
        lemma_children_total(es, i, ec);
        lemma_own_total_split(es, c, ec, e);
    }
}

/// Under `--du`, a directory's size is its own size plus the sizes of
/// everything beneath it: in a depth-first listing, the cumulative size of
/// entry `i` is the sum of the own sizes of `i` and of the entries after
/// it up to the next entry at its depth or shallower.
pub proof fn lemma_cumulative_is_subtree_sum(es: Seq<TreeEntry>, i: int)
    requires
        depth_first(depths_of(es)),
        0 <= i < es.len(),
    ensures
        cumulative_size(es, i) == own_total(es, i, subtree_end(depths_of(es), i, i + 1)),
    decreases es.len() - i, 1nat,
{
    let ds = depths_of(es);
    lemma_subtree_end(ds, i, i + 1);
    let e = subtree_end(ds, i, i + 1);
    if i + 1 < e {
        assert(ds[i + 1] <= ds[i] + 1);
        assert(ds[i + 1] > ds[i]);
    }
    lemma_children_total(es, i, i + 1);
}

proof fn lemma_top_total(es: Seq<TreeEntry>, from: int)
    requires
        depth_first(depths_of(es)),
        0 <= from <= es.len(),
        from == es.len() || depths_of(es)[from] == 1,
    ensures
        top_level_size(es, from) == own_total(es, from, es.len() as int),
    decreases es.len() - from,
{
    let ds = depths_of(es);
    if from < es.len() {
        lemma_subtree_end(ds, from, from + 1);
        let e = subtree_end(ds, from, from + 1);
        assert(es[from].depth_view() == 1);
        assert forall|k: int| from + 1 <= k < e implies #[trigger] es[k].depth_view() != 1 by {
            assert(ds[k] > ds[from]);
            assert(ds[k] == es[k].depth_view());
        }
        lemma_top_skip(es, from + 1, e);
        lemma_cumulative_is_subtree_sum(es, from);
        if e < es.len() {
            assert(ds[e] >= 1);
        }
        lemma_top_total(es, e);
        lemma_own_total_split(es, from, e, es.len() as int);
    }
}

/// The grand total under `--du` counts every entry exactly once: in a
/// depth-first listing, the total of the top-level entries' cumulative
/// sizes is the sum of all entries' own sizes.
pub proof fn lemma_total_is_sum(es: Seq<TreeEntry>)
    requires
        depth_first(depths_of(es)),
    ensures
        top_level_size(es, 0) == own_total(es, 0, es.len() as int),
{
    if es.len() > 0 {
        assert(depths_of(es)[0] == 1);
    }
    lemma_top_total(es, 0);
}

/// Computes each entry's cumulative apparent size (its own size plus,
/// for the entries counted under it, their cumulative sizes), with the
/// entries in depth-first order, and the total of the top-level entries.
/// Sizes are summed with wrapping `u64` arithmetic, as a release build of
/// plain additions does.
pub fn compute_cumulative_sizes(entries: &[TreeEntry]) -> (r: (Vec<u64>, u64))
    ensures
        r.0@.len() == entries@.len(),
        forall|i: int| 0 <= i < entries@.len() ==> #[trigger] r.0@[i] == wrap64(cumulative_size(entries@, i)),
        r.1 == wrap64(top_level_size(entries@, 0)),
{
    let ghost es = entries@;
    let n = entries.len();
    let mut sizes: Vec<u64> = Vec::new();
    let mut parents: Vec<Option<usize>> = Vec::new();
    let mut ancestors: Vec<usize> = Vec::new();
    let mut i: usize = 0;
    while i < n
        invariant
            0 <= i <= n,
            n == es.len(),
            es == entries@,
            sizes@.len() == i,
            parents@.len() == i,
            forall|k: int| 0 <= k < i ==> #[trigger] sizes@[k] == own_size(es[k]),
            forall|k: int| 0 <= k < i ==> match #[trigger] parents@[k] {
                Some(p) => parent_index(es, k) == Some(p as int),
                None => parent_index(es, k) is None,
            },
            ancestors@.len() == ancestors_before(es, i as int).len(),
            forall|k: int| 0 <= k < ancestors@.len() ==> #[trigger] ancestors@[k] as int == ancestors_before(es, i as int)[k],
        decreases n - i,
    {
        let e = &entries[i];
        let own = match e.metadata() {
            Some(m) => m.len,
            None => 0,
        };
        sizes.push(own);
        let d = e.depth();
        let keep = if d > 0 { d - 1 } else { 0 };
        if keep < ancestors.len() {
            ancestors.truncate(keep);
        }
        let ghost cut = keep_at_most(ancestors_before(es, i as int), parent_level(d as int));
        proof {
            assert(ancestors@.len() == cut.len());
            assert forall|k: int| 0 <= k < ancestors@.len() implies #[trigger] ancestors@[k] as int == cut[k] by {}
        }
        let parent = if ancestors.len() > 0 { Some(ancestors[ancestors.len() - 1]) } else { None };
        let ghost old_parents = parents@;
        parents.push(parent);
        ancestors.push(i);
        proof {
            assert(es[i as int] == *e);
            assert forall|k: int| 0 <= k < i + 1 implies match #[trigger] parents@[k] {
                Some(p) => parent_index(es, k) == Some(p as int),
                None => parent_index(es, k) is None,
            } by {
                if k < i {
                    assert(parents@[k] == old_parents[k]);
                }
            }
        }
        i = i + 1;
    }
    proof {
        assert forall|j: int| 0 <= j < n implies #[trigger] sizes@[j] == wrap64(own_size(es[j]) + children_size(es, j, n as int)) by {
            vstd::arithmetic::div_mod::lemma_small_mod(own_size(es[j]), 0x1_0000_0000_0000_0000);
        }
    }
    let mut i = n;
    while i > 0
        invariant
            0 <= i <= n,
            n == es.len(),
            es == entries@,
            sizes@.len() == n,
            parents@.len() == n,
            forall|k: int| 0 <= k < n ==> match #[trigger] parents@[k] {
                Some(p) => parent_index(es, k) == Some(p as int),
                None => parent_index(es, k) is None,
            },
            forall|j: int| i <= j < n ==> #[trigger] sizes@[j] == wrap64(cumulative_size(es, j)),
            forall|j: int| 0 <= j < i ==> #[trigger] sizes@[j] == wrap64(own_size(es[j]) + children_size(es, j, i as int)),
        decreases i,
    {
        let idx = i - 1;
        let ghost old_sizes = sizes@;
        proof {
            assert(sizes@[idx as int] == wrap64(cumulative_size(es, idx as int)));
            lemma_parent_index_below(es, idx as int);
        }
        match parents[idx] {
            Some(p) => {
                let total = sizes[p].wrapping_add(sizes[idx]);
                sizes.set(p, total);
                proof {
                    lemma_children_size_step(es, p as int, idx as int);
                    lemma_wrap_add(own_size(es[p as int]) + children_size(es, p as int, i as int), cumulative_size(es, idx as int), old_sizes[p as int], old_sizes[idx as int]);
                    assert forall|j: int| 0 <= j < idx implies #[trigger] sizes@[j] == wrap64(own_size(es[j]) + children_size(es, j, idx as int)) by {
                        lemma_children_size_step(es, j, idx as int);
                        if j != p {
                            assert(sizes@[j] == old_sizes[j]);
                        }
                    }
                }
            },
            None => {
                proof {
                    assert forall|j: int| 0 <= j < idx implies #[trigger] sizes@[j] == wrap64(own_size(es[j]) + children_size(es, j, idx as int)) by {
                        lemma_children_size_step(es, j, idx as int);
                    }
                }
            },
        }
        i = idx;
    }
    let mut total: u64 = 0;
    let mut k = n;
    while k > 0
        invariant
            0 <= k <= n,
            n == es.len(),
            es == entries@,
            sizes@.len() == n,
            forall|j: int| 0 <= j < n ==> #[trigger] sizes@[j] == wrap64(cumulative_size(es, j)),
            total == wrap64(top_level_size(es, k as int)),
        decreases k,
    {
        let idx = k - 1;
        if entries[idx].depth() == 1 {
            proof {
                lemma_wrap_add(cumulative_size(es, idx as int), top_level_size(es, k as int), sizes@[idx as int], total);
            }
            total = sizes[idx].wrapping_add(total);
        } else {
            proof {
                assert(top_level_size(es, idx as int) == top_level_size(es, k as int));
            }
        }
        k = idx;
    }
    (sizes, total)
}


} // verus!
