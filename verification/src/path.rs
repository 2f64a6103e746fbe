//! The component structure of Unix paths, as `std::path::Path` sees it.
//!
//! A path is compared, split into a parent and a file name, and given an
//! extension through its components: repeated separators are ignored,
//! `.` is dropped except at the start of a relative path, and a leading
//! `/` is a root component. Components are modelled as character
//! sequences, the root as `"/"` and a leading current-directory marker as
//! `"."` (neither of which a normal component can be).

use vstd::prelude::*;
use crate::text::{push_char, chars_of};

verus! {

/// The pieces of `s` between `/` separators, empty ones included; there
/// is always at least one.
pub open spec fn split_slash(s: Seq<char>) -> Seq<Seq<char>>
    decreases s.len(),
{
    if s.len() == 0 {
        seq![Seq::empty()]
    } else {
        let pre = split_slash(s.drop_last());
        if s.last() == '/' {
            pre.push(Seq::empty())
        } else {
            pre.update(pre.len() - 1, pre.last().push(s.last()))
        }
    }
}

/// A piece that is a real (normal, parent or current-directory) name
/// rather than an empty piece or a `.` that is normalized away.
pub open spec fn is_named(seg: Seq<char>) -> bool {
    seg.len() > 0 && seg != seq!['.']
}

/// The pieces that survive normalization, in order.
pub open spec fn keep_named(segs: Seq<Seq<char>>) -> Seq<Seq<char>>
    decreases segs.len(),
{
    if segs.len() == 0 {
        Seq::empty()
    } else {
        let pre = keep_named(segs.drop_last());
        if is_named(segs.last()) { pre.push(segs.last()) } else { pre }
    }
}

/// Whether `s` is absolute (begins with the root).
pub open spec fn is_rooted(s: Seq<char>) -> bool {
    s.len() > 0 && s[0] == '/'
}

/// The components of a path (`Path::components`): the root `"/"` for an
/// absolute path, a leading `"."` for a relative path that begins with
/// the current directory, then every non-empty piece other than `.`.
pub open spec fn path_components(s: Seq<char>) -> Seq<Seq<char>> {
    let segs = split_slash(s);
    if is_rooted(s) {
        seq![seq!['/']] + keep_named(segs)
    } else if segs[0] == seq!['.'] {
        seq![seq!['.']] + keep_named(segs)
    } else {
        keep_named(segs)
    }
}

/// A normal component: a name other than the root, `.` and `..`.
pub open spec fn is_normal_component(c: Seq<char>) -> bool {
    c != seq!['/'] && c != seq!['.'] && c != seq!['.', '.']
}

/// The components of the parent of a path with components `c`
/// (`Path::parent`): all but the last, unless there are none or the last
/// is the root.
pub open spec fn parent_components(c: Seq<Seq<char>>) -> Option<Seq<Seq<char>>> {
    if c.len() > 0 && c.last() != seq!['/'] { Some(c.drop_last()) } else { None }
}

pub(crate) proof fn lemma_split_slash_nonempty(s: Seq<char>)
    ensures split_slash(s).len() >= 1,
    decreases s.len(),
{
    if s.len() > 0 {
        lemma_split_slash_nonempty(s.drop_last());
    }
}

/// The pieces of a prefix of `s` agree with those of `s` up to the last
/// piece of the prefix; in particular, once a separator has been seen the
/// first piece no longer changes.
proof fn lemma_split_slash_prefix(s: Seq<char>, k: int)
    requires
        0 <= k <= s.len(),
    ensures
        1 <= split_slash(s.take(k)).len() <= split_slash(s).len(),
        split_slash(s.take(k)).len() > 1 ==> split_slash(s)[0] == split_slash(s.take(k))[0],
    decreases s.len(),
{
    lemma_split_slash_nonempty(s.take(k));
    if k == s.len() {
        assert(s.take(k) =~= s);
    } else {
        let t = s.drop_last();
        assert(t.take(k) =~= s.take(k));
        lemma_split_slash_prefix(t, k);
        lemma_split_slash_nonempty(t);
    }
}

/// No piece of `split_slash(s)` holds a separator.
pub(crate) proof fn lemma_split_slash_no_slash(s: Seq<char>)
    ensures
        forall|i: int, k: int| 0 <= i < split_slash(s).len() && 0 <= k < split_slash(s)[i].len()
            ==> #[trigger] split_slash(s)[i][k] != '/',
    decreases s.len(),
{
    if s.len() > 0 {
        let pre = split_slash(s.drop_last());
        lemma_split_slash_no_slash(s.drop_last());
        lemma_split_slash_nonempty(s.drop_last());
        let cur = split_slash(s);
        assert forall|i: int, k: int| 0 <= i < cur.len() && 0 <= k < cur[i].len() implies #[trigger] cur[i][k] != '/' by {
            if s.last() != '/' && i == pre.len() - 1 {
                if k < pre[i].len() {
                    assert(cur[i][k] == pre[i][k]);
                }
            } else if i < pre.len() {
                assert(cur[i] == pre[i]);
            }
        }
    }
}

/// A text without separators is a single piece.
pub(crate) proof fn lemma_split_slash_single(s: Seq<char>)
    requires
        forall|k: int| 0 <= k < s.len() ==> #[trigger] s[k] != '/',
    ensures
        split_slash(s) == seq![s],
    decreases s.len(),
{
    if s.len() > 0 {
        assert forall|k: int| 0 <= k < s.drop_last().len() implies #[trigger] s.drop_last()[k] != '/' by {
            assert(s.drop_last()[k] == s[k]);
        }
        lemma_split_slash_single(s.drop_last());
        assert(s.last() != '/');
        assert(s.drop_last().push(s.last()) =~= s);
        assert(split_slash(s) =~= seq![s]);
    } else {
        assert(s =~= Seq::<char>::empty());
    }
}

/// Splitting `a/b` gives the pieces of `a` followed by those of `b`.
pub(crate) proof fn lemma_split_slash_join(a: Seq<char>, b: Seq<char>)
    ensures
        split_slash(a + seq!['/'] + b) == split_slash(a) + split_slash(b),
    decreases b.len(),
{
    lemma_split_slash_nonempty(a);
    if b.len() == 0 {
        assert(a + seq!['/'] + b =~= a.push('/'));
        assert((a + seq!['/'] + b).drop_last() =~= a);
        assert(split_slash(a + seq!['/'] + b) =~= split_slash(a) + split_slash(b));
    } else {
        let b2 = b.drop_last();
        lemma_split_slash_join(a, b2);
        lemma_split_slash_nonempty(b2);
        let whole = a + seq!['/'] + b;
        assert(whole.drop_last() =~= a + seq!['/'] + b2);
        assert(whole.last() == b.last());
        assert(split_slash(whole) =~= split_slash(a) + split_slash(b));
    }
}

/// Normalization keeps the named pieces of `a + b`: those of `a`, then
/// those of `b`.
pub(crate) proof fn lemma_keep_named_concat(a: Seq<Seq<char>>, b: Seq<Seq<char>>)
    ensures
        keep_named(a + b) == keep_named(a) + keep_named(b),
    decreases b.len(),
{
    if b.len() == 0 {
        assert(a + b =~= a);
        assert(keep_named(b) =~= Seq::<Seq<char>>::empty());
        assert(keep_named(a) + keep_named(b) =~= keep_named(a));
    } else {
        lemma_keep_named_concat(a, b.drop_last());
        assert((a + b).drop_last() =~= a + b.drop_last());
        assert((a + b).last() == b.last());
        assert(keep_named(a + b) =~= keep_named(a) + keep_named(b));
    }
}

/// Pieces that are all named survive normalization unchanged.
pub(crate) proof fn lemma_keep_named_all(p: Seq<Seq<char>>)
    requires
        forall|k: int| 0 <= k < p.len() ==> is_named(#[trigger] p[k]),
    ensures
        keep_named(p) == p,
    decreases p.len(),
{
    if p.len() > 0 {
        assert forall|k: int| 0 <= k < p.drop_last().len() implies is_named(#[trigger] p.drop_last()[k]) by {
            assert(p.drop_last()[k] == p[k]);
        }
        lemma_keep_named_all(p.drop_last());
        assert(is_named(p[p.len() - 1]));
        assert(p.drop_last().push(p.last()) =~= p);
    }
}

fn one_char_string(c: char) -> (s: String)
    ensures s@ == seq![c],
{
    let mut s = String::new();
    push_char(&mut s, c);
    s
}

/// Splits a path into its components (`Path::components`).
pub fn components(s: &str) -> (v: Vec<String>)
    ensures
        v.deep_view() == path_components(s@),
{
    let cs = chars_of(s);
    let n = cs.len();
    let rooted = n > 0 && cs[0] == '/';
    let mut out: Vec<String> = Vec::new();
    if rooted {
        out.push(one_char_string('/'));
    }
    let mut cur = String::new();
    let mut first = true;
    let mut i: usize = 0;
    proof {
        assert(cs@.take(0) =~= Seq::<char>::empty());
    }
    while i < n
        invariant
            n == cs@.len(),
            cs@ == s@,
            0 <= i <= n,
            rooted == is_rooted(s@),
            split_slash(cs@.take(i as int)).len() >= 1,
            cur@ == split_slash(cs@.take(i as int)).last(),
            first == (split_slash(cs@.take(i as int)).len() == 1),
            !first ==> split_slash(cs@.take(i as int))[0] == split_slash(s@)[0],
            out.deep_view() == (if rooted {
                seq![seq!['/']]
            } else if !first && split_slash(s@)[0] == seq!['.'] {
                seq![seq!['.']]
            } else {
                Seq::<Seq<char>>::empty()
            }) + keep_named(split_slash(cs@.take(i as int)).drop_last()),
        decreases n - i,
    {
        let c = cs[i];
        let ghost pre = cs@.take(i as int);
        let ghost next = cs@.take(i + 1);
        proof {
            assert(next.drop_last() =~= pre);
            assert(next.last() == c);
            lemma_split_slash_nonempty(pre);
        }
        if c == '/' {
            let ghost old_out = out.deep_view();
            let seg = cur;
            cur = String::new();
            let seg_len = seg.as_str().unicode_len();
            let is_dot = seg_len == 1 && seg.as_str().get_char(0) == '.';
            proof {
                assert(is_dot == (seg@ =~= seq!['.']));
                assert(split_slash(next) == split_slash(pre).push(Seq::empty()));
                assert(split_slash(next).drop_last() =~= split_slash(pre));
                assert(split_slash(pre).last() == seg@);
                if first {
                    assert(split_slash(pre).drop_last() =~= Seq::<Seq<char>>::empty());
                    assert(split_slash(next)[0] == seg@);
                }
            }
            if seg_len > 0 && !is_dot {
                out.push(seg);
                proof {
                    assert(out.deep_view() =~= old_out.push(split_slash(pre).last()));
                }
            } else if first && !rooted && is_dot {
                out.push(seg);
                proof {
                    assert(out.deep_view() =~= seq![seq!['.']]);
                }
            }
            first = false;
        } else {
            push_char(&mut cur, c);
            proof {
                assert(split_slash(next).drop_last() =~= split_slash(pre).drop_last());
            }
        }
        proof {
            lemma_split_slash_prefix(s@, i + 1);
        }
        i = i + 1;
    }
    let ghost segs = split_slash(cs@);
    let ghost old_out = out.deep_view();
    proof {
        assert(cs@.take(n as int) =~= cs@);
        lemma_split_slash_nonempty(cs@);
        assert(segs =~= segs.drop_last().push(segs.last()));
    }
    let cur_len = cur.as_str().unicode_len();
    let is_dot = cur_len == 1 && cur.as_str().get_char(0) == '.';
    proof {
        assert(is_dot == (cur@ =~= seq!['.']));
        if first {
            assert(segs.drop_last() =~= Seq::<Seq<char>>::empty());
        }
    }
    if cur_len > 0 && !is_dot {
        out.push(cur);
        proof {
            assert(out.deep_view() =~= old_out.push(segs.last()));
        }
    } else if first && !rooted && is_dot {
        out.push(cur);
        proof {
            assert(out.deep_view() =~= seq![seq!['.']]);
        }
    }
    proof {
        assert(out.deep_view() =~= path_components(s@));
    }
    out
}


/// The final component of a path when it is a normal name
/// (`Path::file_name`).
pub open spec fn file_name_of(s: Seq<char>) -> Option<Seq<char>> {
    let c = path_components(s);
    if c.len() > 0 && is_normal_component(c.last()) { Some(c.last()) } else { None }
}

/// The position of the last `.` in `f`, or -1 when there is none.
pub open spec fn last_dot(f: Seq<char>) -> int
    decreases f.len(),
{
    if f.len() == 0 {
        -1
    } else if f.last() == '.' {
        f.len() - 1
    } else {
        last_dot(f.drop_last())
    }
}

/// The extension of a file name (`Path::extension`): the text after the
/// last `.`, when that dot is not the first character.
pub open spec fn name_extension(f: Seq<char>) -> Option<Seq<char>> {
    let i = last_dot(f);
    if i <= 0 { None } else { Some(f.subrange(i + 1, f.len() as int)) }
}

/// The extension of a path: that of its file name, if it has one.
pub open spec fn extension_of(s: Seq<char>) -> Option<Seq<char>> {
    match file_name_of(s) {
        Some(f) => name_extension(f),
        None => None,
    }
}

proof fn lemma_last_dot_range(f: Seq<char>)
    ensures
        -1 <= last_dot(f) < f.len(),
        last_dot(f) >= 0 ==> f[last_dot(f)] == '.',
        forall|k: int| last_dot(f) < k < f.len() ==> f[k] != '.',
    decreases f.len(),
{
    if f.len() > 0 && f.last() != '.' {
        lemma_last_dot_range(f.drop_last());
        assert forall|k: int| last_dot(f) < k < f.len() implies f[k] != '.' by {
            if k < f.len() - 1 {
                assert(f[k] == f.drop_last()[k]);
            }
        }
    }
}

fn is_special_component(s: &String) -> (r: bool)
    ensures r == !is_normal_component(s@),
{
    let cs = chars_of(s.as_str());
    let r = (cs.len() == 1 && (cs[0] == '/' || cs[0] == '.'))
        || (cs.len() == 2 && cs[0] == '.' && cs[1] == '.');
    proof {
        if cs@.len() == 1 {
            assert(cs@ == seq![cs@[0]]);
        } else if cs@.len() == 2 {
            assert(cs@ == seq![cs@[0], cs@[1]]);
        }
    }
    r
}

/// The final component of a path when it is a normal name.
pub fn file_name(s: &str) -> (r: Option<String>)
    ensures
        r matches Some(f) ==> file_name_of(s@) == Some(f@),
        r is None ==> file_name_of(s@) is None,
{
    let mut c = components(s);
    let n = c.len();
    if n == 0 {
        return None;
    }
    let last = c.pop().unwrap();
    proof {
        assert(last@ == path_components(s@).last());
    }
    if is_special_component(&last) {
        None
    } else {
        Some(last)
    }
}

/// The extension of a file name, or the empty string when it has none.
pub fn name_extension_text(f: &String) -> (r: String)
    ensures
        r@ == (match name_extension(f@) { Some(e) => e, None => Seq::empty() }),
{
    let cs = crate::text::chars_of(f.as_str());
    let n = cs.len();
    let mut i = n;
    while i > 0 && cs[i - 1] != '.'
        invariant
            n == cs@.len(),
            cs@ == f@,
            0 <= i <= n,
            forall|k: int| i <= k < n ==> cs@[k] != '.',
        decreases i,
    {
        i = i - 1;
    }
    let found = i > 0;
    proof {
        lemma_last_dot_range(f@);
        if found {
            assert(last_dot(f@) == i - 1);
        } else {
            assert(i == 0);
            assert(last_dot(f@) == -1);
        }
    }
    let mut out = String::new();
    if found && i > 1 {
        let mut j = i;
        while j < n
            invariant
                n == cs@.len(),
                i <= j <= n,
                out@ == cs@.subrange(i as int, j as int),
            decreases n - j,
        {
            push_char(&mut out, cs[j]);
            proof {
                assert(cs@.subrange(i as int, j + 1) =~= cs@.subrange(i as int, j as int).push(cs@[j as int]));
            }
            j = j + 1;
        }
    }
    out
}

} // verus!
