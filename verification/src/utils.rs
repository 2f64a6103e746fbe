//! Formatting of sizes and permission bits.

use vstd::prelude::*;
use crate::text::{push_char, push_decimal, digit, decimal, digit_char};
use crate::entry::{EntryMeta, FileKind};

verus! {

/// The character shown for one read/write permission bit.
pub open spec fn flag_char(mode: u32, bit: u32, c: char) -> char {
    if mode & bit != 0 { c } else { '-' }
}

/// The character shown for an execute bit combined with a special bit
/// (setuid, setgid or sticky): `on` when both are set, `off_upper` when
/// only the special bit is set, `x` when only execute is set.
pub open spec fn exec_char(mode: u32, exec_bit: u32, special_bit: u32, on: char, only_special: char) -> char {
    if mode & exec_bit != 0 {
        if mode & special_bit != 0 { on } else { 'x' }
    } else {
        if mode & special_bit != 0 { only_special } else { '-' }
    }
}

/// The nine-character `rwxrwxrwx` rendering of a Unix mode.
pub open spec fn permissions_text(mode: u32) -> Seq<char> {
    seq![
        flag_char(mode, 0o400, 'r'),
        flag_char(mode, 0o200, 'w'),
        exec_char(mode, 0o100, 0o4000, 's', 'S'),
        flag_char(mode, 0o040, 'r'),
        flag_char(mode, 0o020, 'w'),
        exec_char(mode, 0o010, 0o2000, 's', 'S'),
        flag_char(mode, 0o004, 'r'),
        flag_char(mode, 0o002, 'w'),
        exec_char(mode, 0o001, 0o1000, 't', 'T'),
    ]
}

fn flag(mode: u32, bit: u32, c: char) -> (r: char)
    ensures r == flag_char(mode, bit, c),
{
    if mode & bit != 0 { c } else { '-' }
}

fn exec_flag(mode: u32, exec_bit: u32, special_bit: u32, on: char, only_special: char) -> (r: char)
    ensures r == exec_char(mode, exec_bit, special_bit, on, only_special),
{
    match (mode & exec_bit != 0, mode & special_bit != 0) {
        (true, true) => on,
        (false, true) => only_special,
        (true, false) => 'x',
        (false, false) => '-',
    }
}

/// Formats a Unix file mode as a human-readable string such as
/// `rwxr-xr-x`, including the setuid (`s`/`S`), setgid (`s`/`S`) and
/// sticky (`t`/`T`) bits.
pub fn format_permissions(mode: u32) -> (s: String)
    ensures
        s@ == permissions_text(mode),
{
    let mut s = String::new();
    push_char(&mut s, flag(mode, 0o400, 'r'));
    push_char(&mut s, flag(mode, 0o200, 'w'));
    push_char(&mut s, exec_flag(mode, 0o100, 0o4000, 's', 'S'));
    push_char(&mut s, flag(mode, 0o040, 'r'));
    push_char(&mut s, flag(mode, 0o020, 'w'));
    push_char(&mut s, exec_flag(mode, 0o010, 0o2000, 's', 'S'));
    push_char(&mut s, flag(mode, 0o004, 'r'));
    push_char(&mut s, flag(mode, 0o002, 'w'));
    push_char(&mut s, exec_flag(mode, 0o001, 0o1000, 't', 'T'));
    assert(s@ =~= permissions_text(mode));
    s
}


/// `n / d` rounded to the nearest integer, ties going to the even quotient.
pub open spec fn round_half_even(n: nat, d: nat) -> nat
    recommends d > 0,
{
    let q = n / d;
    let r = n % d;
    if 2 * r > d || (2 * r == d && q % 2 == 1) { q + 1 } else { q }
}

/// The power of two by which a value must be divided to fit in the
/// 53-bit significand of an `f64`.
pub open spec fn f64_scale(n: nat) -> nat
    decreases n,
{
    if n < 0x20_0000_0000_0000 { 1 } else { 2 * f64_scale(n / 2) }
}

/// The value of `n as f64`: the nearest value with a 53-bit significand,
/// ties going to the even significand.
pub open spec fn f64_value(n: nat) -> nat {
    round_half_even(n, f64_scale(n)) * f64_scale(n)
}

/// `v / unit` shown with one decimal place (the value is rounded to the
/// nearest tenth, ties to an even last digit), e.g. `1.5`.
pub open spec fn tenths_text(v: nat, unit: nat) -> Seq<char> {
    let t = round_half_even(v * 10, unit);
    decimal(t / 10) + seq!['.', digit_char(t % 10)]
}

pub open spec fn kib() -> nat { 1024 }
pub open spec fn mib() -> nat { 1024 * 1024 }
pub open spec fn gib() -> nat { 1024 * 1024 * 1024 }
pub open spec fn tib() -> nat { 1024 * 1024 * 1024 * 1024 }

/// Human-readable rendering of a byte count with binary prefixes.
pub open spec fn size_text(bytes: nat) -> Seq<char> {
    if bytes < kib() {
        decimal(bytes) + seq![' ', 'B']
    } else if bytes < mib() {
        tenths_text(bytes, kib()) + seq![' ', 'K', 'i', 'B']
    } else if bytes < gib() {
        tenths_text(bytes, mib()) + seq![' ', 'M', 'i', 'B']
    } else if bytes < tib() {
        tenths_text(bytes, gib()) + seq![' ', 'G', 'i', 'B']
    } else {
        tenths_text(f64_value(bytes), tib()) + seq![' ', 'T', 'i', 'B']
    }
}

fn round_div(n: u128, d: u128) -> (q: u128)
    requires
        d > 0,
        n < 0x1_0000_0000_0000_0000_0000_0000,
    ensures
        q == round_half_even(n as nat, d as nat),
        q <= n / d + 1,
{
    let q = n / d;
    let r = n % d;
    proof {
        vstd::arithmetic::div_mod::lemma_fundamental_div_mod(n as int, d as int);
    }
    if r > d - r || (r == d - r && q % 2 == 1) { q + 1 } else { q }
}

proof fn lemma_f64_scale_halves(n: nat, s: nat, b: nat)
    requires
        s > 0,
        b == n / s,
        f64_scale(n) == s * f64_scale(b),
        b >= 0x20_0000_0000_0000,
    ensures
        b / 2 == n / (s * 2),
        f64_scale(n) == (s * 2) * f64_scale(b / 2),
{
    vstd::arithmetic::div_mod::lemma_div_denominator(n as int, s as int, 2);
    vstd::arithmetic::mul::lemma_mul_is_associative(s as int, 2, f64_scale(b / 2) as int);
}

/// `n as f64`, as an exact integer.
fn f64_of(n: u64) -> (v: u128)
    ensures
        v == f64_value(n as nat),
        v <= 0x1_0000_0000_0000_1000,
{
    let mut s: u128 = 1;
    let mut b: u128 = n as u128;
    while b >= 0x20_0000_0000_0000
        invariant
            0 < s <= 4096,
            b == (n as nat) / (s as nat),
            f64_scale(n as nat) == s * f64_scale(b as nat),
        decreases b,
    {
        proof {
            lemma_f64_scale_halves(n as nat, s as nat, b as nat);
            vstd::arithmetic::div_mod::lemma_fundamental_div_mod(n as int, s as int);
            assert(s < 2048) by (nonlinear_arith)
                requires
                    s * b <= n,
                    b >= 0x20_0000_0000_0000,
                    n < 0x1_0000_0000_0000_0000;
        }
        b = b / 2;
        s = s * 2;
    }
    assert(f64_scale(b as nat) == 1);
    assert(f64_scale(n as nat) == s) by {
        vstd::arithmetic::mul::lemma_mul_basics(s as int);
    }
    let q = round_div(n as u128, s);
    proof {
        vstd::arithmetic::div_mod::lemma_fundamental_div_mod(n as int, s as int);
        assert(q * s <= 0x1_0000_0000_0000_1000) by (nonlinear_arith)
            requires
                q <= (n as nat) / (s as nat) + 1,
                ((n as nat) / (s as nat)) * s <= n,
                n < 0x1_0000_0000_0000_0000,
                0 < s <= 4096;
    }
    q * s
}

fn push_tenths(s: &mut String, v: u128, unit: u128)
    requires
        unit > 0,
        v <= 0x1_0000_0000_0000_1000,
    ensures
        final(s)@ == old(s)@ + tenths_text(v as nat, unit as nat),
{
    let t = round_div(v * 10, unit);
    push_decimal(s, t / 10);
    push_char(s, '.');
    push_char(s, digit(t % 10));
    assert(final(s)@ =~= old(s)@ + tenths_text(v as nat, unit as nat));
}

/// Formats a size in bytes as a human-readable string with binary
/// prefixes, e.g. `500 B`, `1.5 KiB`, `1.0 MiB`.
pub fn format_size(bytes: u64) -> (s: String)
    ensures
        s@ == size_text(bytes as nat),
{
    let mut s = String::new();
    let b = bytes as u128;
    if b < 1024 {
        push_decimal(&mut s, b);
        push_char(&mut s, ' ');
        push_char(&mut s, 'B');
    } else if b < 1024 * 1024 {
        push_tenths(&mut s, b, 1024);
        push_char(&mut s, ' ');
        push_char(&mut s, 'K');
        push_char(&mut s, 'i');
        push_char(&mut s, 'B');
    } else if b < 1024 * 1024 * 1024 {
        push_tenths(&mut s, b, 1024 * 1024);
        push_char(&mut s, ' ');
        push_char(&mut s, 'M');
        push_char(&mut s, 'i');
        push_char(&mut s, 'B');
    } else if b < 1024 * 1024 * 1024 * 1024 {
        push_tenths(&mut s, b, 1024 * 1024 * 1024);
        push_char(&mut s, ' ');
        push_char(&mut s, 'G');
        push_char(&mut s, 'i');
        push_char(&mut s, 'B');
    } else {
        push_tenths(&mut s, f64_of(bytes), 1024 * 1024 * 1024 * 1024);
        push_char(&mut s, ' ');
        push_char(&mut s, 'T');
        push_char(&mut s, 'i');
        push_char(&mut s, 'B');
    }
    assert(s@ =~= size_text(bytes as nat));
    s
}


/// The `ls -l`-style type character of a file: `l` for a symlink, `d`
/// for a directory, `-` otherwise.
pub open spec fn type_char(kind: FileKind) -> char {
    match kind {
        FileKind::Symlink => 'l',
        FileKind::Dir => 'd',
        FileKind::Other => '-',
    }
}

/// The ten-character `ls -l` permission string of a file's metadata.
pub open spec fn permission_text(m: EntryMeta) -> Seq<char> {
    seq![type_char(m.kind)] + permissions_text(m.mode)
}

/// Formats a file's metadata as an `ls -l`-style permission string,
/// including the file-type character (`d`, `l`, or `-`).
pub fn permission_string(metadata: &EntryMeta) -> (s: String)
    ensures
        s@ == permission_text(*metadata),
{
    let c = match metadata.kind {
        FileKind::Symlink => 'l',
        FileKind::Dir => 'd',
        FileKind::Other => '-',
    };
    let mut s = String::new();
    push_char(&mut s, c);
    let rest = format_permissions(metadata.mode);
    crate::text::push_str(&mut s, rest.as_str());
    s
}

/// How a directory walk filters entries: the settings to apply to the
/// walker.
#[derive(Clone, Copy, PartialEq, Eq, Debug, Structural)]
pub struct IgnoreFilters {
    /// Whether the walker's bundle of standard filters is on.
    pub standard_filters: bool,
    /// Whether hidden files are skipped.
    pub hidden: bool,
    /// Whether ignore files in parent directories apply.
    pub parents: bool,
    /// Whether `.ignore` files apply.
    pub ignore: bool,
    /// Whether `.gitignore` files apply.
    pub git_ignore: bool,
    /// Whether the global gitignore applies.
    pub git_global: bool,
    /// Whether `.git/info/exclude` applies.
    pub git_exclude: bool,
}

/// The walker filtering that matches the command-line contract: hidden
/// files are shown only with `all`, and `.gitignore` and the other
/// standard ignore files (`.ignore`, the global gitignore,
/// `.git/info/exclude`, ignore files in parent directories) apply only
/// with `gitignore`. The walker's standard filter bundle is turned off so
/// that only these settings decide.
pub fn configure_ignore_filters(all: bool, gitignore: bool) -> (f: IgnoreFilters)
    ensures
        f == (IgnoreFilters {
            standard_filters: false,
            hidden: !all,
            parents: gitignore,
            ignore: gitignore,
            git_ignore: gitignore,
            git_global: gitignore,
            git_exclude: gitignore,
        }),
{
    IgnoreFilters {
        standard_filters: false,
        hidden: !all,
        parents: gitignore,
        ignore: gitignore,
        git_ignore: gitignore,
        git_global: gitignore,
        git_exclude: gitignore,
    }
}

} // verus!
