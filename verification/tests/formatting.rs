use lstr::entry::{EntryMeta, FileKind};
use lstr::utils::{configure_ignore_filters, format_permissions, format_size, permission_string};

#[test]
fn test_format_size() {
    assert_eq!(format_size(500), "500 B");
    assert_eq!(format_size(1024), "1.0 KiB");
    assert_eq!(format_size(1536), "1.5 KiB");
    let mib = 1024 * 1024;
    assert_eq!(format_size(mib), "1.0 MiB");
    assert_eq!(format_size(mib + mib / 2), "1.5 MiB");
    let gib = mib * 1024;
    assert_eq!(format_size(gib), "1.0 GiB");
}

#[test]
fn test_format_permissions() {
    let mode = 0o755;
    assert_eq!(format_permissions(mode), "rwxr-xr-x");
    let mode_read = 0o644;
    assert_eq!(format_permissions(mode_read), "rw-r--r--");
    let mode_user_only = 0o700;
    assert_eq!(format_permissions(mode_user_only), "rwx------");
}

#[test]
fn test_format_permissions_special_bits() {
    assert_eq!(format_permissions(0o4755), "rwsr-xr-x");
    assert_eq!(format_permissions(0o4655), "rwSr-xr-x");
    assert_eq!(format_permissions(0o2755), "rwxr-sr-x");
    assert_eq!(format_permissions(0o1777), "rwxrwxrwt");
    assert_eq!(format_permissions(0o1776), "rwxrwxrwT");
}

#[test]
fn format_size_matches_float_formatting() {
    for bytes in [0u64, 1, 1023, 1024, 1025, 1280, 1331, 10_000, 1_048_575, 123_456_789, 5 * 1024 * 1024 * 1024 + 7] {
        let expected = {
            let b = bytes as f64;
            if b < 1024.0 {
                format!("{b} B")
            } else if b < 1024.0 * 1024.0 {
                format!("{:.1} KiB", b / 1024.0)
            } else if b < 1024.0 * 1024.0 * 1024.0 {
                format!("{:.1} MiB", b / (1024.0 * 1024.0))
            } else if b < 1024.0 * 1024.0 * 1024.0 * 1024.0 {
                format!("{:.1} GiB", b / (1024.0 * 1024.0 * 1024.0))
            } else {
                format!("{:.1} TiB", b / (1024.0 * 1024.0 * 1024.0 * 1024.0))
            }
        };
        assert_eq!(format_size(bytes), expected, "bytes = {bytes}");
    }
}

#[test]
fn format_size_exact_values() {
    assert_eq!(format_size(0), "0 B");
    assert_eq!(format_size(1023), "1023 B");
    assert_eq!(format_size(1280), "1.2 KiB");
    assert_eq!(format_size(1024 * 1024 * 1024 * 1024), "1.0 TiB");
    assert_eq!(format_size(u64::MAX), "16777216.0 TiB");
}

#[test]
fn format_size_ties_and_large_values_match_floats() {
    let tib = 1024u64 * 1024 * 1024 * 1024;
    for bytes in [1075u64, 1126, 1177, tib + tib / 20, 3 * tib + tib / 4, u64::MAX - 1, (1u64 << 60) + 12345] {
        let b = bytes as f64;
        let expected = if b < 1024.0 * 1024.0 {
            format!("{:.1} KiB", b / 1024.0)
        } else {
            format!("{:.1} TiB", b / (1024.0 * 1024.0 * 1024.0 * 1024.0))
        };
        assert_eq!(format_size(bytes), expected, "bytes = {bytes}");
    }
}

#[test]
fn permission_strings_carry_the_type() {
    let meta = |kind, mode| EntryMeta { len: 0, modified: None, mode, kind };
    assert_eq!(permission_string(&meta(FileKind::Dir, 0o755)), "drwxr-xr-x");
    assert_eq!(permission_string(&meta(FileKind::Symlink, 0o777)), "lrwxrwxrwx");
    assert_eq!(permission_string(&meta(FileKind::Other, 0o644)), "-rw-r--r--");
}

#[test]
fn ignore_filters_follow_the_flags() {
    let f = configure_ignore_filters(false, false);
    assert!(!f.standard_filters);
    assert!(f.hidden);
    assert!(!f.parents && !f.ignore && !f.git_ignore && !f.git_global && !f.git_exclude);
    let g = configure_ignore_filters(true, true);
    assert!(!g.hidden);
    assert!(g.parents && g.ignore && g.git_ignore && g.git_global && g.git_exclude);
}
