use tailr::ls::{format_mode, format_output, mk_triple, LongEntry, Owner};

#[test]
fn test_mk_triple() {
    assert_eq!(mk_triple(0o751, Owner::User), "rwx");
    assert_eq!(mk_triple(0o751, Owner::Group), "r-x");
    assert_eq!(mk_triple(0o751, Owner::Other), "--x");
    assert_eq!(mk_triple(0o600, Owner::Other), "---");
}

#[test]
fn test_format_mode() {
    assert_eq!(format_mode(0o755), "rwxr-xr-x");
    assert_eq!(format_mode(0o421), "r---w---x");
}

#[test]
fn owner_masks() {
    assert_eq!(Owner::User.masks(), [0o400, 0o200, 0o100]);
    assert_eq!(Owner::Other.masks(), [0o4, 0o2, 0o1]);
    assert_eq!(format_mode(0o100644), "rw-r--r--");
}

fn entry(is_dir: bool, mode: u32, size: u64, path: &str) -> LongEntry {
    LongEntry {
        is_dir,
        mode,
        nlink: 1,
        user: "alice".to_string(),
        group: "staff".to_string(),
        size,
        modified: 0,
        path: path.to_string(),
    }
}

fn long_match(line: &str, expected_name: &str, expected_perms: &str, expected_size: Option<&str>) {
    let parts: Vec<_> = line.split_whitespace().collect();
    assert!(!parts.is_empty() && parts.len() <= 10);
    assert_eq!(parts[0], expected_perms);
    if let Some(size) = expected_size {
        assert_eq!(parts[4], size);
    }
    assert_eq!(*parts.last().unwrap(), expected_name);
}

#[test]
fn long_listing_rows() {
    let out = format_output(&vec![
        entry(false, 0o644, 193, "tests/inputs/bustle.txt"),
        entry(true, 0o755, 4096, "tests/inputs/dir"),
    ]);
    let lines: Vec<&str> = out.split('\n').filter(|s| !s.is_empty()).collect();
    assert_eq!(lines.len(), 2);
    long_match(lines[0], "tests/inputs/bustle.txt", "-rw-r--r--", Some("193"));
    long_match(lines[1], "tests/inputs/dir", "drwxr-xr-x", Some("4096"));
    assert!(lines[0].contains("1970-01-01 00:00:00"));
}

#[test]
fn long_listing_times() {
    let mut e = entry(false, 0o600, 0, "f");
    e.modified = 1_600_000_000;
    assert!(format_output(&vec![e.clone()]).contains("2020-09-13 12:26:40"));
    e.modified = -1;
    assert!(format_output(&vec![e]).contains("1969-12-31 23:59:59"));
    assert_eq!(format_output(&vec![]), "");
}
