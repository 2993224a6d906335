use regex::Regex;
use tailr::find::{display_decision, should_display, EntryKind, EntryType};

const FILE: EntryKind = EntryKind { is_dir: false, is_file: true, is_symlink: false };
const DIR: EntryKind = EntryKind { is_dir: true, is_file: false, is_symlink: false };
const LINK: EntryKind = EntryKind { is_dir: false, is_file: false, is_symlink: true };

#[test]
fn no_filters_show_everything() {
    assert!(should_display("a.txt", FILE, &vec![], &vec![]));
    assert!(should_display("d", DIR, &vec![], &vec![]));
}

#[test]
fn names_must_match_one_pattern() {
    let names = vec![Regex::new(r"\.csv$").unwrap(), Regex::new("^a").unwrap()];
    assert!(should_display("data.csv", FILE, &names, &vec![]));
    assert!(should_display("a.txt", FILE, &names, &vec![]));
    assert!(!should_display("b.txt", FILE, &names, &vec![]));
}

#[test]
fn kinds_must_be_selected() {
    let types = vec![EntryType::File, EntryType::Link];
    assert!(should_display("x", FILE, &vec![], &types));
    assert!(should_display("x", LINK, &vec![], &types));
    assert!(!should_display("x", DIR, &vec![], &types));
    let dirs = vec![EntryType::Dir];
    assert!(!should_display("x", FILE, &vec![Regex::new("x").unwrap()], &dirs));
}

#[test]
fn decision_table() {
    assert!(!display_decision(true, false, FILE, &vec![]));
    assert!(display_decision(true, true, FILE, &vec![EntryType::File]));
    assert!(display_decision(false, false, DIR, &vec![EntryType::Dir]));
    assert!(!display_decision(false, true, DIR, &vec![EntryType::File]));
}
