//! Deciding which directory entries are shown, by name pattern and kind.

use vstd::prelude::*;

verus! {

#[verifier::external_type_specification]
#[verifier::external_body]
pub struct ExRegex(regex::Regex);

/// Relies on `regex::Regex::is_match`, which answers without panicking;
/// its answer is not described here.
pub assume_specification[ regex::Regex::is_match ](re: &regex::Regex, haystack: &str) -> bool;

/// A kind of directory entry to select.
#[derive(Debug, Clone, Copy, PartialEq, Eq, Structural)]
pub enum EntryType {
    Dir,
    File,
    Link,
}

/// What an entry is, as its file type reports it.
#[derive(Debug, Clone, Copy, PartialEq, Eq, Structural)]
pub struct EntryKind {
    pub is_dir: bool,
    pub is_file: bool,
    pub is_symlink: bool,
}

/// Whether the selected kinds admit an entry: no selection admits all.
pub open spec fn type_allowed(kind: EntryKind, types: Seq<EntryType>) -> bool {
    types.len() == 0 || {
        &&& kind.is_dir ==> types.contains(EntryType::Dir)
        &&& kind.is_file ==> types.contains(EntryType::File)
        &&& kind.is_symlink ==> types.contains(EntryType::Link)
    }
}

fn has_type(types: &Vec<EntryType>, t: EntryType) -> (r: bool)
    ensures
        r == types@.contains(t),
{
    let mut i: usize = 0;
    while i < types.len()
        invariant
            i <= types@.len(),
            forall|k: int| 0 <= k < i ==> types@[k] != t,
        decreases types@.len() - i,
    {
        if types[i] == t {
            return true;
        }
        i = i + 1;
    }
    proof {
        if types@.contains(t) {
            let k = choose|k: int| 0 <= k < types@.len() && types@[k] == t;
            assert(types@[k] != t);
        }
    }
    false
}

/// Decides whether an entry is shown: its name must match one of the name
/// patterns, if any were given, and its kind must be selected.
pub fn display_decision(
    names_given: bool,
    name_matched: bool,
    kind: EntryKind,
    entry_types: &Vec<EntryType>,
) -> (r: bool)
    ensures
        r == ((!names_given || name_matched) && type_allowed(kind, entry_types@)),
{
    if names_given && !name_matched {
        return false;
    }
    if entry_types.len() > 0 {
        if kind.is_dir && !has_type(entry_types, EntryType::Dir) {
            return false;
        }
        if kind.is_file && !has_type(entry_types, EntryType::File) {
            return false;
        }
        if kind.is_symlink && !has_type(entry_types, EntryType::Link) {
            return false;
        }
    }
    true
}

/// Whether an entry with this name and kind is shown, testing the name
/// against each pattern until one matches.
pub fn should_display(
    file_name: &str,
    kind: EntryKind,
    names: &Vec<regex::Regex>,
    entry_types: &Vec<EntryType>,
) -> (r: bool)
    ensures
        names@.len() == 0 ==> r == type_allowed(kind, entry_types@),
        r ==> type_allowed(kind, entry_types@),
{
    let mut matched = false;
    let mut i: usize = 0;
    while i < names.len() && !matched
        invariant
            i <= names@.len(),
        decreases names@.len() - i,
    {
        matched = names[i].is_match(file_name);
        i = i + 1;
    }
    display_decision(names.len() > 0, matched, kind, entry_types)
}

} // verus!
