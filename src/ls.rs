//! Unix permission modes rendered as `rwx` triples.

use crate::text::{decimal, push_char, push_decimal};
use vstd::prelude::*;

verus! {

/// The three classes of a Unix permission mode.
#[derive(Debug, Clone, Copy, PartialEq, Eq, Structural)]
pub enum Owner {
    User,
    Group,
    Other,
}

/// The read, write and execute bits of `o` in a mode.
pub open spec fn owner_masks(o: Owner) -> [u32; 3] {
    match o {
        Owner::User => [0o400, 0o200, 0o100],
        Owner::Group => [0o040, 0o020, 0o010],
        Owner::Other => [0o004, 0o002, 0o001],
    }
}

impl Owner {
    /// The read, write and execute bits of this class.
    pub fn masks(&self) -> (r: [u32; 3])
        ensures
            r == owner_masks(*self),
    {
        match self {
            Owner::User => [0o400, 0o200, 0o100],
            Owner::Group => [0o040, 0o020, 0o010],
            Owner::Other => [0o004, 0o002, 0o001],
        }
    }
}

/// `c` when `mode` has the bit `mask`, else `-`.
pub open spec fn flag(mode: u32, mask: u32, c: char) -> char {
    if mode & mask == 0 { '-' } else { c }
}

/// The `rwx` triple of one class in `mode`.
pub open spec fn triple(mode: u32, o: Owner) -> Seq<char> {
    let m = owner_masks(o);
    seq![flag(mode, m[0], 'r'), flag(mode, m[1], 'w'), flag(mode, m[2], 'x')]
}

/// Renders the permissions of one class, as in `rwx` or `r-x`.
pub fn mk_triple(mode: u32, owner: Owner) -> (r: String)
    ensures
        r@ == triple(mode, owner),
{
    let masks = owner.masks();
    let read = masks[0];
    let write = masks[1];
    let execute = masks[2];
    let mut s = String::new();
    push_char(&mut s, if mode & read == 0 { '-' } else { 'r' });
    push_char(&mut s, if mode & write == 0 { '-' } else { 'w' });
    push_char(&mut s, if mode & execute == 0 { '-' } else { 'x' });
    proof {
        assert(s@ =~= triple(mode, owner));
    }
    s
}

/// Renders the nine permission characters of `mode`.
pub fn format_mode(mode: u32) -> (r: String)
    ensures
        r@ == triple(mode, Owner::User) + triple(mode, Owner::Group) + triple(mode, Owner::Other),
{
    let mut s = mk_triple(mode, Owner::User);
    let g = mk_triple(mode, Owner::Group);
    let o = mk_triple(mode, Owner::Other);
    s.append(g.as_str());
    s.append(o.as_str());
    s
}

/// The text that `tabular` lays out for a table: the format of its columns
/// and the cells of each row.
pub uninterp spec fn table_text(fmt: Seq<char>, rows: Seq<Seq<Seq<char>>>) -> Seq<char>;

/// The text that chrono's `%Y-%m-%d %H:%M:%S` format gives for a time in
/// seconds since the Unix epoch, in UTC.
pub uninterp spec fn utc_time_text(secs: int) -> Seq<char>;

/// The column format of a long listing: eight columns.
pub const LONG_FORMAT: &'static str = "{:<}{:<} {:>} {:<} {:<} {:>} {:<} {:<}";

/// Largest distance from the epoch, in seconds, at which a time is shown:
/// well inside the years that chrono represents.
pub const MAX_TIME_SECS: i64 = 8000000000000;

/// Relies on tabular's `Table::new`, `Row::add_cell`, `Table::add_row` and
/// its `Display`: the text depends on the format and the cells alone. The
/// format is the long listing's, whose eight columns every row fills, so
/// neither `Table::new` nor `add_row` panics.
#[verifier::external_body]
fn render_table(fmt: &str, rows: &Vec<Vec<String>>) -> (r: String)
    requires
        fmt@ == LONG_FORMAT@,
        forall|i: int| 0 <= i < rows@.len() ==> #[trigger] rows@[i]@.len() == 8,
    ensures
        r@ == table_text(fmt@, rows.deep_view()),
{
    let mut table = tabular::Table::new(fmt);
    for row in rows {
        let mut cells = tabular::Row::new();
        for cell in row {
            cells.add_cell(cell);
        }
        table.add_row(cells);
    }
    format!("{}", table)
}

/// Relies on chrono's `DateTime::from_timestamp`, which accepts every time
/// within `MAX_TIME_SECS` of the epoch, and on `DateTime::format`: the text
/// depends on the time alone.
#[verifier::external_body]
fn utc_text(secs: i64) -> (r: String)
    requires
        -MAX_TIME_SECS <= secs <= MAX_TIME_SECS,
    ensures
        r@ == utc_time_text(secs as int),
{
    chrono::DateTime::from_timestamp(secs, 0).unwrap().format("%Y-%m-%d %H:%M:%S").to_string()
}

/// What a long listing shows of one entry.
#[derive(Debug, Clone, PartialEq, Eq)]
pub struct LongEntry {
    pub is_dir: bool,
    pub mode: u32,
    pub nlink: u64,
    pub user: String,
    pub group: String,
    pub size: u64,
    /// Time of last change, in whole seconds since the Unix epoch.
    pub modified: i64,
    pub path: String,
}

/// The nine permission characters of a mode.
pub open spec fn mode_text(mode: u32) -> Seq<char> {
    triple(mode, Owner::User) + triple(mode, Owner::Group) + triple(mode, Owner::Other)
}

/// The cells of an entry's row: type, permissions, links, user, group,
/// size, time and path.
pub open spec fn long_row(e: LongEntry) -> Seq<Seq<char>> {
    seq![
        if e.is_dir { "d"@ } else { "-"@ },
        mode_text(e.mode),
        decimal(e.nlink as nat),
        e.user@,
        e.group@,
        decimal(e.size as nat),
        utc_time_text(e.modified as int),
        e.path@,
    ]
}

fn decimal_string(n: u64) -> (r: String)
    ensures
        r@ == decimal(n as nat),
{
    let mut s = String::new();
    push_decimal(&mut s, n);
    proof {
        assert(s@ =~= decimal(n as nat));
    }
    s
}

/// Lays out the long listing of the entries, one row each.
pub fn format_output(entries: &Vec<LongEntry>) -> (r: String)
    requires
        forall|i: int|
            0 <= i < entries@.len() ==> -MAX_TIME_SECS <= #[trigger] entries@[i].modified
                <= MAX_TIME_SECS,
    ensures
        r@ == table_text(LONG_FORMAT@, entries@.map_values(|e: LongEntry| long_row(e))),
{
    let mut rows: Vec<Vec<String>> = Vec::new();
    let mut i: usize = 0;
    while i < entries.len()
        invariant
            i <= entries@.len(),
            forall|j: int|
                0 <= j < entries@.len() ==> -MAX_TIME_SECS <= #[trigger] entries@[j].modified
                    <= MAX_TIME_SECS,
            rows.deep_view() == entries@.take(i as int).map_values(|e: LongEntry| long_row(e)),
            forall|j: int| 0 <= j < rows@.len() ==> #[trigger] rows@[j]@.len() == 8,
        decreases entries@.len() - i,
    {
        let e = &entries[i];
        let mut row: Vec<String> = Vec::new();
        row.push(String::from_str(if e.is_dir { "d" } else { "-" }));
        row.push(format_mode(e.mode));
        row.push(decimal_string(e.nlink));
        row.push(e.user.clone());
        row.push(e.group.clone());
        row.push(decimal_string(e.size));
        row.push(utc_text(e.modified));
        row.push(e.path.clone());
        let ghost before = rows.deep_view();
        proof {
            assert(row.deep_view() =~= long_row(*e));
        }
        rows.push(row);
        i = i + 1;
        proof {
            assert(entries@.take(i as int).map_values(|e: LongEntry| long_row(e)) =~= before.push(
                long_row(entries@[i - 1]),
            ));
            assert(rows.deep_view() =~= before.push(long_row(entries@[i - 1])));
        }
    }
    proof {
        assert(entries@.take(i as int) =~= entries@);
    }
    render_table(LONG_FORMAT, &rows)
}

} // verus!
