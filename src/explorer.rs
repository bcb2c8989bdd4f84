//! Name and path helpers of the volume-table explorer.
use vstd::prelude::*;
use crate::group::{has_key, key_bytes, key_count, keys_unique, sum_by_key, KeyTotal};
use crate::model::FileRecord;
use crate::outside::{lower_of, lowercase, sort_by_size_desc, sorted_desc};
use crate::paths::{is_sep, parent_path, parent_spec, part_ranges, parts, type_key_spec};
use crate::query::{group_by_type, group_bytes, group_count, is_old, is_recent, old_large_files, recent_large_files};
use crate::text::{
    chars_of, contains_seq, decimal, decimal_spec, digit, digit_char, ends_with_seq, has_infix,
    push_all, starts_with_seq, string_of, holds_string, in_strings,
};

verus! {

/// Whether `s` looks like two GUIDs written back to back: it starts with `{`,
/// ends with `}` and holds `}{` somewhere.
pub open spec fn looks_like_guid_pair(s: Seq<char>) -> bool {
    &&& s.len() > 0
    &&& s[0] == '{'
    &&& s[s.len() - 1] == '}'
    &&& exists|i: int| 0 <= i < s.len() - 1 && (#[trigger] s[i]) == '}' && s[i + 1] == '{'
}

/// The name shown for a file called `name`.
pub open spec fn display_name(name: Seq<char>, empty: bool) -> Seq<char> {
    if name.len() == 0 && empty {
        "No Name"@
    } else if looks_like_guid_pair(name) {
        "GUID name"@
    } else {
        name
    }
}

/// `p` with every run of separators (`/` or `\`) written as one `\`.
pub open spec fn collapse_seps(p: Seq<char>) -> Seq<char>
    decreases p.len(),
{
    if p.len() == 0 {
        seq![]
    } else {
        let r = collapse_seps(p.drop_last());
        if !is_sep(p.last()) {
            r.push(p.last())
        } else if r.len() > 0 && r.last() == '\\' {
            r
        } else {
            r.push('\\')
        }
    }
}

/// The raw device path of a drive: `\\.\` then the letter and `:`.
pub open spec fn device_prefix(letter: Seq<char>) -> Seq<char> {
    seq!['\\', '\\', '.', '\\'] + letter + seq![':']
}

/// `p` without the raw device path of drive `letter` in front, if it has one.
pub open spec fn strip_device(p: Seq<char>, letter: Seq<char>) -> Seq<char> {
    let pre = device_prefix(letter);
    if pre.len() <= p.len() && p.subrange(0, pre.len() as int) == pre {
        p.subrange(pre.len() as int, p.len() as int)
    } else {
        p
    }
}

/// A folder path of the volume table written as `X:\...` with single separators.
pub open spec fn folder_path_spec(p: Seq<char>, letter: Seq<char>) -> Seq<char> {
    let rest = strip_device(p, letter);
    let f = if rest.len() == 0 {
        letter + seq![':', '\\']
    } else if rest[0] == '\\' {
        letter + seq![':'] + rest
    } else {
        letter + seq![':', '\\'] + rest
    };
    collapse_seps(f)
}

fn collapse_chars(cs: &Vec<char>) -> (r: Vec<char>)
    ensures
        r@ == collapse_seps(cs@),
{
    let mut out: Vec<char> = Vec::new();
    let mut i: usize = 0;
    while i < cs.len()
        invariant
            i <= cs@.len(),
            out@ == collapse_seps(cs@.subrange(0, i as int)),
        decreases cs@.len() - i,
    {
        assert(cs@.subrange(0, i + 1).drop_last() == cs@.subrange(0, i as int));
        let c = cs[i];
        if c != '/' && c != '\\' {
            out.push(c);
        } else if out.len() > 0 && out[out.len() - 1] == '\\' {
        } else {
            out.push('\\');
        }
        i = i + 1;
    }
    assert(cs@.subrange(0, cs@.len() as int) == cs@);
    out
}

fn device_prefix_chars(letter: &str) -> (r: Vec<char>)
    ensures
        r@ == device_prefix(letter@),
{
    let mut pre: Vec<char> = Vec::new();
    pre.push('\\');
    pre.push('\\');
    pre.push('.');
    pre.push('\\');
    push_all(&mut pre, &chars_of(letter));
    pre.push(':');
    assert(pre@ == device_prefix(letter@));
    pre
}

/// `s` starts with `t`.
pub open spec fn has_prefix(s: Seq<char>, t: Seq<char>) -> bool {
    t.len() <= s.len() && s.subrange(0, t.len() as int) == t
}

/// `p` without `pre` in front, if it starts with it.
pub open spec fn drop_prefix_spec(p: Seq<char>, pre: Seq<char>) -> Seq<char> {
    if has_prefix(p, pre) {
        p.subrange(pre.len() as int, p.len() as int)
    } else {
        p
    }
}

fn drop_prefix(cs: &Vec<char>, pre: &Vec<char>) -> (r: Vec<char>)
    ensures
        r@ == drop_prefix_spec(cs@, pre@),
{
    if starts_with_seq(cs, pre) {
        let mut rest: Vec<char> = Vec::new();
        let mut i: usize = pre.len();
        while i < cs.len()
            invariant
                pre@.len() <= i <= cs@.len(),
                rest@ == cs@.subrange(pre@.len() as int, i as int),
            decreases cs@.len() - i,
        {
            rest.push(cs[i]);
            i = i + 1;
        }
        rest
    } else {
        cs.clone()
    }
}

fn strip_device_chars(cs: &Vec<char>, letter: &str) -> (r: Vec<char>)
    ensures
        r@ == strip_device(cs@, letter@),
{
    drop_prefix(cs, &device_prefix_chars(letter))
}

/// `p` without the drive in front: the raw device path of drive `letter`, or
/// else the letter and `:`.
pub open spec fn strip_drive(p: Seq<char>, letter: Seq<char>) -> Seq<char> {
    if has_prefix(p, device_prefix(letter)) {
        drop_prefix_spec(p, device_prefix(letter))
    } else {
        drop_prefix_spec(p, letter + seq![':'])
    }
}

fn strip_drive_chars(cs: &Vec<char>, letter: &str) -> (r: Vec<char>)
    ensures
        r@ == strip_drive(cs@, letter@),
{
    let pre = device_prefix_chars(letter);
    if starts_with_seq(cs, &pre) {
        drop_prefix(cs, &pre)
    } else {
        let mut short = chars_of(letter);
        short.push(':');
        assert(short@ == letter@ + seq![':']);
        drop_prefix(cs, &short)
    }
}

/// Names joined by `\`, each shown as `display_name` gives it.
pub open spec fn join_names(s: Seq<Seq<char>>) -> Seq<char>
    decreases s.len(),
{
    if s.len() == 0 {
        seq![]
    } else if s.len() == 1 {
        display_name(s[0], false)
    } else {
        join_names(s.drop_last()) + seq!['\\'] + display_name(s.last(), false)
    }
}

/// The folder a file is counted under among the largest folders: drive
/// `letter`, then the first `depth` folder names of its path after the drive
/// (fewer when the file is not that deep). None for the empty path only.
pub open spec fn folder_key_spec(p: Seq<char>, letter: Seq<char>, depth: nat) -> Option<Seq<char>> {
    let ps = parts(strip_drive(p, letter));
    if p.len() == 0 {
        None
    } else {
        let dirs: nat = if ps.len() == 0 {
            0
        } else {
            (ps.len() - 1) as nat
        };
        let k = if depth < dirs {
            depth
        } else {
            dirs
        };
        Some(letter + seq![':', '\\'] + join_names(ps.subrange(0, k as int)))
    }
}

/// The last part of `p` starts with a dot (and is not `.` or `..`).
pub open spec fn hidden_spec(p: Seq<char>) -> bool {
    let ps = parts(p);
    ps.len() > 0 && ps.last().len() > 0 && ps.last()[0] == '.' && ps.last() != seq!['.']
        && ps.last() != seq!['.', '.']
}

/// `s` ends with `t`.
pub open spec fn has_suffix(s: Seq<char>, t: Seq<char>) -> bool {
    t.len() <= s.len() && s.subrange(s.len() - t.len(), s.len() as int) == t
}

/// The checks of `system_spec`, given `lp`, the lower-case form of `p`.
pub open spec fn system_checks(lp: Seq<char>, p: Seq<char>) -> bool {
    has_infix(lp, "\\system volume information"@) || has_infix(lp, "\\$recycle.bin"@) || has_infix(
        lp,
        "\\$extend"@,
    ) || has_infix(lp, "\\windows\\"@) || has_suffix(lp, "\\windows"@) || has_infix(p, "\\$"@)
        || has_infix(p, "?"@) || has_infix(p, "*"@)
}

/// A system folder, or a path that holds characters no folder name has.
pub open spec fn system_spec(p: Seq<char>) -> bool {
    system_checks(lower_of(p), p)
}

pub const KIB: u64 = 1024;

pub const MIB: u64 = 1024 * 1024;

pub const GIB: u64 = 1024 * 1024 * 1024;

/// `bytes / unit` in hundredths, rounded to the nearest (a tie goes to the even one).
pub open spec fn rounded_hundredths(bytes: nat, unit: nat) -> nat
    recommends
        unit > 0,
{
    let q = bytes * 100 / unit;
    let rem = bytes * 100 % unit;
    if rem * 2 > unit || (rem * 2 == unit && q % 2 == 1) {
        q + 1
    } else {
        q
    }
}

/// A number of hundredths written with two decimal places.
pub open spec fn two_places(h: nat) -> Seq<char> {
    decimal_spec(h / 100) + seq!['.', digit((h % 100) / 10), digit(h % 10)]
}

/// A byte count in the largest binary unit it reaches, with two decimal
/// places, or as plain bytes below one KB.
pub open spec fn size_text(bytes: u64) -> Seq<char> {
    if bytes >= GIB {
        two_places(rounded_hundredths(bytes as nat, GIB as nat)) + " GB"@
    } else if bytes >= MIB {
        two_places(rounded_hundredths(bytes as nat, MIB as nat)) + " MB"@
    } else if bytes >= KIB {
        two_places(rounded_hundredths(bytes as nat, KIB as nat)) + " KB"@
    } else {
        decimal_spec(bytes as nat) + " bytes"@
    }
}

fn hundredths(bytes: u64, unit: u64) -> (h: u64)
    requires
        unit >= 1024,
    ensures
        h == rounded_hundredths(bytes as nat, unit as nat),
{
    let x: u128 = bytes as u128 * 100;
    let u = unit as u128;
    let q = x / u;
    let rem = x % u;
    assert(q * 1024 <= x) by (nonlinear_arith)
        requires
            q == x / u,
            u >= 1024,
            x >= 0,
    ;
    let h = if rem * 2 > u || (rem * 2 == u && q % 2 == 1) {
        q + 1
    } else {
        q
    };
    h as u64
}

fn two_places_text(h: u64, unit: &str) -> (r: String)
    ensures
        r@ == two_places(h as nat) + unit@,
{
    let mut out = chars_of(decimal(h / 100).as_str());
    out.push('.');
    out.push(digit_char((h % 100) / 10));
    out.push(digit_char(h % 10));
    push_all(&mut out, &chars_of(unit));
    string_of(&out)
}

/// One record of the volume's master file table.
pub struct MftEntry {
    /// Full path, as the table gives it (it may start with the raw device path).
    pub path: String,
    pub is_directory: bool,
    pub size: u64,
    /// Seconds since the Unix epoch.
    pub modified: Option<i64>,
}

/// The file record kept of a table entry.
pub open spec fn mft_record(x: MftEntry) -> FileRecord {
    FileRecord { full_path: x.path, size_bytes: x.size, last_modified: x.modified, last_accessed: None }
}

/// The records of the files (not directories) of the table, in table order.
pub open spec fn mft_records(e: Seq<MftEntry>) -> Seq<FileRecord>
    decreases e.len(),
{
    if e.len() == 0 {
        seq![]
    } else if e.last().is_directory {
        mft_records(e.drop_last())
    } else {
        mft_records(e.drop_last()).push(mft_record(e.last()))
    }
}

/// For each file of the table that has a folder key, the key and the file size.
pub open spec fn folder_items(e: Seq<MftEntry>, letter: Seq<char>, depth: nat) -> Seq<(Seq<char>, u64)>
    decreases e.len(),
{
    if e.len() == 0 {
        seq![]
    } else {
        let r = folder_items(e.drop_last(), letter, depth);
        let x = e.last();
        if x.is_directory {
            r
        } else {
            match folder_key_spec(x.path@, letter, depth) {
                Some(k) => r.push((k, x.size)),
                None => r,
            }
        }
    }
}

pub open spec fn items_view(s: Seq<(String, u64)>) -> Seq<(Seq<char>, u64)> {
    s.map_values(|x: (String, u64)| (x.0@, x.1))
}

/// The folder paths of the table's directories, written by `folder_path_spec`.
pub open spec fn dir_keys(e: Seq<MftEntry>, letter: Seq<char>) -> Seq<Seq<char>>
    decreases e.len(),
{
    if e.len() == 0 {
        seq![]
    } else if e.last().is_directory {
        dir_keys(e.drop_last(), letter).push(folder_path_spec(e.last().path@, letter))
    } else {
        dir_keys(e.drop_last(), letter)
    }
}

/// The folder paths, written by `folder_path_spec`, of the folders that hold
/// some entry of the table.
pub open spec fn parent_keys(e: Seq<MftEntry>, letter: Seq<char>) -> Seq<Seq<char>>
    decreases e.len(),
{
    if e.len() == 0 {
        seq![]
    } else {
        match parent_spec(e.last().path@) {
            Some(q) => parent_keys(e.drop_last(), letter).push(folder_path_spec(q, letter)),
            None => parent_keys(e.drop_last(), letter),
        }
    }
}

/// How deep below the drive root folders are told apart among the largest.
pub const FOLDER_KEY_DEPTH: usize = 5;

/// Reads file names and paths as the volume table gives them.
pub struct NtfsExplorer {}

impl NtfsExplorer {
    pub fn new() -> (r: Self) {
        NtfsExplorer {}
    }

    fn is_guid_concat(&self, name: &str) -> (r: bool)
        ensures
            r == looks_like_guid_pair(name@),
    {
        let cs = chars_of(name);
        let n = cs.len();
        if n == 0 || cs[0] != '{' || cs[n - 1] != '}' {
            return false;
        }
        let mut i: usize = 0;
        while i + 1 < n
            invariant
                n == cs@.len(),
                cs@ == name@,
                i < n,
                cs@[0] == '{',
                cs@[n - 1] == '}',
                forall|k: int| 0 <= k < i ==> !((#[trigger] cs@[k]) == '}' && cs@[k + 1] == '{'),
            decreases n - i,
        {
            if cs[i] == '}' && cs[i + 1] == '{' {
                assert(name@[i as int] == '}' && name@[i + 1] == '{');
                return true;
            }
            i = i + 1;
        }
        false
    }

    /// Gives a readable name: "No Name" for an empty name when `empty` is set,
    /// "GUID name" for two concatenated GUIDs, else the name itself.
    pub fn filter_filename(&self, name: &str, empty: bool) -> (r: String)
        ensures
            r@ == display_name(name@, empty),
    {
        if name.is_empty() && empty {
            String::from_str("No Name")
        } else if self.is_guid_concat(name) {
            String::from_str("GUID name")
        } else {
            name.to_string()
        }
    }

    /// Writes every run of separators in `path` as a single `\`.
    fn cleanup_path(&self, path: &str) -> (r: String)
        ensures
            r@ == collapse_seps(path@),
    {
        string_of(&collapse_chars(&chars_of(path)))
    }

    /// Writes a folder path of drive `drive_letter` in the form `X:\...`: the raw
    /// device path in front is dropped and separators are cleaned up.
    fn format_folder_path(&self, path_str: &str, drive_letter: &str) -> (r: String)
        ensures
            r@ == folder_path_spec(path_str@, drive_letter@),
    {
        let rest = strip_device_chars(&chars_of(path_str), drive_letter);
        let mut f = chars_of(drive_letter);
        f.push(':');
        let ghost l = drive_letter@;
        if rest.len() == 0 {
            f.push('\\');
            assert(f@ == l + seq![':', '\\']);
        } else if rest[0] == '\\' {
            assert(f@ == l + seq![':']);
        } else {
            f.push('\\');
            assert(f@ == l + seq![':', '\\']);
        }
        push_all(&mut f, &rest);
        assert(rest@.len() == 0 ==> f@ == l + seq![':', '\\']);
        self.cleanup_path(string_of(&f).as_str())
    }

    /// The folder key of a file: see `folder_key_spec`.
    #[verifier::spinoff_prover]
    pub fn folder_key_from_path(&self, full_path: &str, drive_letter: &str, depth: usize) -> (r:
        Option<String>)
        ensures
            match r {
                Some(k) => folder_key_spec(full_path@, drive_letter@, depth as nat) == Some(k@),
                None => folder_key_spec(full_path@, drive_letter@, depth as nat) is None,
            },
    {
        let cs = chars_of(full_path);
        if cs.len() == 0 {
            return None;
        }
        let rest = strip_drive_chars(&cs, drive_letter);
        let ranges = part_ranges(&rest);
        let ghost ps = parts(rest@);
        let dirs = if ranges.len() == 0 {
            0
        } else {
            ranges.len() - 1
        };
        let k = if depth < dirs {
            depth
        } else {
            dirs
        };
        let rest_s = string_of(&rest);
        let mut out = chars_of(drive_letter);
        out.push(':');
        out.push('\\');
        let ghost base = out@;
        assert(base == drive_letter@ + seq![':', '\\']);
        let mut j: usize = 0;
        while j < k
            invariant
                k <= ranges@.len(),
                rest_s@ == rest@,
                ps == parts(rest@),
                ranges@.len() == ps.len(),
                forall|m: int|
                    #![trigger ranges@[m]]
                    0 <= m < ranges@.len() ==> ranges@[m].0 <= ranges@[m].1 <= rest@.len()
                        && rest@.subrange(ranges@[m].0 as int, ranges@[m].1 as int) == ps[m],
                j <= k,
                out@ == base + join_names(ps.subrange(0, j as int)),
            decreases k - j,
        {
            let ghost before = out@;
            assert(ps.subrange(0, j + 1).drop_last() == ps.subrange(0, j as int));
            assert(ps.subrange(0, j + 1).last() == ps[j as int]);
            if j > 0 {
                out.push('\\');
            }
            let (a, b) = ranges[j];
            let name = self.filter_filename(rest_s.as_str().substring_char(a, b), false);
            push_all(&mut out, &chars_of(name.as_str()));
            if j > 0 {
                assert(out@ == base + (join_names(ps.subrange(0, j as int)) + seq!['\\'] + display_name(ps[j as int], false)));
            } else {
                assert(ps.subrange(0, 1).len() == 1);
                assert(out@ == base + display_name(ps[0], false));
            }
            j = j + 1;
        }
        Some(string_of(&out))
    }

    /// Whether `folder` is hidden: its last part starts with a dot.
    pub fn is_hidden_folder(&self, folder: &str) -> (r: bool)
        ensures
            r == hidden_spec(folder@),
    {
        let cs = chars_of(folder);
        let ranges = part_ranges(&cs);
        if ranges.len() == 0 {
            return false;
        }
        let (a, b) = ranges[ranges.len() - 1];
        let ghost last = cs@.subrange(a as int, b as int);
        assert(last == parts(cs@).last());
        if b <= a || cs[a] != '.' {
            return false;
        }
        assert(last[0] == cs@[a as int]);
        if b - a == 1 {
            assert(last == seq!['.']);
            return false;
        }
        if b - a == 2 && cs[a + 1] == '.' {
            assert(last == seq!['.', '.']);
            return false;
        }
        assert(last != seq!['.']);
        assert(last != seq!['.', '.']) by {
            if b - a == 2 {
                assert(last[1] == cs@[a + 1]);
            }
        }
        true
    }

    /// Whether `path` is a system folder to leave out of reports (or holds
    /// characters that no folder name has): see `system_spec`.
    pub fn is_system_folder(&self, path: &str) -> (r: bool)
        ensures
            r == system_spec(path@),
    {
        self.is_system_path(lowercase(path).as_str(), path)
    }

    /// The checks of `is_system_folder` on `path`, given `lower`, its lower-case form.
    pub fn is_system_path(&self, lower: &str, path: &str) -> (r: bool)
        ensures
            r == system_checks(lower@, path@),
    {
        let lower = chars_of(lower);
        let p = chars_of(path);
        contains_seq(&lower, &chars_of("\\system volume information")) || contains_seq(
            &lower,
            &chars_of("\\$recycle.bin"),
        ) || contains_seq(&lower, &chars_of("\\$extend")) || contains_seq(
            &lower,
            &chars_of("\\windows\\"),
        ) || ends_with_seq(&lower, &chars_of("\\windows")) || contains_seq(&p, &chars_of("\\$"))
            || contains_seq(&p, &chars_of("?")) || contains_seq(&p, &chars_of("*"))
    }

    /// A byte count written for people: `1505210368` gives `1.40 GB`,
    /// `815663130` gives `777.88 MB`, `100` gives `100 bytes`.
    pub fn format_size(&self, bytes: u64) -> (r: String)
        ensures
            r@ == size_text(bytes),
    {
        if bytes >= GIB {
            two_places_text(hundredths(bytes, GIB), " GB")
        } else if bytes >= MIB {
            two_places_text(hundredths(bytes, MIB), " MB")
        } else if bytes >= KIB {
            two_places_text(hundredths(bytes, KIB), " KB")
        } else {
            let mut out = chars_of(decimal(bytes).as_str());
            push_all(&mut out, &chars_of(" bytes"));
            string_of(&out)
        }
    }

    /// The file records of the table's files, in table order.
    pub fn file_records(&self, entries: &Vec<MftEntry>) -> (r: Vec<FileRecord>)
        ensures
            r@ == mft_records(entries@),
    {
        let mut r: Vec<FileRecord> = Vec::new();
        let mut i: usize = 0;
        while i < entries.len()
            invariant
                i <= entries@.len(),
                r@ == mft_records(entries@.subrange(0, i as int)),
            decreases entries@.len() - i,
        {
            assert(entries@.subrange(0, i + 1).drop_last() == entries@.subrange(0, i as int));
            let x = &entries[i];
            if !x.is_directory {
                r.push(
                    FileRecord {
                        full_path: x.path.clone(),
                        size_bytes: x.size,
                        last_modified: x.modified,
                        last_accessed: None,
                    },
                );
            }
            i = i + 1;
        }
        assert(entries@.subrange(0, entries@.len() as int) == entries@);
        r
    }

    /// All the files of the table, largest first.
    pub fn scan_largest_files(&self, entries: &Vec<MftEntry>) -> (r: Vec<FileRecord>)
        ensures
            r@.to_multiset() == mft_records(entries@).to_multiset(),
            sorted_desc(r@),
    {
        let mut r = self.file_records(entries);
        sort_by_size_desc(&mut r);
        r
    }

    /// The bytes under each folder key of the table's files (see
    /// `folder_key_spec`, `FOLDER_KEY_DEPTH` levels deep), largest first.
    #[verifier::spinoff_prover]
    pub fn scan_largest_folders(&self, entries: &Vec<MftEntry>, drive_letter: &str) -> (r: Vec<KeyTotal>)
        ensures
            keys_unique(r@),
            sorted_desc(r@),
            exists|items: Seq<(String, u64)>|
                #![trigger items_view(items)]
                items_view(items) == folder_items(entries@, drive_letter@, FOLDER_KEY_DEPTH as nat) && (
                forall|g: int|
                    0 <= g < r@.len() ==> #[trigger] r@[g].total_size_bytes == key_bytes(items, r@[g].key@)
                        && r@[g].file_count == key_count(items, r@[g].key@)) && forall|f: int|
                    0 <= f < items.len() ==> has_key(r@, #[trigger] items[f].0@),
    {
        let ghost letter = drive_letter@;
        let ghost depth = FOLDER_KEY_DEPTH as nat;
        let mut items: Vec<(String, u64)> = Vec::new();
        let mut i: usize = 0;
        while i < entries.len()
            invariant
                i <= entries@.len(),
                letter == drive_letter@,
                depth == FOLDER_KEY_DEPTH as nat,
                items_view(items@) == folder_items(entries@.subrange(0, i as int), letter, depth),
            decreases entries@.len() - i,
        {
            let ghost pre = entries@.subrange(0, i as int);
            assert(entries@.subrange(0, i + 1).drop_last() == pre);
            let x = &entries[i];
            if !x.is_directory {
                match self.folder_key_from_path(x.path.as_str(), drive_letter, FOLDER_KEY_DEPTH) {
                    Some(k) => {
                        let ghost old_items = items@;
                        items.push((k, x.size));
                        assert(items_view(items@) == items_view(old_items).push((k@, x.size)));
                    },
                    None => {},
                }
            }
            i = i + 1;
        }
        assert(entries@.subrange(0, entries@.len() as int) == entries@);
        let groups = sum_by_key(&items);
        let ghost g0 = groups@;
        let mut r = groups;
        sort_by_size_desc(&mut r);
        proof {
            crate::group::lemma_perm_keeps_keys(g0, r@);
        }
        assert forall|g: int| 0 <= g < r@.len() implies #[trigger] r@[g].total_size_bytes == key_bytes(
            items@,
            r@[g].key@,
        ) && r@[g].file_count == key_count(items@, r@[g].key@) by {
            assert(r@.contains(r@[g]));
            let h = choose|h: int| 0 <= h < g0.len() && g0[h] == r@[g];
            assert(g0[h].total_size_bytes == key_bytes(items@, g0[h].key@));
        }
        assert forall|f: int| 0 <= f < items@.len() implies has_key(r@, #[trigger] items@[f].0@) by {
            assert(has_key(g0, items@[f].0@));
            let h = choose|h: int| 0 <= h < g0.len() && #[trigger] g0[h].key@ == items@[f].0@;
            assert(g0.contains(g0[h]));
            let g = choose|g: int| 0 <= g < r@.len() && r@[g] == g0[h];
            assert(r@[g].key@ == items@[f].0@);
        }
        assert(items_view(items@) == folder_items(entries@, drive_letter@, FOLDER_KEY_DEPTH as nat));
        r
    }

    /// Bytes and file counts of the table's files by type key, largest first.
    #[verifier::spinoff_prover]
    pub fn scan_file_type_dist(&self, entries: &Vec<MftEntry>) -> (r: Vec<KeyTotal>)
        ensures
            keys_unique(r@),
            sorted_desc(r@),
            forall|g: int|
                0 <= g < r@.len() ==> #[trigger] r@[g].total_size_bytes == group_bytes(
                    mft_records(entries@),
                    r@[g].key@,
                ) && r@[g].file_count == group_count(mft_records(entries@), r@[g].key@),
            forall|f: int|
                0 <= f < mft_records(entries@).len() ==> has_key(
                    r@,
                    type_key_spec(#[trigger] mft_records(entries@)[f].full_path@),
                ),
    {
        let files = self.file_records(entries);
        let groups = group_by_type(&files);
        let ghost g0 = groups@;
        let mut r = groups;
        sort_by_size_desc(&mut r);
        proof {
            crate::group::lemma_perm_keeps_keys(g0, r@);
        }
        assert forall|g: int| 0 <= g < r@.len() implies #[trigger] r@[g].total_size_bytes == group_bytes(
            files@,
            r@[g].key@,
        ) && r@[g].file_count == group_count(files@, r@[g].key@) by {
            assert(r@.contains(r@[g]));
            let h = choose|h: int| 0 <= h < g0.len() && g0[h] == r@[g];
            assert(g0[h].total_size_bytes == group_bytes(files@, g0[h].key@));
        }
        assert forall|f: int| 0 <= f < files@.len() implies has_key(
            r@,
            type_key_spec(#[trigger] files@[f].full_path@),
        ) by {
            let k = type_key_spec(files@[f].full_path@);
            assert(has_key(g0, k));
            let h = choose|h: int| 0 <= h < g0.len() && #[trigger] g0[h].key@ == k;
            assert(g0.contains(g0[h]));
            let g = choose|g: int| 0 <= g < r@.len() && r@[g] == g0[h];
            assert(r@[g].key@ == k);
        }
        r
    }

    /// The table's files modified in the 30 days before `now`, largest first.
    pub fn scan_recent_files(&self, entries: &Vec<MftEntry>, now: i64) -> (r: Vec<FileRecord>)
        ensures
            r@.to_multiset() == mft_records(entries@).filter(|x: FileRecord| is_recent(x, now)).to_multiset(),
            sorted_desc(r@),
    {
        recent_large_files(&self.file_records(entries), now)
    }

    /// The table's files modified more than 180 days before `now`, largest first.
    pub fn scan_old_files(&self, entries: &Vec<MftEntry>, now: i64) -> (r: Vec<FileRecord>)
        ensures
            r@.to_multiset() == mft_records(entries@).filter(|x: FileRecord| is_old(x, now)).to_multiset(),
            sorted_desc(r@),
    {
        old_large_files(&self.file_records(entries), now)
    }

    /// The folders of the table that hold no entry at all: each directory's
    /// folder path, unless some entry of the table lies in that folder. Each
    /// folder is listed once.
    #[verifier::spinoff_prover]
    pub fn scan_empty_folders(&self, entries: &Vec<MftEntry>, drive_letter: &str) -> (r: Vec<String>)
        ensures
            forall|i: int, j: int| 0 <= i < j < r@.len() ==> #[trigger] r@[i]@ != #[trigger] r@[j]@,
            forall|k: Seq<char>|
                #[trigger] in_strings(r@, k) <==> (dir_keys(entries@, drive_letter@).contains(k)
                    && !parent_keys(entries@, drive_letter@).contains(k)),
    {
        let ghost letter = drive_letter@;
        let mut dirs: Vec<String> = Vec::new();
        let mut parents: Vec<String> = Vec::new();
        let mut i: usize = 0;
        while i < entries.len()
            invariant
                i <= entries@.len(),
                letter == drive_letter@,
                dirs@.len() == dir_keys(entries@.subrange(0, i as int), letter).len(),
                forall|m: int|
                    0 <= m < dirs@.len() ==> #[trigger] dirs@[m]@ == dir_keys(
                        entries@.subrange(0, i as int),
                        letter,
                    )[m],
                parents@.len() == parent_keys(entries@.subrange(0, i as int), letter).len(),
                forall|m: int|
                    0 <= m < parents@.len() ==> #[trigger] parents@[m]@ == parent_keys(
                        entries@.subrange(0, i as int),
                        letter,
                    )[m],
            decreases entries@.len() - i,
        {
            let ghost pre = entries@.subrange(0, i as int);
            let ghost next = entries@.subrange(0, i + 1);
            assert(next.drop_last() == pre);
            let ghost d0 = dirs@;
            let ghost p0 = parents@;
            let x = &entries[i];
            if x.is_directory {
                dirs.push(self.format_folder_path(x.path.as_str(), drive_letter));
            }
            assert forall|m: int| 0 <= m < dirs@.len() implies #[trigger] dirs@[m]@ == dir_keys(
                next,
                letter,
            )[m] by {
                if m < d0.len() {
                    assert(dirs@[m] == d0[m]);
                }
            }
            match parent_path(&x.path) {
                Some(q) => {
                    parents.push(self.format_folder_path(q.as_str(), drive_letter));
                },
                None => {},
            }
            assert forall|m: int| 0 <= m < parents@.len() implies #[trigger] parents@[m]@
                == parent_keys(next, letter)[m] by {
                if m < p0.len() {
                    assert(parents@[m] == p0[m]);
                }
            }
            i = i + 1;
        }
        assert(entries@.subrange(0, entries@.len() as int) == entries@);
        let ghost dk = dir_keys(entries@, letter);
        let ghost pk = parent_keys(entries@, letter);
        assert forall|k: Seq<char>| in_strings(parents@, k) <==> pk.contains(k) by {
            if in_strings(parents@, k) {
                let m = choose|m: int| 0 <= m < parents@.len() && #[trigger] parents@[m]@ == k;
                assert(pk[m] == k);
            }
            if pk.contains(k) {
                let m = choose|m: int| 0 <= m < pk.len() && pk[m] == k;
                assert(parents@[m]@ == k);
            }
        }
        let mut r: Vec<String> = Vec::new();
        let mut j: usize = 0;
        while j < dirs.len()
            invariant
                j <= dirs@.len(),
                dirs@.len() == dk.len(),
                forall|m: int| 0 <= m < dirs@.len() ==> #[trigger] dirs@[m]@ == dk[m],
                forall|k: Seq<char>| in_strings(parents@, k) <==> pk.contains(k),
                forall|a: int, b: int| 0 <= a < b < r@.len() ==> #[trigger] r@[a]@ != #[trigger] r@[b]@,
                forall|k: Seq<char>|
                    #[trigger] in_strings(r@, k) <==> ((exists|m: int| 0 <= m < j && dk[m] == k)
                        && !pk.contains(k)),
            decreases dirs@.len() - j,
        {
            let d = &dirs[j];
            let ghost r0 = r@;
            let in_parents = holds_string(&parents, d);
            let in_r = holds_string(&r, d);
            if !in_parents && !in_r {
                r.push(d.clone());
                assert forall|a: int, b: int| 0 <= a < b < r@.len() implies #[trigger] r@[a]@
                    != #[trigger] r@[b]@ by {
                    if b == r0.len() {
                        assert(r@[a] == r0[a]);
                    }
                }
            }
            assert forall|k: Seq<char>|
                #[trigger] in_strings(r@, k) <==> ((exists|m: int| 0 <= m < j + 1 && dk[m] == k)
                    && !pk.contains(k)) by {
                assert(in_strings(r0, k) ==> in_strings(r@, k)) by {
                    if in_strings(r0, k) {
                        let a = choose|a: int| 0 <= a < r0.len() && #[trigger] r0[a]@ == k;
                        assert(r@[a] == r0[a]);
                    }
                }
                if k == d@ {
                    assert(dk[j as int] == k);
                    if !in_parents && !in_r {
                        assert(r@[r0.len() as int]@ == k);
                    }
                } else {
                    assert(in_strings(r@, k) ==> in_strings(r0, k)) by {
                        if in_strings(r@, k) {
                            let a = choose|a: int| 0 <= a < r@.len() && #[trigger] r@[a]@ == k;
                            if a < r0.len() {
                                assert(r@[a] == r0[a]);
                            }
                        }
                    }
                    assert((exists|m: int| 0 <= m < j + 1 && dk[m] == k) ==> (exists|m: int|
                        0 <= m < j && dk[m] == k)) by {
                        if exists|m: int| 0 <= m < j + 1 && dk[m] == k {
                            let m = choose|m: int| 0 <= m < j + 1 && dk[m] == k;
                            assert(m != j);
                        }
                    }
                }
            }
            j = j + 1;
        }
        assert forall|k: Seq<char>| #[trigger] in_strings(r@, k) <==> (dk.contains(k) && !pk.contains(k)) by {
            if dk.contains(k) {
                let m = choose|m: int| 0 <= m < dk.len() && dk[m] == k;
                assert(0 <= m < dirs@.len() && dk[m] == k);
            }
        }
        r
    }

    /// The folders of `folders` that are not system folders, in order.
    pub fn without_system_folders(&self, folders: &Vec<String>) -> (r: Vec<String>)
        ensures
            r@ == folders@.filter(|x: String| !system_spec(x@)),
    {
        let ghost p = |x: String| !system_spec(x@);
        let mut r: Vec<String> = Vec::new();
        let mut i: usize = 0;
        while i < folders.len()
            invariant
                i <= folders@.len(),
                p == (|x: String| !system_spec(x@)),
                r@ == folders@.subrange(0, i as int).filter(p),
            decreases folders@.len() - i,
        {
            proof {
                reveal(Seq::filter);
                assert(folders@.subrange(0, i + 1).drop_last() == folders@.subrange(0, i as int));
            }
            if !self.is_system_folder(folders[i].as_str()) {
                r.push(folders[i].clone());
            }
            i = i + 1;
        }
        assert(folders@.subrange(0, folders@.len() as int) == folders@);
        r
    }
}

} // verus!
