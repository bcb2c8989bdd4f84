//! Queries over one drive scan: type distribution, largest files and folders,
//! files by age, empty folders, and the space figures of a drive.
use vstd::prelude::*;
use crate::model::{FileRecord, FolderAggregate};
use crate::outside::{SizeOrdered, sort_by_size_desc, sorted_desc};
use crate::group::{has_key, key_bytes, key_count, keys_unique, sum_by_key, KeyTotal};
use crate::paths::{type_key, type_key_spec};
use crate::walk::folder_paths_distinct;

verus! {

impl SizeOrdered for FileRecord {
    open spec fn size_key(&self) -> u128 {
        self.size_bytes as u128
    }

    fn size_of(&self) -> (r: u128) {
        self.size_bytes as u128
    }
}

impl SizeOrdered for FolderAggregate {
    open spec fn size_key(&self) -> u128 {
        self.total_size_bytes
    }

    fn size_of(&self) -> (r: u128) {
        self.total_size_bytes
    }
}

impl SizeOrdered for KeyTotal {
    open spec fn size_key(&self) -> u128 {
        self.total_size_bytes
    }

    fn size_of(&self) -> (r: u128) {
        self.total_size_bytes
    }
}

/// Bytes of the files of `fs` whose type key is `k`.
pub open spec fn group_bytes(fs: Seq<FileRecord>, k: Seq<char>) -> int
    decreases fs.len(),
{
    if fs.len() == 0 {
        0
    } else {
        group_bytes(fs.drop_last(), k) + if type_key_spec(fs.last().full_path@) == k {
            fs.last().size_bytes as int
        } else {
            0
        }
    }
}

/// Number of the files of `fs` whose type key is `k`.
pub open spec fn group_count(fs: Seq<FileRecord>, k: Seq<char>) -> int
    decreases fs.len(),
{
    if fs.len() == 0 {
        0
    } else {
        group_count(fs.drop_last(), k) + if type_key_spec(fs.last().full_path@) == k {
            1int
        } else {
            0
        }
    }
}

proof fn lemma_keys_of_files(fs: Seq<FileRecord>, items: Seq<(String, u64)>, k: Seq<char>)
    requires
        items.len() == fs.len(),
        forall|m: int|
            0 <= m < fs.len() ==> #[trigger] items[m].0@ == type_key_spec(fs[m].full_path@)
                && items[m].1 == fs[m].size_bytes,
    ensures
        key_bytes(items, k) == group_bytes(fs, k),
        key_count(items, k) == group_count(fs, k),
    decreases fs.len(),
{
    if fs.len() > 0 {
        assert forall|m: int| 0 <= m < fs.drop_last().len() implies #[trigger] items.drop_last()[m].0@
            == type_key_spec(fs.drop_last()[m].full_path@) && items.drop_last()[m].1
            == fs.drop_last()[m].size_bytes by {
            assert(items.drop_last()[m] == items[m]);
            assert(fs.drop_last()[m] == fs[m]);
        }
        lemma_keys_of_files(fs.drop_last(), items.drop_last(), k);
        assert(items.last() == items[items.len() - 1]);
    }
}

/// Groups `files` by type key, with the bytes and number of files of each key,
/// in the order each key is first met.
#[verifier::spinoff_prover]
pub fn group_by_type(files: &Vec<FileRecord>) -> (groups: Vec<KeyTotal>)
    ensures
        keys_unique(groups@),
        forall|g: int|
            0 <= g < groups@.len() ==> #[trigger] groups@[g].total_size_bytes == group_bytes(
                files@,
                groups@[g].key@,
            ) && groups@[g].file_count == group_count(files@, groups@[g].key@),
        forall|f: int|
            0 <= f < files@.len() ==> has_key(groups@, type_key_spec(#[trigger] files@[f].full_path@)),
{
    let mut items: Vec<(String, u64)> = Vec::new();
    let mut i: usize = 0;
    while i < files.len()
        invariant
            i <= files@.len(),
            items@.len() == i,
            forall|m: int|
                0 <= m < i ==> #[trigger] items@[m].0@ == type_key_spec(files@[m].full_path@)
                    && items@[m].1 == files@[m].size_bytes,
        decreases files@.len() - i,
    {
        items.push((type_key(&files[i].full_path), files[i].size_bytes));
        i = i + 1;
    }
    let groups = sum_by_key(&items);
    assert forall|k: Seq<char>| key_bytes(items@, k) == group_bytes(files@, k) && key_count(items@, k)
        == group_count(files@, k) by {
        lemma_keys_of_files(files@, items@, k);
    }
    assert forall|f: int| 0 <= f < files@.len() implies has_key(
        groups@,
        type_key_spec(#[trigger] files@[f].full_path@),
    ) by {
        assert(has_key(groups@, items@[f].0@));
    }
    groups
}

/// Bytes and file counts by type key, for the keys whose files total more
/// than `min_bytes`, largest first. Keys are lower-case extensions, with
/// `(No Extension)` for files that have none.
#[verifier::spinoff_prover]
pub fn file_type_distribution(files: &Vec<FileRecord>, min_bytes: u128) -> (r: Vec<KeyTotal>)
    ensures
        keys_unique(r@),
        forall|g: int|
            0 <= g < r@.len() ==> #[trigger] r@[g].total_size_bytes == group_bytes(
                files@,
                r@[g].key@,
            ) && r@[g].file_count == group_count(files@, r@[g].key@)
                && r@[g].total_size_bytes > min_bytes,
        forall|f: int|
            0 <= f < files@.len() && group_bytes(files@, type_key_spec(files@[f].full_path@))
                > min_bytes ==> has_key(r@, type_key_spec(#[trigger] files@[f].full_path@)),
        sorted_desc(r@),
{
    let groups = group_by_type(files);
    let n = groups.len();
    let mut kept: Vec<KeyTotal> = Vec::new();
    let mut j: usize = 0;
    while j < n
        invariant
            n == groups@.len(),
            j <= n,
            keys_unique(groups@),
            keys_unique(kept@),
            forall|k: int|
                0 <= k < kept@.len() ==> exists|h: int|
                    0 <= h < j && #[trigger] groups@[h] == #[trigger] kept@[k],
            forall|k: int| 0 <= k < kept@.len() ==> #[trigger] kept@[k].total_size_bytes > min_bytes,
            forall|h: int|
                0 <= h < j && #[trigger] groups@[h].total_size_bytes > min_bytes ==> kept@.contains(
                    groups@[h],
                ),
        decreases n - j,
    {
        if groups[j].total_size_bytes > min_bytes {
            let ghost k0 = kept@;
            let x = KeyTotal {
                key: groups[j].key.clone(),
                total_size_bytes: groups[j].total_size_bytes,
                file_count: groups[j].file_count,
            };
            assert(x == groups@[j as int]);
            kept.push(x);
            assert forall|a: int, b: int|
                0 <= a < kept@.len() && 0 <= b < kept@.len() && a != b implies #[trigger] kept@[a].key@
                != #[trigger] kept@[b].key@ by {
                if a < k0.len() && b < k0.len() {
                    assert(k0[a].key@ != k0[b].key@);
                } else if a < k0.len() {
                    let h = choose|h: int| 0 <= h < j && #[trigger] groups@[h] == k0[a];
                    assert(groups@[h].key@ != groups@[j as int].key@);
                } else {
                    let h = choose|h: int| 0 <= h < j && #[trigger] groups@[h] == k0[b];
                    assert(groups@[h].key@ != groups@[j as int].key@);
                }
            }
            assert forall|k: int| 0 <= k < kept@.len() implies exists|h: int|
                0 <= h < j + 1 && #[trigger] groups@[h] == #[trigger] kept@[k] by {
                if k < k0.len() {
                    let h = choose|h: int| 0 <= h < j && #[trigger] groups@[h] == k0[k];
                    assert(groups@[h] == kept@[k]);
                } else {
                    assert(groups@[j as int] == kept@[k]);
                }
            }
            assert forall|h: int|
                0 <= h < j + 1 && #[trigger] groups@[h].total_size_bytes > min_bytes implies kept@.contains(
                groups@[h],
            ) by {
                if h < j {
                    let k = choose|k: int| 0 <= k < k0.len() && k0[k] == groups@[h];
                    assert(kept@[k] == groups@[h]);
                } else {
                    assert(kept@[k0.len() as int] == groups@[h]);
                }
            }
        }
        j = j + 1;
    }
    let ghost k1 = kept@;
    sort_by_size_desc(&mut kept);
    proof {
        crate::group::lemma_perm_keeps_keys(k1, kept@);
    }
    let r = kept;
    assert forall|g: int| 0 <= g < r@.len() implies #[trigger] r@[g].total_size_bytes == group_bytes(
        files@,
        r@[g].key@,
    ) && r@[g].file_count == group_count(files@, r@[g].key@) && r@[g].total_size_bytes
        > min_bytes by {
        assert(r@.contains(r@[g]));
        let k = choose|k: int| 0 <= k < k1.len() && k1[k] == r@[g];
        assert(k1[k].total_size_bytes > min_bytes);
        let h = choose|h: int| 0 <= h < n && #[trigger] groups@[h] == k1[k];
        assert(groups@[h] == r@[g]);
        assert(groups@[h].total_size_bytes == group_bytes(files@, groups@[h].key@));
        assert(groups@[h].file_count == group_count(files@, groups@[h].key@));
    }
    assert forall|f: int|
        0 <= f < files@.len() && group_bytes(files@, type_key_spec(files@[f].full_path@))
            > min_bytes implies has_key(r@, type_key_spec(#[trigger] files@[f].full_path@)) by {
        let key = type_key_spec(files@[f].full_path@);
        assert(has_key(groups@, key));
        let h = choose|h: int| 0 <= h < groups@.len() && #[trigger] groups@[h].key@ == key;
        assert(groups@[h].total_size_bytes > min_bytes);
        assert(k1.contains(groups@[h]));
        assert(r@.contains(groups@[h]));
        let g = choose|g: int| 0 <= g < r@.len() && r@[g] == groups@[h];
        assert(r@[g].key@ == key);
    }
    r
}

proof fn lemma_filter_step<T>(s: Seq<T>, i: int, p: spec_fn(T) -> bool)
    requires
        0 <= i < s.len(),
    ensures
        s.subrange(0, i + 1).filter(p) == if p(s[i]) {
            s.subrange(0, i).filter(p).push(s[i])
        } else {
            s.subrange(0, i).filter(p)
        },
{
    reveal(Seq::filter);
    assert(s.subrange(0, i + 1).drop_last() == s.subrange(0, i));
}

/// Seconds in the window of recently modified files: 30 days.
pub const RECENT_WINDOW_SECS: i64 = 30 * 86_400;

/// Seconds after which a file counts as old: 180 days, about six months.
pub const OLD_WINDOW_SECS: i64 = 180 * 86_400;

/// The file was modified less than 30 days before `now` (exactly 30 days
/// before is not recent). A file without a modification time is not.
pub open spec fn is_recent(r: FileRecord, now: i64) -> bool {
    match r.last_modified {
        Some(m) => m as int > now as int - RECENT_WINDOW_SECS as int,
        None => false,
    }
}

/// The file was modified more than 180 days before `now`. A file without a
/// modification time is not.
pub open spec fn is_old(r: FileRecord, now: i64) -> bool {
    match r.last_modified {
        Some(m) => (m as int) < now as int - OLD_WINDOW_SECS as int,
        None => false,
    }
}

/// The folder is reported among the largest: between one and `max_depth`
/// levels below the root, and holding more than `min_bytes`.
pub open spec fn is_listed_folder(f: FolderAggregate, max_depth: usize, min_bytes: u128) -> bool {
    1 <= f.depth <= max_depth && f.total_size_bytes > min_bytes
}

fn modified_recently(r: &FileRecord, now: i64) -> (b: bool)
    ensures
        b == is_recent(*r, now),
{
    match r.last_modified {
        Some(m) => (m as i128) > (now as i128) - (RECENT_WINDOW_SECS as i128),
        None => false,
    }
}

fn modified_long_ago(r: &FileRecord, now: i64) -> (b: bool)
    ensures
        b == is_old(*r, now),
{
    match r.last_modified {
        Some(m) => (m as i128) < (now as i128) - (OLD_WINDOW_SECS as i128),
        None => false,
    }
}

/// The files modified in the 30 days before `now`, largest first.
pub fn recent_large_files(files: &Vec<FileRecord>, now: i64) -> (r: Vec<FileRecord>)
    ensures
        r@.to_multiset() == files@.filter(|x: FileRecord| is_recent(x, now)).to_multiset(),
        sorted_desc(r@),
{
    let ghost p = |x: FileRecord| is_recent(x, now);
    let mut kept: Vec<FileRecord> = Vec::new();
    let mut i: usize = 0;
    while i < files.len()
        invariant
            i <= files@.len(),
            p == (|x: FileRecord| is_recent(x, now)),
            kept@ == files@.subrange(0, i as int).filter(p),
        decreases files@.len() - i,
    {
        proof {
            lemma_filter_step(files@, i as int, p);
        }
        if modified_recently(&files[i], now) {
            kept.push(files[i].duplicate());
        }
        i = i + 1;
    }
    assert(files@.subrange(0, files@.len() as int) == files@);
    sort_by_size_desc(&mut kept);
    kept
}

/// The files modified more than 180 days before `now`, largest first.
pub fn old_large_files(files: &Vec<FileRecord>, now: i64) -> (r: Vec<FileRecord>)
    ensures
        r@.to_multiset() == files@.filter(|x: FileRecord| is_old(x, now)).to_multiset(),
        sorted_desc(r@),
{
    let ghost p = |x: FileRecord| is_old(x, now);
    let mut kept: Vec<FileRecord> = Vec::new();
    let mut i: usize = 0;
    while i < files.len()
        invariant
            i <= files@.len(),
            p == (|x: FileRecord| is_old(x, now)),
            kept@ == files@.subrange(0, i as int).filter(p),
        decreases files@.len() - i,
    {
        proof {
            lemma_filter_step(files@, i as int, p);
        }
        if modified_long_ago(&files[i], now) {
            kept.push(files[i].duplicate());
        }
        i = i + 1;
    }
    assert(files@.subrange(0, files@.len() as int) == files@);
    sort_by_size_desc(&mut kept);
    kept
}

/// The folders between one and `max_depth` levels below the root that hold
/// more than `min_bytes`, largest first. Deeper folders are not listed; their
/// bytes count in their listed ancestors.
pub fn largest_folders(folders: &Vec<FolderAggregate>, max_depth: usize, min_bytes: u128) -> (r: Vec<
    FolderAggregate,
>)
    ensures
        r@.to_multiset() == folders@.filter(
            |x: FolderAggregate| is_listed_folder(x, max_depth, min_bytes),
        ).to_multiset(),
        sorted_desc(r@),
{
    let ghost p = |x: FolderAggregate| is_listed_folder(x, max_depth, min_bytes);
    let mut kept: Vec<FolderAggregate> = Vec::new();
    let mut i: usize = 0;
    while i < folders.len()
        invariant
            i <= folders@.len(),
            p == (|x: FolderAggregate| is_listed_folder(x, max_depth, min_bytes)),
            kept@ == folders@.subrange(0, i as int).filter(p),
        decreases folders@.len() - i,
    {
        proof {
            lemma_filter_step(folders@, i as int, p);
        }
        let f = &folders[i];
        if 1 <= f.depth && f.depth <= max_depth && f.total_size_bytes > min_bytes {
            kept.push(f.duplicate());
        }
        i = i + 1;
    }
    assert(folders@.subrange(0, folders@.len() as int) == folders@);
    sort_by_size_desc(&mut kept);
    kept
}

/// The `count` largest files (all of them when there are fewer), largest
/// first. No file left out is larger than a file returned; among files of
/// equal size, which are returned is not fixed.
#[verifier::spinoff_prover]
pub fn largest_files(files: &Vec<FileRecord>, count: usize) -> (r: Vec<FileRecord>)
    ensures
        r@.len() == if count < files@.len() {
            count as int
        } else {
            files@.len() as int
        },
        sorted_desc(r@),
        r@.to_multiset().subset_of(files@.to_multiset()),
        forall|x: FileRecord, y: FileRecord|
            r@.contains(x) && files@.to_multiset().count(y) > r@.to_multiset().count(y)
                ==> #[trigger] x.size_bytes >= #[trigger] y.size_bytes,
{
    let mut all: Vec<FileRecord> = Vec::new();
    let mut i: usize = 0;
    while i < files.len()
        invariant
            i <= files@.len(),
            all@ == files@.subrange(0, i as int),
        decreases files@.len() - i,
    {
        all.push(files[i].duplicate());
        i = i + 1;
    }
    assert(files@.subrange(0, files@.len() as int) == files@);
    let ghost s0 = all@;
    sort_by_size_desc(&mut all);
    let ghost s = all@;
    proof {
        broadcast use vstd::seq_lib::group_to_multiset_ensures;
        assert(s0.len() == s0.to_multiset().len());
        assert(s.len() == s.to_multiset().len());
    }
    let k = if count < all.len() {
        count
    } else {
        all.len()
    };
    all.truncate(k);
    proof {
        let top = s.subrange(0, k as int);
        let rest = s.subrange(k as int, s.len() as int);
        assert(s == top + rest);
        vstd::seq_lib::lemma_multiset_commutative(top, rest);
        assert(all@ == top);
        broadcast use vstd::seq_lib::group_to_multiset_ensures;
        assert forall|x: FileRecord, y: FileRecord|
            all@.contains(x) && files@.to_multiset().count(y) > all@.to_multiset().count(y)
                implies #[trigger] x.size_bytes >= #[trigger] y.size_bytes by {
            assert(rest.to_multiset().count(y) > 0);
            assert(rest.contains(y));
            let b = choose|b: int| 0 <= b < rest.len() && rest[b] == y;
            let a = choose|a: int| 0 <= a < top.len() && top[a] == x;
            assert(s[a] == x);
            assert(s[k + b] == y);
            assert(s[a].size_key() >= s[k + b].size_key());
        }
    }
    all
}

/// The paths of the folders that hold no file, in the order given.
pub open spec fn empty_paths(s: Seq<FolderAggregate>) -> Seq<String>
    decreases s.len(),
{
    if s.len() == 0 {
        seq![]
    } else if s.last().file_count == 0 {
        empty_paths(s.drop_last()).push(s.last().folder_path)
    } else {
        empty_paths(s.drop_last())
    }
}

/// No two strings of `s` are equal.
pub open spec fn strings_distinct(s: Seq<String>) -> bool {
    forall|a: int, b: int| 0 <= a < b < s.len() ==> #[trigger] s[a]@ != #[trigger] s[b]@
}

proof fn lemma_empty_paths_from(f: Seq<FolderAggregate>)
    requires
        folder_paths_distinct(f),
    ensures
        strings_distinct(empty_paths(f)),
        forall|m: int|
            0 <= m < empty_paths(f).len() ==> exists|j: int|
                0 <= j < f.len() && #[trigger] empty_paths(f)[m] == f[j].folder_path,
    decreases f.len(),
{
    if f.len() > 0 {
        let g = f.drop_last();
        assert forall|a: int, b: int| 0 <= a < b < g.len() implies #[trigger] g[a].folder_path@
            != #[trigger] g[b].folder_path@ by {
            assert(g[a] == f[a]);
            assert(g[b] == f[b]);
        }
        lemma_empty_paths_from(g);
        let prev = empty_paths(g);
        let cur = empty_paths(f);
        assert forall|m: int| 0 <= m < cur.len() implies exists|j: int|
            0 <= j < f.len() && #[trigger] cur[m] == f[j].folder_path by {
            if m < prev.len() {
                assert(cur[m] == prev[m]);
                let j = choose|j: int| 0 <= j < g.len() && #[trigger] prev[m] == g[j].folder_path;
                assert(g[j] == f[j]);
            } else {
                assert(cur[m] == f.last().folder_path);
            }
        }
        if f.last().file_count == 0 {
            assert forall|a: int, b: int| 0 <= a < b < cur.len() implies #[trigger] cur[a]@
                != #[trigger] cur[b]@ by {
                assert(cur[a] == prev[a]);
                if b < prev.len() {
                    assert(cur[b] == prev[b]);
                } else {
                    let j = choose|j: int| 0 <= j < g.len() && #[trigger] prev[a] == g[j].folder_path;
                    assert(g[j] == f[j]);
                    assert(f[j].folder_path@ != f[f.len() - 1].folder_path@);
                }
            }
        }
    }
}

/// The folders with no file anywhere beneath them, in walk order. When the
/// folders have distinct paths, so does the result.
pub fn empty_folders(folders: &Vec<FolderAggregate>) -> (r: Vec<String>)
    ensures
        r@ == empty_paths(folders@),
        folder_paths_distinct(folders@) ==> strings_distinct(r@),
{
    let mut r: Vec<String> = Vec::new();
    let mut i: usize = 0;
    while i < folders.len()
        invariant
            i <= folders@.len(),
            r@ == empty_paths(folders@.subrange(0, i as int)),
        decreases folders@.len() - i,
    {
        assert(folders@.subrange(0, i + 1).drop_last() == folders@.subrange(0, i as int));
        if folders[i].file_count == 0 {
            r.push(folders[i].folder_path.clone());
        }
        i = i + 1;
    }
    assert(folders@.subrange(0, folders@.len() as int) == folders@);
    proof {
        if folder_paths_distinct(folders@) {
            lemma_empty_paths_from(folders@);
        }
    }
    r
}

/// The space figures of a drive, in bytes.
#[derive(Debug, Clone, Copy, PartialEq, Eq, Structural)]
pub struct DriveSpace {
    pub total_bytes: u64,
    pub used_bytes: u64,
    pub free_bytes: u64,
}

/// The space figures of a drive from its total and free bytes. Used space is
/// the total less the free space, and 0 when the free space reads larger.
pub fn drive_space(total_bytes: u64, free_bytes: u64) -> (r: DriveSpace)
    ensures
        r.total_bytes == total_bytes,
        r.free_bytes == free_bytes,
        r.used_bytes == if free_bytes > total_bytes {
            0
        } else {
            total_bytes - free_bytes
        },
{
    DriveSpace { total_bytes, used_bytes: total_bytes.saturating_sub(free_bytes), free_bytes }
}

} // verus!
