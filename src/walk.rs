//! Turning the entries of one walk into file records and folder totals.
//!
//! A walk lists the scan root first, then every entry under it, each directory
//! before what it holds. An entry's ancestors are read off the depths alone: a
//! folder is an ancestor of every later entry that is deeper, up to the next
//! entry that is not deeper than the folder itself.
//!
//! Every directory the walk lists gets an aggregate, not only those above some
//! file: a folder with no file anywhere beneath it is then reported as empty,
//! without a second walk.
use vstd::prelude::*;
use crate::group::lemma_fits;
use crate::paths::{extends, extends_path, lemma_path_less_irreflexive, lemma_path_less_transitive, path_before, path_less};
use crate::text::chars_of;
use crate::model::{DriveScanResult, FileRecord, FolderAggregate, ScanError, WalkEntry};

verus! {

/// The walk starts with its root: a directory at depth 0.
pub open spec fn root_ok(e: Seq<WalkEntry>) -> bool {
    e.len() > 0 && e[0].depth == 0 && e[0].is_dir
}

/// Entry `i` may follow entry `i - 1`: it is below the root, at most one level
/// deeper than the entry before, never below a file, and its path comes after
/// the one before in path order.
pub open spec fn step_ok(e: Seq<WalkEntry>, i: int) -> bool {
    &&& 1 <= e[i].depth <= e[i - 1].depth + 1
    &&& !e[i - 1].is_dir ==> e[i].depth <= e[i - 1].depth
    &&& path_less(e[i - 1].path@, e[i].path@)
}

/// Each entry's path lies inside the path of the folder that directly holds it.
pub open spec fn paths_nest(e: Seq<WalkEntry>) -> bool {
    forall|j: int, i: int|
        #[trigger] is_ancestor(e, j, i) && e[j].depth + 1 == e[i].depth ==> extends(
            e[j].path@,
            e[i].path@,
        )
}

/// The entries are a depth-first listing of one tree, in path order, each
/// path inside its folder's path.
pub open spec fn well_formed(e: Seq<WalkEntry>) -> bool {
    &&& root_ok(e)
    &&& forall|i: int| 1 <= i < e.len() ==> #[trigger] step_ok(e, i)
    &&& paths_nest(e)
}

/// Entry `j` is a folder that holds entry `i`.
pub open spec fn is_ancestor(e: Seq<WalkEntry>, j: int, i: int) -> bool {
    &&& 0 <= j < i < e.len()
    &&& e[j].depth < e[i].depth
    &&& forall|k: int| j < k < i ==> e[j].depth < #[trigger] e[k].depth
}

/// What file `i` adds to the byte total of folder `j`.
pub open spec fn bytes_into(e: Seq<WalkEntry>, j: int, i: int) -> int {
    if !e[i].is_dir && is_ancestor(e, j, i) {
        e[i].size_bytes as int
    } else {
        0
    }
}

/// What file `i` adds to the file count of folder `j`.
pub open spec fn files_into(e: Seq<WalkEntry>, j: int, i: int) -> int {
    if !e[i].is_dir && is_ancestor(e, j, i) {
        1
    } else {
        0
    }
}

/// Bytes of the files among entries `lo..hi` that lie under folder `j`.
pub open spec fn range_bytes(e: Seq<WalkEntry>, j: int, lo: int, hi: int) -> int
    decreases hi - lo,
{
    if hi <= lo {
        0
    } else {
        range_bytes(e, j, lo, hi - 1) + bytes_into(e, j, hi - 1)
    }
}

/// Number of the files among entries `lo..hi` that lie under folder `j`.
pub open spec fn range_files(e: Seq<WalkEntry>, j: int, lo: int, hi: int) -> int
    decreases hi - lo,
{
    if hi <= lo {
        0
    } else {
        range_files(e, j, lo, hi - 1) + files_into(e, j, hi - 1)
    }
}

/// Bytes of all the files under folder `j`.
pub open spec fn subtree_bytes(e: Seq<WalkEntry>, j: int) -> int {
    range_bytes(e, j, 0, e.len() as int)
}

/// Number of all the files under folder `j`.
pub open spec fn subtree_files(e: Seq<WalkEntry>, j: int) -> int {
    range_files(e, j, 0, e.len() as int)
}

/// The record kept of a file entry.
pub open spec fn record_of(x: WalkEntry) -> FileRecord {
    FileRecord {
        full_path: x.path,
        size_bytes: x.size_bytes,
        last_modified: x.modified,
        last_accessed: x.accessed,
    }
}

/// The aggregate kept of directory entry `j`.
pub open spec fn aggregate_of(e: Seq<WalkEntry>, j: int) -> FolderAggregate {
    FolderAggregate {
        folder_path: e[j].path,
        depth: e[j].depth,
        total_size_bytes: subtree_bytes(e, j) as u128,
        file_count: subtree_files(e, j) as usize,
    }
}

/// Records of the files among the first `n` entries, in walk order.
pub open spec fn records_upto(e: Seq<WalkEntry>, n: int) -> Seq<FileRecord>
    decreases n,
{
    if n <= 0 {
        seq![]
    } else if e[n - 1].is_dir {
        records_upto(e, n - 1)
    } else {
        records_upto(e, n - 1).push(record_of(e[n - 1]))
    }
}

/// Aggregates of the directories among the first `n` entries, in walk order.
pub open spec fn folders_upto(e: Seq<WalkEntry>, n: int) -> Seq<FolderAggregate>
    decreases n,
{
    if n <= 0 {
        seq![]
    } else if e[n - 1].is_dir {
        folders_upto(e, n - 1).push(aggregate_of(e, n - 1))
    } else {
        folders_upto(e, n - 1)
    }
}

/// `p[i]` is the folder that directly holds entry `i`.
pub open spec fn parents_ok(e: Seq<WalkEntry>, p: Seq<usize>) -> bool {
    &&& p.len() == e.len()
    &&& forall|i: int|
        1 <= i < e.len() ==> {
            &&& #[trigger] p[i] < i
            &&& is_ancestor(e, p[i] as int, i)
            &&& e[p[i] as int].depth + 1 == e[i].depth
        }
}

/// The file and folder totals of one slice of a walk, one slot per entry.
pub struct PartialTotals {
    pub bytes: Vec<u128>,
    pub files: Vec<usize>,
}

pub proof fn lemma_ancestor_transitive(e: Seq<WalkEntry>, a: int, b: int, c: int)
    requires
        is_ancestor(e, a, b),
        is_ancestor(e, b, c),
    ensures
        is_ancestor(e, a, c),
{
    assert forall|k: int| a < k < c implies e[a].depth < #[trigger] e[k].depth by {
        if k < b {
        } else if k == b {
        } else {
            assert(e[b].depth < e[k].depth);
        }
    }
}

/// The folders holding entry `c` are its parent and the folders holding that parent.
pub proof fn lemma_parent_step(e: Seq<WalkEntry>, p: Seq<usize>, c: int)
    requires
        well_formed(e),
        parents_ok(e, p),
        1 <= c < e.len(),
    ensures
        forall|j: int| is_ancestor(e, j, c) <==> (j == p[c] as int || is_ancestor(e, j, p[c] as int)),
{
    let q = p[c] as int;
    assert(is_ancestor(e, q, c));
    assert forall|j: int| is_ancestor(e, j, c) implies (j == q || is_ancestor(e, j, q)) by {
        if j != q {
            if j > q {
                assert(e[q].depth < e[j].depth);
            } else {
                assert(e[j].depth < e[q].depth);
                assert forall|k: int| j < k < q implies e[j].depth < #[trigger] e[k].depth by {
                    assert(e[j].depth < e[k].depth);
                }
            }
        }
    }
    assert forall|j: int| (j == q || is_ancestor(e, j, q)) implies is_ancestor(e, j, c) by {
        if j != q {
            lemma_ancestor_transitive(e, j, q, c);
        }
    }
}

/// Checks that `entries` form one depth-first listing, and finds the folder
/// that directly holds each entry (slot 0, the root, holds 0).
#[verifier::spinoff_prover]
pub fn index_parents(entries: &Vec<WalkEntry>) -> (r: Result<Vec<usize>, ScanError>)
    ensures
        match r {
            Ok(p) => well_formed(entries@) && parents_ok(entries@, p@),
            Err(ScanError::RootUnreadable) => !root_ok(entries@),
            Err(ScanError::Disordered) => root_ok(entries@) && !well_formed(entries@),
        },
{
    let n = entries.len();
    if n == 0 {
        return Err(ScanError::RootUnreadable);
    }
    if entries[0].depth != 0 || !entries[0].is_dir {
        return Err(ScanError::RootUnreadable);
    }
    let mut stack: Vec<usize> = Vec::new();
    stack.push(0);
    let mut parents: Vec<usize> = Vec::new();
    parents.push(0);
    let mut i: usize = 1;
    while i < n
        invariant
            n == entries@.len(),
            1 <= i <= n,
            root_ok(entries@),
            forall|m: int| 1 <= m < i ==> #[trigger] step_ok(entries@, m),
            stack@.len() == entries@[i - 1].depth + 1,
            forall|k: int|
                0 <= k < stack@.len() ==> #[trigger] stack@[k] < i && entries@[stack@[k] as int].depth
                    == k,
            forall|k: int, m: int|
                0 <= k < stack@.len() && #[trigger] stack@[k] < m < i ==> k
                    < #[trigger] entries@[m].depth,
            parents@.len() == i,
            forall|m: int|
                1 <= m < i ==> {
                    &&& #[trigger] parents@[m] < m
                    &&& is_ancestor(entries@, parents@[m] as int, m)
                    &&& entries@[parents@[m] as int].depth + 1 == entries@[m].depth
                },
            forall|j: int, m: int|
                m < i && #[trigger] is_ancestor(entries@, j, m) && entries@[j].depth + 1
                    == entries@[m].depth ==> extends(entries@[j].path@, entries@[m].path@),
        decreases n - i,
    {
        let d = entries[i].depth;
        let pd = entries[i - 1].depth;
        let here = chars_of(entries[i].path.as_str());
        if d < 1 || d - 1 > pd || (!entries[i - 1].is_dir && d > pd) || !path_before(
            &chars_of(entries[i - 1].path.as_str()),
            &here,
        ) {
            assert(!step_ok(entries@, i as int));
            return Err(ScanError::Disordered);
        }
        assert(step_ok(entries@, i as int));
        stack.truncate(d);
        let p = stack[d - 1];
        assert(is_ancestor(entries@, p as int, i as int)) by {
            assert forall|k: int| p < k < i implies entries@[p as int].depth
                < #[trigger] entries@[k].depth by {
                assert(stack@[d - 1] == p);
            }
        }
        if !extends_path(&chars_of(entries[p].path.as_str()), &here) {
            assert(!paths_nest(entries@));
            return Err(ScanError::Disordered);
        }
        assert forall|j: int|
            #[trigger] is_ancestor(entries@, j, i as int) && entries@[j].depth + 1
                == entries@[i as int].depth implies j == p by {
            if j < p {
                assert(entries@[j].depth < entries@[p as int].depth);
            } else if j > p {
                assert(entries@[p as int].depth < entries@[j].depth);
            }
        }
        parents.push(p);
        stack.push(i);
        i = i + 1;
    }
    assert(paths_nest(entries@)) by {
        assert forall|j: int, m: int|
            #[trigger] is_ancestor(entries@, j, m) && entries@[j].depth + 1 == entries@[m].depth
                implies extends(entries@[j].path@, entries@[m].path@) by {
            assert(m < n);
        }
    }
    Ok(parents)
}

/// The paths of a well-formed walk come in strictly increasing path order, so
/// no two entries share a path.
pub proof fn lemma_paths_distinct(e: Seq<WalkEntry>, a: int, b: int)
    requires
        well_formed(e),
        0 <= a < b < e.len(),
    ensures
        path_less(e[a].path@, e[b].path@),
        e[a].path@ != e[b].path@,
    decreases b - a,
{
    assert(step_ok(e, b));
    if a + 1 < b {
        lemma_paths_distinct(e, a, b - 1);
        lemma_path_less_transitive(e[a].path@, e[b - 1].path@, e[b].path@);
    }
    lemma_path_less_irreflexive(e[a].path@);
}

/// A slice of a walk adds at most the largest file size once per entry.
pub proof fn lemma_range_bounds(e: Seq<WalkEntry>, j: int, lo: int, hi: int)
    requires
        lo <= hi,
    ensures
        0 <= range_bytes(e, j, lo, hi) <= (hi - lo) * (u64::MAX as int),
        0 <= range_files(e, j, lo, hi) <= hi - lo,
    decreases hi - lo,
{
    if hi > lo {
        lemma_range_bounds(e, j, lo, hi - 1);
        assert((hi - 1 - lo) * (u64::MAX as int) + (u64::MAX as int) == (hi - lo) * (u64::MAX
            as int)) by (nonlinear_arith);
    }
}

/// `bytes` and `files` hold, for every folder of the walk, the totals of the
/// files among entries `lo..hi`.
pub open spec fn totals_match(e: Seq<WalkEntry>, bytes: Seq<u128>, files: Seq<usize>, lo: int, hi: int) -> bool {
    &&& bytes.len() == e.len()
    &&& files.len() == e.len()
    &&& forall|j: int|
        #![trigger bytes[j]]
        #![trigger files[j]]
        0 <= j < e.len() ==> bytes[j] == range_bytes(e, j, lo, hi) && files[j] == range_files(e, j, lo, hi)
}

/// Adds file `i` to the totals of every folder that holds it.
#[verifier::spinoff_prover]
fn add_file(
    entries: &Vec<WalkEntry>,
    parents: &Vec<usize>,
    bytes: &mut Vec<u128>,
    files: &mut Vec<usize>,
    lo: usize,
    i: usize,
)
    requires
        well_formed(entries@),
        parents_ok(entries@, parents@),
        lo <= i < entries@.len(),
        !entries@[i as int].is_dir,
        totals_match(entries@, old(bytes)@, old(files)@, lo as int, i as int),
    ensures
        totals_match(entries@, final(bytes)@, final(files)@, lo as int, i + 1),
{
    let n = entries.len();
    let ghost e = entries@;
    let size = entries[i].size_bytes;
    assert(i >= 1);
    let mut cur = parents[i];
    proof {
        lemma_parent_step(e, parents@, i as int);
    }
    while cur != 0
        invariant
            e == entries@,
            n == e.len(),
            well_formed(e),
            parents_ok(e, parents@),
            lo <= i < n,
            !e[i as int].is_dir,
            size == e[i as int].size_bytes,
            cur < i,
            is_ancestor(e, cur as int, i as int),
            bytes@.len() == n,
            files@.len() == n,
            forall|j: int|
                0 <= j < n ==> #[trigger] bytes@[j] == range_bytes(e, j, lo as int, i as int) + (
                if is_ancestor(e, j, i as int) && !(j == cur || is_ancestor(e, j, cur as int)) {
                    size as int
                } else {
                    0
                }) && files@[j] == range_files(e, j, lo as int, i as int) + (
                if is_ancestor(e, j, i as int) && !(j == cur || is_ancestor(e, j, cur as int)) {
                    1int
                } else {
                    0
                }),
        decreases cur,
    {
        proof {
            lemma_range_bounds(e, cur as int, lo as int, i as int);
            lemma_fits((i + 1 - lo) as int);
            assert((i - lo) * (u64::MAX as int) + (u64::MAX as int) == (i + 1 - lo) * (u64::MAX
                as int)) by (nonlinear_arith);
        }
        let ghost b0 = bytes@;
        let ghost f0 = files@;
        bytes[cur] = bytes[cur] + size as u128;
        files[cur] = files[cur] + 1;
        let next = parents[cur];
        proof {
            lemma_parent_step(e, parents@, cur as int);
            lemma_ancestor_transitive(e, next as int, cur as int, i as int);
            assert forall|j: int| 0 <= j < n implies #[trigger] bytes@[j] == range_bytes(
                e, j, lo as int, i as int) + (if is_ancestor(e, j, i as int) && !(j == next
                || is_ancestor(e, j, next as int)) {
                size as int
            } else {
                0
            }) && files@[j] == range_files(e, j, lo as int, i as int) + (
            if is_ancestor(e, j, i as int) && !(j == next || is_ancestor(e, j, next as int)) {
                1int
            } else {
                0
            }) by {
                assert(is_ancestor(e, j, cur as int) <==> (j == next || is_ancestor(e, j, next as int)));
                if j == cur {
                    assert(!is_ancestor(e, j, cur as int));
                    assert(b0[j] == range_bytes(e, j, lo as int, i as int));
                } else {
                    assert(bytes@[j] == b0[j]);
                    assert(files@[j] == f0[j]);
                }
            }
        }
        cur = next;
    }
    proof {
        lemma_range_bounds(e, 0, lo as int, i as int);
        lemma_fits((i + 1 - lo) as int);
        assert((i - lo) * (u64::MAX as int) + (u64::MAX as int) == (i + 1 - lo) * (u64::MAX
            as int)) by (nonlinear_arith);
    }
    let ghost b0 = bytes@;
    let ghost f0 = files@;
    bytes[0] = bytes[0] + size as u128;
    files[0] = files[0] + 1;
    assert forall|j: int| 0 <= j < n implies #[trigger] bytes@[j] == range_bytes(
        e,
        j,
        lo as int,
        i + 1,
    ) && files@[j] == range_files(e, j, lo as int, i + 1) by {
        assert(!is_ancestor(e, j, 0));
        assert(range_bytes(e, j, lo as int, i + 1) == range_bytes(e, j, lo as int, i as int)
            + bytes_into(e, j, i as int));
        assert(range_files(e, j, lo as int, i + 1) == range_files(e, j, lo as int, i as int)
            + files_into(e, j, i as int));
        if j != 0 {
            assert(bytes@[j] == b0[j]);
            assert(files@[j] == f0[j]);
        }
    }
    assert(totals_match(e, bytes@, files@, lo as int, i + 1));
}

/// Totals of the files among entries `lo..hi`, for every folder of the walk.
#[verifier::spinoff_prover]
pub fn accumulate(entries: &Vec<WalkEntry>, parents: &Vec<usize>, lo: usize, hi: usize) -> (t:
    PartialTotals)
    requires
        well_formed(entries@),
        parents_ok(entries@, parents@),
        lo <= hi <= entries@.len(),
    ensures
        t.bytes@.len() == entries@.len(),
        t.files@.len() == entries@.len(),
        forall|j: int|
            0 <= j < entries@.len() ==> #[trigger] t.bytes@[j] == range_bytes(entries@, j, lo as int, hi as int)
                && t.files@[j] == range_files(entries@, j, lo as int, hi as int),
{
    let n = entries.len();
    let ghost e = entries@;
    let mut bytes: Vec<u128> = Vec::new();
    let mut files: Vec<usize> = Vec::new();
    let mut z: usize = 0;
    while z < n
        invariant
            z <= n,
            bytes@.len() == z,
            files@.len() == z,
            forall|j: int| 0 <= j < z ==> #[trigger] bytes@[j] == 0 && files@[j] == 0,
        decreases n - z,
    {
        bytes.push(0);
        files.push(0);
        z = z + 1;
    }
    let mut i: usize = lo;
    while i < hi
        invariant
            e == entries@,
            n == e.len(),
            well_formed(e),
            parents_ok(e, parents@),
            lo <= i <= hi <= n,
            bytes@.len() == n,
            files@.len() == n,
            forall|j: int|
                0 <= j < n ==> #[trigger] bytes@[j] == range_bytes(e, j, lo as int, i as int)
                    && files@[j] == range_files(e, j, lo as int, i as int),
        decreases hi - i,
    {
        if !entries[i].is_dir {
            add_file(entries, parents, &mut bytes, &mut files, lo, i);
        } else {
            assert forall|j: int| 0 <= j < n implies #[trigger] bytes@[j] == range_bytes(
                e,
                j,
                lo as int,
                i + 1,
            ) && files@[j] == range_files(e, j, lo as int, i + 1) by {
                assert(range_bytes(e, j, lo as int, i + 1) == range_bytes(e, j, lo as int, i as int)
                    + bytes_into(e, j, i as int));
                assert(range_files(e, j, lo as int, i + 1) == range_files(e, j, lo as int, i as int)
                    + files_into(e, j, i as int));
            }
        }
        i = i + 1;
    }
    PartialTotals { bytes, files }
}

/// Splitting a slice of a walk in two and adding the halves' totals, in
/// either order, gives the totals of the whole slice: how the work is split
/// among workers and in which order their results are merged does not matter.
pub proof fn lemma_range_split(e: Seq<WalkEntry>, j: int, lo: int, mid: int, hi: int)
    requires
        lo <= mid <= hi,
    ensures
        range_bytes(e, j, lo, mid) + range_bytes(e, j, mid, hi) == range_bytes(e, j, lo, hi),
        range_bytes(e, j, mid, hi) + range_bytes(e, j, lo, mid) == range_bytes(e, j, lo, hi),
        range_files(e, j, lo, mid) + range_files(e, j, mid, hi) == range_files(e, j, lo, hi),
        range_files(e, j, mid, hi) + range_files(e, j, lo, mid) == range_files(e, j, lo, hi),
    decreases hi - mid,
{
    if hi > mid {
        lemma_range_split(e, j, lo, mid, hi - 1);
    }
}

/// Adds two partial totals slot by slot.
#[verifier::spinoff_prover]
pub fn merge_totals(a: &PartialTotals, b: &PartialTotals) -> (r: PartialTotals)
    requires
        a.bytes@.len() == b.bytes@.len(),
        a.files@.len() == a.bytes@.len(),
        b.files@.len() == b.bytes@.len(),
        forall|j: int|
            0 <= j < a.bytes@.len() ==> #[trigger] a.bytes@[j] + b.bytes@[j] <= u128::MAX
                && a.files@[j] + b.files@[j] <= usize::MAX,
    ensures
        r.bytes@.len() == a.bytes@.len(),
        r.files@.len() == a.bytes@.len(),
        forall|j: int|
            0 <= j < a.bytes@.len() ==> #[trigger] r.bytes@[j] == a.bytes@[j] + b.bytes@[j]
                && r.files@[j] == a.files@[j] + b.files@[j],
{
    let n = a.bytes.len();
    let mut bytes: Vec<u128> = Vec::new();
    let mut files: Vec<usize> = Vec::new();
    let mut j: usize = 0;
    while j < n
        invariant
            n == a.bytes@.len(),
            a.bytes@.len() == b.bytes@.len(),
            a.files@.len() == n,
            b.files@.len() == n,
            forall|k: int|
                0 <= k < n ==> #[trigger] a.bytes@[k] + b.bytes@[k] <= u128::MAX
                    && a.files@[k] + b.files@[k] <= usize::MAX,
            j <= n,
            bytes@.len() == j,
            files@.len() == j,
            forall|k: int|
                0 <= k < j ==> #[trigger] bytes@[k] == a.bytes@[k] + b.bytes@[k]
                    && files@[k] == a.files@[k] + b.files@[k],
        decreases n - j,
    {
        let ghost b0 = bytes@;
        let ghost f0 = files@;
        bytes.push(a.bytes[j] + b.bytes[j]);
        files.push(a.files[j] + b.files[j]);
        assert forall|k: int| 0 <= k < j + 1 implies #[trigger] bytes@[k] == a.bytes@[k] + b.bytes@[k]
            && files@[k] == a.files@[k] + b.files@[k] by {
            if k < j {
                assert(bytes@[k] == b0[k]);
                assert(files@[k] == f0[k]);
            }
        }
        j = j + 1;
    }
    PartialTotals { bytes, files }
}

/// Turns the entries of one walk into its file records and folder aggregates.
/// Fails when the walk does not begin with its root, or is not a depth-first
/// listing of one tree.
#[verifier::spinoff_prover]
pub fn build_scan(entries: &Vec<WalkEntry>) -> (r: Result<DriveScanResult, ScanError>)
    ensures
        match r {
            Ok(s) => {
                &&& well_formed(entries@)
                &&& s.files@ == records_upto(entries@, entries@.len() as int)
                &&& s.folders@ == folders_upto(entries@, entries@.len() as int)
                &&& folder_paths_distinct(s.folders@)
            },
            Err(ScanError::RootUnreadable) => !root_ok(entries@),
            Err(ScanError::Disordered) => root_ok(entries@) && !well_formed(entries@),
        },
{
    let parents = match index_parents(entries) {
        Ok(p) => p,
        Err(err) => {
            return Err(err);
        },
    };
    let n = entries.len();
    let ghost e = entries@;
    let mid = n / 2;
    let first = accumulate(entries, &parents, 0, mid);
    let second = accumulate(entries, &parents, mid, n);
    proof {
        assert forall|j: int| 0 <= j < n implies #[trigger] first.bytes@[j] + second.bytes@[j]
            <= u128::MAX && first.files@[j] + second.files@[j] <= usize::MAX by {
            lemma_range_split(e, j, 0, mid as int, n as int);
            lemma_range_bounds(e, j, 0, n as int);
            lemma_fits(n as int);
            assert(first.bytes@[j] == range_bytes(e, j, 0, mid as int));
            assert(second.bytes@[j] == range_bytes(e, j, mid as int, n as int));
            assert(first.files@[j] == range_files(e, j, 0, mid as int));
            assert(second.files@[j] == range_files(e, j, mid as int, n as int));
        }
    }
    let totals = merge_totals(&first, &second);
    assert forall|j: int| 0 <= j < n implies #[trigger] totals.bytes@[j] == subtree_bytes(e, j)
        && totals.files@[j] == subtree_files(e, j) by {
        lemma_range_split(e, j, 0, mid as int, n as int);
    }
    let mut files: Vec<FileRecord> = Vec::new();
    let mut folders: Vec<FolderAggregate> = Vec::new();
    let mut i: usize = 0;
    while i < n
        invariant
            e == entries@,
            n == e.len(),
            i <= n,
            totals.bytes@.len() == n,
            totals.files@.len() == n,
            forall|j: int|
                0 <= j < n ==> #[trigger] totals.bytes@[j] == subtree_bytes(e, j)
                    && totals.files@[j] == subtree_files(e, j),
            files@ == records_upto(e, i as int),
            folders@ == folders_upto(e, i as int),
        decreases n - i,
    {
        let x = &entries[i];
        if x.is_dir {
            folders.push(
                FolderAggregate {
                    folder_path: x.path.clone(),
                    depth: x.depth,
                    total_size_bytes: totals.bytes[i],
                    file_count: totals.files[i],
                },
            );
        } else {
            files.push(
                FileRecord {
                    full_path: x.path.clone(),
                    size_bytes: x.size_bytes,
                    last_modified: x.modified,
                    last_accessed: x.accessed,
                },
            );
        }
        i = i + 1;
    }
    proof {
        assert(e.subrange(0, n as int) == e);
        lemma_scan_folders_distinct(e);
    }
    Ok(DriveScanResult { files, folders })
}

/// Sum of the sizes of some file records.
pub open spec fn sum_sizes(r: Seq<FileRecord>) -> int
    decreases r.len(),
{
    if r.len() == 0 {
        0
    } else {
        sum_sizes(r.drop_last()) + r.last().size_bytes as int
    }
}

proof fn lemma_root_range(e: Seq<WalkEntry>, k: int)
    requires
        well_formed(e),
        0 <= k <= e.len(),
    ensures
        range_bytes(e, 0, 0, k) == sum_sizes(records_upto(e, k)),
        range_files(e, 0, 0, k) == records_upto(e, k).len(),
    decreases k,
{
    if k > 0 {
        lemma_root_range(e, k - 1);
        let i = k - 1;
        if i > 0 {
            assert(step_ok(e, i));
            assert forall|m: int| 0 < m < i implies 0 < #[trigger] e[m].depth by {
                assert(step_ok(e, m));
            }
            assert(is_ancestor(e, 0, i));
        }
        if !e[i].is_dir {
            assert(records_upto(e, k).drop_last() == records_upto(e, i));
        }
    }
}

proof fn lemma_first_folder(e: Seq<WalkEntry>, k: int)
    requires
        root_ok(e),
        1 <= k <= e.len(),
    ensures
        folders_upto(e, k).len() >= 1,
        folders_upto(e, k)[0] == aggregate_of(e, 0),
    decreases k,
{
    if k > 1 {
        lemma_first_folder(e, k - 1);
        let prev = folders_upto(e, k - 1);
        if e[k - 1].is_dir {
            assert(folders_upto(e, k) == prev.push(aggregate_of(e, k - 1)));
            assert(prev.push(aggregate_of(e, k - 1))[0] == prev[0]);
        }
    } else {
        assert(folders_upto(e, 0) == Seq::<FolderAggregate>::empty());
        assert(folders_upto(e, 1) == Seq::<FolderAggregate>::empty().push(aggregate_of(e, 0)));
    }
}

/// Conservation: in the scan built from a walk, the first folder aggregate is
/// the scan root's, and its totals are the sum of the sizes and the number of
/// all the file records. Every other aggregate holds, by `build_scan`, the
/// files beneath its own folder.
pub proof fn lemma_root_total_is_sum(e: Seq<WalkEntry>)
    requires
        well_formed(e),
        e.len() <= usize::MAX,
    ensures
        folders_upto(e, e.len() as int).len() >= 1,
        folders_upto(e, e.len() as int)[0].folder_path == e[0].path,
        folders_upto(e, e.len() as int)[0].total_size_bytes as int == sum_sizes(
            records_upto(e, e.len() as int),
        ),
        folders_upto(e, e.len() as int)[0].file_count as int == records_upto(
            e,
            e.len() as int,
        ).len(),
{
    let n = e.len() as int;
    lemma_first_folder(e, n);
    lemma_root_range(e, n);
    lemma_range_bounds(e, 0, 0, n);
    lemma_fits(n);
}

/// No two aggregates are for the same folder path.
pub open spec fn folder_paths_distinct(f: Seq<FolderAggregate>) -> bool {
    forall|a: int, b: int|
        0 <= a < b < f.len() ==> #[trigger] f[a].folder_path@ != #[trigger] f[b].folder_path@
}

proof fn lemma_folders_from(e: Seq<WalkEntry>, k: int)
    requires
        well_formed(e),
        0 <= k <= e.len(),
    ensures
        folder_paths_distinct(folders_upto(e, k)),
        forall|m: int|
            0 <= m < folders_upto(e, k).len() ==> exists|j: int|
                0 <= j < k && #[trigger] folders_upto(e, k)[m].folder_path == e[j].path,
    decreases k,
{
    if k > 0 {
        lemma_folders_from(e, k - 1);
        let prev = folders_upto(e, k - 1);
        if e[k - 1].is_dir {
            let cur = folders_upto(e, k);
            assert(cur == prev.push(aggregate_of(e, k - 1)));
            assert forall|m: int| 0 <= m < cur.len() implies exists|j: int|
                0 <= j < k && #[trigger] cur[m].folder_path == e[j].path by {
                if m < prev.len() {
                    assert(cur[m] == prev[m]);
                    let j = choose|j: int| 0 <= j < k - 1 && #[trigger] prev[m].folder_path == e[j].path;
                    assert(cur[m].folder_path == e[j].path);
                } else {
                    assert(cur[m].folder_path == e[k - 1].path);
                }
            }
            assert forall|a: int, b: int| 0 <= a < b < cur.len() implies #[trigger] cur[a].folder_path@
                != #[trigger] cur[b].folder_path@ by {
                if b < prev.len() {
                    assert(cur[a] == prev[a]);
                    assert(cur[b] == prev[b]);
                } else {
                    assert(cur[a] == prev[a]);
                    let j = choose|j: int| 0 <= j < k - 1 && #[trigger] prev[a].folder_path == e[j].path;
                    lemma_paths_distinct(e, j, k - 1);
                }
            }
        }
    }
}

/// The scan of a well-formed walk has one aggregate per folder path.
pub proof fn lemma_scan_folders_distinct(e: Seq<WalkEntry>)
    requires
        well_formed(e),
    ensures
        folder_paths_distinct(folders_upto(e, e.len() as int)),
{
    lemma_folders_from(e, e.len() as int);
}

/// Every file the walk lists has its record in the scan: after a rescan, a
/// file added since the last walk is there, with its current size.
pub proof fn lemma_records_hold_files(e: Seq<WalkEntry>, i: int, k: int)
    requires
        0 <= i < k <= e.len(),
        !e[i].is_dir,
    ensures
        records_upto(e, k).contains(record_of(e[i])),
    decreases k,
{
    if i < k - 1 {
        lemma_records_hold_files(e, i, k - 1);
        let prev = records_upto(e, k - 1);
        let j = choose|j: int| 0 <= j < prev.len() && prev[j] == record_of(e[i]);
        if !e[k - 1].is_dir {
            assert(records_upto(e, k)[j] == prev[j]);
        }
    } else {
        let cur = records_upto(e, k);
        assert(cur[cur.len() - 1] == record_of(e[i]));
    }
}

proof fn lemma_extends_transitive(a: Seq<char>, b: Seq<char>, c: Seq<char>)
    requires
        extends(a, b),
        extends(b, c),
    ensures
        extends(a, c),
{
    assert(c.subrange(0, a.len() as int) == c.subrange(0, b.len() as int).subrange(0, a.len() as int));
    assert(c[a.len() as int] == c.subrange(0, b.len() as int)[a.len() as int]);
}

/// Searching back from `t`, the folder that directly holds `i`.
proof fn lemma_parent_exists(e: Seq<WalkEntry>, j: int, i: int, t: int) -> (q: int)
    requires
        well_formed(e),
        is_ancestor(e, j, i),
        j <= t < i,
        forall|k: int| t < k < i ==> e[i].depth <= #[trigger] e[k].depth,
    ensures
        j <= q < i,
        e[q].depth + 1 == e[i].depth,
        is_ancestor(e, q, i),
    decreases t,
{
    if e[t].depth < e[i].depth {
        assert(step_ok(e, t + 1));
        if t + 1 < i {
            assert(e[i].depth <= e[t + 1].depth);
        }
        t
    } else {
        assert(t != j);
        lemma_parent_exists(e, j, i, t - 1)
    }
}

/// A folder's path is a prefix of the path of everything it holds, ending at
/// a separator: every file counted in a folder's totals lies under the
/// folder's path, and every entry lies under the scan root's path.
pub proof fn lemma_ancestor_path(e: Seq<WalkEntry>, j: int, i: int)
    requires
        well_formed(e),
        is_ancestor(e, j, i),
    ensures
        extends(e[j].path@, e[i].path@),
    decreases e[i].depth - e[j].depth,
{
    if e[j].depth + 1 == e[i].depth {
    } else {
        let q = lemma_parent_exists(e, j, i, i - 1);
        assert(q != j);
        assert(is_ancestor(e, j, q)) by {
            assert forall|k: int| j < k < q implies e[j].depth < #[trigger] e[k].depth by {
                assert(e[j].depth < e[k].depth);
            }
        }
        lemma_ancestor_path(e, j, q);
        lemma_extends_transitive(e[j].path@, e[q].path@, e[i].path@);
    }
}

/// Every entry after the first lies under the scan root.
pub proof fn lemma_under_root(e: Seq<WalkEntry>, i: int)
    requires
        well_formed(e),
        1 <= i < e.len(),
    ensures
        extends(e[0].path@, e[i].path@),
{
    assert forall|m: int| 0 < m <= i implies 0 < #[trigger] e[m].depth by {
        assert(step_ok(e, m));
    }
    assert(is_ancestor(e, 0, i));
    lemma_ancestor_path(e, 0, i);
}

} // verus!
