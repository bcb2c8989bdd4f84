//! The analyser: the fixed drives it may scan, the cache of their walks, and
//! the queries over a cached walk.
use vstd::prelude::*;
use crate::cache::{cached_spec, begin_spec, install_spec, invalidate_spec, CacheStep, DriveState, ScanCache};
use crate::group::{has_key, keys_unique, KeyTotal};
use crate::model::{DriveScanResult, FileRecord, FolderAggregate, ScanError, WalkEntry};
use crate::outside::sorted_desc;
use crate::query::{
    empty_folders, empty_paths, strings_distinct, file_type_distribution, group_bytes, group_count,
    is_listed_folder, is_old, is_recent, largest_files, largest_folders, old_large_files,
    recent_large_files,
};
use crate::paths::type_key_spec;
use crate::walk::{build_scan, folder_paths_distinct, folders_upto, records_upto, root_ok, well_formed};

verus! {

/// File types whose files total this many bytes or fewer are left out of the
/// type distribution.
pub const MIN_FILE_TYPE_BYTES: u128 = 1024 * 1024;

/// Folders holding this many bytes or fewer are left out of the largest folders.
pub const MIN_FOLDER_BYTES: u128 = 100 * 1024 * 1024;

/// Folders deeper than this below the root are not listed among the largest.
pub const MAX_FOLDER_DEPTH: usize = 3;

/// `v` lists the files of `files` modified in the 30 days before `now`, largest first.
pub open spec fn recent_listing(files: Seq<FileRecord>, now: i64, v: Seq<FileRecord>) -> bool {
    &&& v.to_multiset() == files.filter(|x: FileRecord| is_recent(x, now)).to_multiset()
    &&& sorted_desc(v)
}

/// `v` lists the files of `files` modified more than 180 days before `now`, largest first.
pub open spec fn old_listing(files: Seq<FileRecord>, now: i64, v: Seq<FileRecord>) -> bool {
    &&& v.to_multiset() == files.filter(|x: FileRecord| is_old(x, now)).to_multiset()
    &&& sorted_desc(v)
}

/// Every scan cached in `m` has one aggregate per folder path.
pub open spec fn scans_ok(m: Map<Seq<char>, DriveState>) -> bool {
    forall|k: Seq<char>|
        #[trigger] m.contains_key(k) ==> match m[k] {
            DriveState::Cached(s) => folder_paths_distinct(s.folders@),
            DriveState::Scanning => true,
        }
}

/// The analyser of a machine's fixed drives.
pub struct StorageAnalyser {
    /// The drives that may be analysed.
    pub drives: Vec<String>,
    /// The walks of the drives, cached.
    pub cache: ScanCache,
}

impl StorageAnalyser {
    /// The cache state, drive by drive.
    pub closed spec fn cache_view(&self) -> Map<Seq<char>, DriveState> {
        self.cache.view()
    }

    /// The cache is well formed, and every cached scan has one aggregate per
    /// folder path.
    pub closed spec fn wf(&self) -> bool {
        &&& self.cache.wf()
        &&& scans_ok(self.cache.view())
    }

    /// The scan cached for `drive`, if any.
    pub open spec fn cached(&self, drive: Seq<char>) -> Option<DriveScanResult> {
        cached_spec(self.cache_view(), drive)
    }

    /// An analyser of `drives`, with nothing cached.
    pub fn new(drives: Vec<String>) -> (r: Self)
        ensures
            r.wf(),
            r.drives == drives,
            r.cache_view() == Map::<Seq<char>, DriveState>::empty(),
    {
        StorageAnalyser { drives, cache: ScanCache::new() }
    }

    /// Whether `drive` is one of the drives that may be analysed.
    pub fn is_known_drive(&self, drive: &String) -> (b: bool)
        ensures
            b == exists|i: int| 0 <= i < self.drives@.len() && #[trigger] self.drives@[i]@ == drive@,
    {
        let mut i: usize = 0;
        while i < self.drives.len()
            invariant
                i <= self.drives@.len(),
                forall|j: int| 0 <= j < i ==> #[trigger] self.drives@[j]@ != drive@,
            decreases self.drives@.len() - i,
        {
            if self.drives[i] == *drive {
                return true;
            }
            i = i + 1;
        }
        false
    }

    /// Says whether `drive` is cached, being walked, or is to be walked now by
    /// the caller (it is then marked as being walked).
    pub fn begin_scan(&mut self, drive: &String) -> (step: CacheStep)
        requires
            old(self).wf(),
        ensures
            final(self).wf(),
            final(self).drives == old(self).drives,
            (final(self).cache_view(), step) == begin_spec(old(self).cache_view(), drive@),
    {
        let step = self.cache.begin(drive);
        assert(scans_ok(self.cache.view())) by {
            assert forall|k: Seq<char>| #[trigger] self.cache.view().contains_key(k) implies match self.cache.view()[k] {
                DriveState::Cached(s) => folder_paths_distinct(s.folders@),
                DriveState::Scanning => true,
            } by {
                if k != drive@ {
                    assert(old(self).cache.view().contains_key(k));
                }
            }
        }
        step
    }

    /// Builds the scan of `drive` from the entries of its walk and caches it,
    /// replacing what the drive had. When the entries cannot make a scan, the
    /// walk is abandoned: a drive marked as being walked is uncached again and
    /// nothing else changes.
    pub fn complete_scan(&mut self, drive: &String, entries: &Vec<WalkEntry>) -> (r: Result<(), ScanError>)
        requires
            old(self).wf(),
        ensures
            final(self).wf(),
            final(self).drives == old(self).drives,
            match r {
                Ok(()) => well_formed(entries@) && exists|s: DriveScanResult|
                    final(self).cache_view() == install_spec(old(self).cache_view(), drive@, s)
                        && s.files@ == records_upto(entries@, entries@.len() as int)
                        && s.folders@ == folders_upto(entries@, entries@.len() as int),
                Err(e) => {
                    &&& !well_formed(entries@)
                    &&& e == ScanError::RootUnreadable <==> !root_ok(entries@)
                    &&& final(self).cache_view() == if old(self).cache_view().contains_key(drive@)
                        && old(self).cache_view()[drive@] is Scanning {
                        old(self).cache_view().remove(drive@)
                    } else {
                        old(self).cache_view()
                    }
                },
            },
    {
        match build_scan(entries) {
            Ok(s) => {
                let ghost s0 = s;
                self.cache.install(drive, s);
                assert(self.cache_view() == install_spec(old(self).cache_view(), drive@, s0));
                assert(scans_ok(self.cache.view())) by {
                    assert forall|k: Seq<char>| #[trigger] self.cache.view().contains_key(k) implies match self.cache.view()[k] {
                        DriveState::Cached(x) => folder_paths_distinct(x.folders@),
                        DriveState::Scanning => true,
                    } by {
                        if k != drive@ {
                            assert(old(self).cache.view().contains_key(k));
                        }
                    }
                }
                Ok(())
            },
            Err(e) => {
                self.cache.abandon(drive);
                assert(scans_ok(self.cache.view())) by {
                    assert forall|k: Seq<char>| #[trigger] self.cache.view().contains_key(k) implies match self.cache.view()[k] {
                        DriveState::Cached(x) => folder_paths_distinct(x.folders@),
                        DriveState::Scanning => true,
                    } by {
                        assert(old(self).cache.view().contains_key(k));
                    }
                }
                Err(e)
            },
        }
    }

    /// Ends a walk of `drive` that failed: a drive marked as being walked is
    /// uncached again; a cached scan stays.
    pub fn abandon_scan(&mut self, drive: &String)
        requires
            old(self).wf(),
        ensures
            final(self).wf(),
            final(self).drives == old(self).drives,
            final(self).cache_view() == if old(self).cache_view().contains_key(drive@)
                && old(self).cache_view()[drive@] is Scanning {
                old(self).cache_view().remove(drive@)
            } else {
                old(self).cache_view()
            },
    {
        self.cache.abandon(drive);
        assert(scans_ok(self.cache.view())) by {
            assert forall|k: Seq<char>| #[trigger] self.cache.view().contains_key(k) implies match self.cache.view()[k] {
                DriveState::Cached(x) => folder_paths_distinct(x.folders@),
                DriveState::Scanning => true,
            } by {
                assert(old(self).cache.view().contains_key(k));
            }
        }
    }

    /// Forgets the cached scan of `drive`, so that the next `begin_scan`
    /// walks it again.
    pub fn rescan_drive(&mut self, drive: &String)
        requires
            old(self).wf(),
        ensures
            final(self).wf(),
            final(self).drives == old(self).drives,
            final(self).cache_view() == invalidate_spec(old(self).cache_view(), drive@),
    {
        self.cache.invalidate(drive);
        assert(scans_ok(self.cache.view())) by {
            assert forall|k: Seq<char>| #[trigger] self.cache.view().contains_key(k) implies match self.cache.view()[k] {
                DriveState::Cached(x) => folder_paths_distinct(x.folders@),
                DriveState::Scanning => true,
            } by {
                assert(old(self).cache.view().contains_key(k));
            }
        }
    }

    /// The cached scan of `drive`.
    pub fn scan_of(&self, drive: &String) -> (r: Option<&DriveScanResult>)
        requires
            self.wf(),
        ensures
            match r {
                Some(s) => self.cached(drive@) == Some(*s),
                None => self.cached(drive@) is None,
            },
    {
        self.cache.get(drive)
    }

    /// The type distribution of the cached scan of `drive`: see
    /// `file_type_distribution`, with `MIN_FILE_TYPE_BYTES`.
    pub fn get_file_type_distribution(&self, drive: &String) -> (r: Option<Vec<KeyTotal>>)
        requires
            self.wf(),
        ensures
            match r {
                Some(v) => self.cached(drive@) matches Some(s) && {
                    &&& keys_unique(v@)
                    &&& sorted_desc(v@)
                    &&& forall|g: int|
                        0 <= g < v@.len() ==> #[trigger] v@[g].total_size_bytes == group_bytes(
                            s.files@,
                            v@[g].key@,
                        ) && v@[g].file_count == group_count(s.files@, v@[g].key@)
                            && v@[g].total_size_bytes > MIN_FILE_TYPE_BYTES
                    &&& forall|f: int|
                        0 <= f < s.files@.len() && group_bytes(
                            s.files@,
                            type_key_spec(s.files@[f].full_path@),
                        ) > MIN_FILE_TYPE_BYTES ==> has_key(
                            v@,
                            type_key_spec(#[trigger] s.files@[f].full_path@),
                        )
                },
                None => self.cached(drive@) is None,
            },
    {
        match self.cache.get(drive) {
            Some(s) => Some(file_type_distribution(&s.files, MIN_FILE_TYPE_BYTES)),
            None => None,
        }
    }

    /// The `count` largest files of the cached scan of `drive`: see `largest_files`.
    pub fn get_largest_files(&self, drive: &String, count: usize) -> (r: Option<Vec<FileRecord>>)
        requires
            self.wf(),
        ensures
            match r {
                Some(v) => self.cached(drive@) matches Some(s) && {
                    &&& v@.len() == if count < s.files@.len() {
                        count as int
                    } else {
                        s.files@.len() as int
                    }
                    &&& sorted_desc(v@)
                    &&& v@.to_multiset().subset_of(s.files@.to_multiset())
                    &&& forall|x: FileRecord, y: FileRecord|
                        v@.contains(x) && s.files@.to_multiset().count(y) > v@.to_multiset().count(y)
                            ==> #[trigger] x.size_bytes >= #[trigger] y.size_bytes
                },
                None => self.cached(drive@) is None,
            },
    {
        match self.cache.get(drive) {
            Some(s) => Some(largest_files(&s.files, count)),
            None => None,
        }
    }

    /// The largest folders of the cached scan of `drive`, up to
    /// `MAX_FOLDER_DEPTH` levels deep and above `MIN_FOLDER_BYTES`.
    pub fn get_largest_folders(&self, drive: &String) -> (r: Option<Vec<FolderAggregate>>)
        requires
            self.wf(),
        ensures
            match r {
                Some(v) => self.cached(drive@) matches Some(s) && {
                    &&& v@.to_multiset() == s.folders@.filter(
                        |x: FolderAggregate| is_listed_folder(x, MAX_FOLDER_DEPTH, MIN_FOLDER_BYTES),
                    ).to_multiset()
                    &&& sorted_desc(v@)
                },
                None => self.cached(drive@) is None,
            },
    {
        match self.cache.get(drive) {
            Some(s) => Some(largest_folders(&s.folders, MAX_FOLDER_DEPTH, MIN_FOLDER_BYTES)),
            None => None,
        }
    }

    /// The files of the cached scan of `drive` modified in the last 30 days,
    /// largest first, as of `now` (seconds since the Unix epoch).
    pub fn get_recent_large_files(&self, drive: &String, now: i64) -> (r: Option<Vec<FileRecord>>)
        requires
            self.wf(),
        ensures
            match r {
                Some(v) => self.cached(drive@) is Some && recent_listing(
                    self.cached(drive@)->Some_0.files@,
                    now,
                    v@,
                ),
                None => self.cached(drive@) is None,
            },
    {
        match self.cache.get(drive) {
            Some(s) => {
                let v = recent_large_files(&s.files, now);
                let r = Some(v);
                assert(recent_listing(self.cached(drive@)->Some_0.files@, now, r->Some_0@));
                r
            },
            None => None,
        }
    }

    /// The files of the cached scan of `drive` modified more than 180 days
    /// ago, largest first, as of `now` (seconds since the Unix epoch).
    pub fn get_old_large_files(&self, drive: &String, now: i64) -> (r: Option<Vec<FileRecord>>)
        requires
            self.wf(),
        ensures
            match r {
                Some(v) => self.cached(drive@) is Some && old_listing(
                    self.cached(drive@)->Some_0.files@,
                    now,
                    v@,
                ),
                None => self.cached(drive@) is None,
            },
    {
        match self.cache.get(drive) {
            Some(s) => {
                let v = old_large_files(&s.files, now);
                let r = Some(v);
                assert(old_listing(self.cached(drive@)->Some_0.files@, now, r->Some_0@));
                r
            },
            None => None,
        }
    }

    /// The folders of the cached scan of `drive` with no file beneath them.
    pub fn get_empty_folders(&self, drive: &String) -> (r: Option<Vec<String>>)
        requires
            self.wf(),
        ensures
            match r {
                Some(v) => self.cached(drive@) matches Some(s) && v@ == empty_paths(s.folders@)
                    && strings_distinct(v@),
                None => self.cached(drive@) is None,
            },
    {
        match self.cache.get(drive) {
            Some(s) => Some(empty_folders(&s.folders)),
            None => None,
        }
    }
}

} // verus!
