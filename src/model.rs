//! The values a walk produces and the cache keeps.
use vstd::prelude::*;

verus! {

/// One entry met by a walk of a drive, in the order of a depth-first walk
/// that lists a directory before what it holds.
pub struct WalkEntry {
    pub path: String,
    /// Number of steps below the scan root (the root itself is at 0).
    pub depth: usize,
    pub is_dir: bool,
    /// Length in bytes; not read for a directory.
    pub size_bytes: u64,
    /// Seconds since the Unix epoch, when the filesystem gave it.
    pub modified: Option<i64>,
    pub accessed: Option<i64>,
}

/// One regular file of a drive scan.
pub struct FileRecord {
    pub full_path: String,
    pub size_bytes: u64,
    /// Seconds since the Unix epoch; `None` when it could not be read.
    pub last_modified: Option<i64>,
    pub last_accessed: Option<i64>,
}

/// The totals of one folder over every file beneath it.
pub struct FolderAggregate {
    pub folder_path: String,
    /// Number of steps below the scan root.
    pub depth: usize,
    pub total_size_bytes: u128,
    pub file_count: usize,
}

/// Everything one walk of a drive found.
pub struct DriveScanResult {
    pub files: Vec<FileRecord>,
    pub folders: Vec<FolderAggregate>,
}

/// Why a walk's entries could not be turned into a scan.
#[derive(Debug, Clone, Copy, PartialEq, Eq, Structural)]
pub enum ScanError {
    /// The walk did not start with its root directory: the root could not be read.
    RootUnreadable,
    /// The entries do not follow a depth-first listing of one tree.
    Disordered,
}

impl FileRecord {
    /// A copy of this record.
    pub fn duplicate(&self) -> (r: FileRecord)
        ensures
            r == *self,
    {
        FileRecord {
            full_path: self.full_path.clone(),
            size_bytes: self.size_bytes,
            last_modified: self.last_modified,
            last_accessed: self.last_accessed,
        }
    }
}

impl FolderAggregate {
    /// A copy of this aggregate.
    pub fn duplicate(&self) -> (r: FolderAggregate)
        ensures
            r == *self,
    {
        FolderAggregate {
            folder_path: self.folder_path.clone(),
            depth: self.depth,
            total_size_bytes: self.total_size_bytes,
            file_count: self.file_count,
        }
    }
}

} // verus!
