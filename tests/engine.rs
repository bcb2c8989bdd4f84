use storage_analyser::cache::{CacheStep, ScanCache};
use storage_analyser::model::{DriveScanResult, FileRecord, ScanError, WalkEntry};
use storage_analyser::query::{
    drive_space, empty_folders, file_type_distribution, largest_files, largest_folders,
    old_large_files, recent_large_files, OLD_WINDOW_SECS, RECENT_WINDOW_SECS,
};
use storage_analyser::walk::{accumulate, build_scan, index_parents, merge_totals};

fn dir(path: &str, depth: usize) -> WalkEntry {
    WalkEntry {
        path: path.to_string(),
        depth,
        is_dir: true,
        size_bytes: 0,
        modified: None,
        accessed: None,
    }
}

fn file(path: &str, depth: usize, size: u64) -> WalkEntry {
    WalkEntry {
        path: path.to_string(),
        depth,
        is_dir: false,
        size_bytes: size,
        modified: Some(1_700_000_000),
        accessed: None,
    }
}

fn record(path: &str, size: u64, modified: Option<i64>) -> FileRecord {
    FileRecord {
        full_path: path.to_string(),
        size_bytes: size,
        last_modified: modified,
        last_accessed: None,
    }
}

fn sample_walk() -> Vec<WalkEntry> {
    vec![
        dir("root", 0),
        dir("root/A", 1),
        dir("root/A/X", 2),
        file("root/A/X/two.bin", 3, 20),
        file("root/A/one.txt", 2, 10),
        dir("root/B", 1),
        file("root/B/three.txt", 2, 5),
        file("root/top.log", 1, 7),
    ]
}

fn total_of(scan: &DriveScanResult, path: &str) -> (u128, usize) {
    let f = scan.folders.iter().find(|f| f.folder_path == path).unwrap();
    (f.total_size_bytes, f.file_count)
}

#[test]
fn conservation_root_and_first_level() {
    let scan = build_scan(&sample_walk()).unwrap();
    let all: u128 = scan.files.iter().map(|f| f.size_bytes as u128).sum();
    assert_eq!(all, 42);
    assert_eq!(scan.folders[0].folder_path, "root");
    assert_eq!(total_of(&scan, "root"), (42, 4));
    assert_eq!(total_of(&scan, "root/A"), (30, 2));
    assert_eq!(total_of(&scan, "root/A/X"), (20, 1));
    assert_eq!(total_of(&scan, "root/B"), (5, 1));
    // depth-1 folders plus the files directly in the root make up the root
    let first_level: u128 = scan.folders.iter().filter(|f| f.depth == 1).map(|f| f.total_size_bytes).sum();
    assert_eq!(first_level + 7, 42);
    assert_eq!(scan.files.len(), 4);
    assert_eq!(scan.folders.len(), 4);
}

#[test]
fn merge_order_does_not_change_totals() {
    let walk = sample_walk();
    let parents = index_parents(&walk).unwrap();
    let whole = accumulate(&walk, &parents, 0, walk.len());
    let a = accumulate(&walk, &parents, 0, 3);
    let b = accumulate(&walk, &parents, 3, 6);
    let c = accumulate(&walk, &parents, 6, walk.len());
    let forward = merge_totals(&merge_totals(&a, &b), &c);
    let backward = merge_totals(&c, &merge_totals(&b, &a));
    assert_eq!(forward.bytes, whole.bytes);
    assert_eq!(backward.bytes, whole.bytes);
    assert_eq!(forward.files, whole.files);
    assert_eq!(backward.files, whole.files);
    assert_eq!(whole.bytes[0], 42);
}

#[test]
fn walk_errors() {
    assert_eq!(build_scan(&vec![]).err(), Some(ScanError::RootUnreadable));
    assert_eq!(build_scan(&vec![file("root", 0, 3)]).err(), Some(ScanError::RootUnreadable));
    assert_eq!(
        build_scan(&vec![dir("root", 0), dir("root/a/b", 2)]).err(),
        Some(ScanError::Disordered)
    );
    assert_eq!(
        build_scan(&vec![dir("root", 0), file("root/f", 1, 1), file("root/f/g", 2, 1)]).err(),
        Some(ScanError::Disordered)
    );
    // a path outside its folder
    assert_eq!(
        build_scan(&vec![dir("root", 0), dir("root/a", 1), file("root/b/x", 2, 1)]).err(),
        Some(ScanError::Disordered)
    );
    assert_eq!(
        build_scan(&vec![dir("root", 0), file("rootx", 1, 1)]).err(),
        Some(ScanError::Disordered)
    );
    // a repeated path
    assert_eq!(
        build_scan(&vec![dir("root", 0), dir("root/a", 1), dir("root/a", 1)]).err(),
        Some(ScanError::Disordered)
    );
    // siblings out of name order
    assert_eq!(
        build_scan(&vec![dir("root", 0), file("root/b", 1, 1), file("root/a", 1, 1)]).err(),
        Some(ScanError::Disordered)
    );
    // a separator comes before any other character
    assert!(build_scan(&vec![dir("root", 0), dir("root/a", 1), file("root/a/z", 2, 1), file("root/a-b", 1, 1)]).is_ok());
    // a root written with a trailing separator
    assert!(build_scan(&vec![dir("C:/", 0), file("C:/f", 1, 1)]).is_ok());
}

fn get_or_scan(cache: &mut ScanCache, drive: &String, walks: &mut usize, entries: &Vec<WalkEntry>) {
    if cache.begin(drive) == CacheStep::Walk {
        *walks += 1;
        cache.install(drive, build_scan(entries).unwrap());
    }
}

#[test]
fn cache_hit_does_not_walk_again() {
    let mut cache = ScanCache::new();
    let drive = "C:/".to_string();
    let mut walks = 0;
    get_or_scan(&mut cache, &drive, &mut walks, &sample_walk());
    let first: Vec<String> = cache.get(&drive).unwrap().files.iter().map(|f| f.full_path.clone()).collect();
    get_or_scan(&mut cache, &drive, &mut walks, &sample_walk());
    let second: Vec<String> = cache.get(&drive).unwrap().files.iter().map(|f| f.full_path.clone()).collect();
    assert_eq!(walks, 1);
    assert_eq!(first, second);
    assert_eq!(cache.begin(&drive), CacheStep::Ready);
}

#[test]
fn in_flight_walk_is_not_repeated() {
    let mut cache = ScanCache::new();
    let drive = "D:/".to_string();
    assert_eq!(cache.begin(&drive), CacheStep::Walk);
    assert_eq!(cache.begin(&drive), CacheStep::InFlight);
    assert!(cache.get(&drive).is_none());
    cache.abandon(&drive);
    assert_eq!(cache.begin(&drive), CacheStep::Walk);
}

#[test]
fn rescan_replaces_old_result() {
    let mut cache = ScanCache::new();
    let drive = "C:/".to_string();
    let mut walks = 0;
    get_or_scan(&mut cache, &drive, &mut walks, &sample_walk());
    let mut grown = sample_walk();
    grown.insert(4, file("root/A/new.dat", 2, 100));
    cache.invalidate(&drive);
    get_or_scan(&mut cache, &drive, &mut walks, &grown);
    assert_eq!(walks, 2);
    let scan = cache.get(&drive).unwrap();
    assert_eq!(scan.files.len(), 5);
    assert!(scan.files.iter().any(|f| f.full_path == "root/A/new.dat"));
    assert_eq!(total_of(scan, "root/A"), (130, 3));
    assert_eq!(total_of(scan, "root"), (142, 5));
}

#[test]
fn age_filter_boundaries() {
    let now: i64 = 1_700_000_000;
    let minute = 60;
    let files = vec![
        record("just_inside", 1, Some(now - RECENT_WINDOW_SECS + minute)),
        record("exactly_thirty_days", 2, Some(now - RECENT_WINDOW_SECS)),
        record("just_outside", 3, Some(now - RECENT_WINDOW_SECS - minute)),
        record("unknown", 4, None),
        record("ancient", 5, Some(now - OLD_WINDOW_SECS - 1)),
        record("exactly_half_year", 6, Some(now - OLD_WINDOW_SECS)),
    ];
    let recent: Vec<String> = recent_large_files(&files, now).into_iter().map(|f| f.full_path).collect();
    assert_eq!(recent, vec!["just_inside".to_string()]);
    let old: Vec<String> = old_large_files(&files, now).into_iter().map(|f| f.full_path).collect();
    assert_eq!(old, vec!["ancient".to_string()]);
}

#[test]
fn empty_folder_detection() {
    let walk = vec![
        dir("root", 0),
        dir("root/A", 1),
        file("root/A/file.txt", 2, 12),
        dir("root/B", 1),
        dir("root/C", 1),
        dir("root/C/D", 2),
    ];
    let scan = build_scan(&walk).unwrap();
    let empty = empty_folders(&scan.folders);
    assert_eq!(empty, vec!["root/B".to_string(), "root/C".to_string(), "root/C/D".to_string()]);
}

#[test]
fn distribution_grouping() {
    let files = vec![record("d/a.TXT", 100, None), record("d/b.txt", 200, None), record("d/c", 50, None)];
    let dist = file_type_distribution(&files, 0);
    assert_eq!(dist.len(), 2);
    assert_eq!(dist[0].key, "txt");
    assert_eq!(dist[0].total_size_bytes, 300);
    assert_eq!(dist[0].file_count, 2);
    assert_eq!(dist[1].key, "(No Extension)");
    assert_eq!(dist[1].total_size_bytes, 50);
    assert_eq!(dist[1].file_count, 1);
    let above = file_type_distribution(&files, 50);
    assert_eq!(above.len(), 1);
    assert_eq!(above[0].key, "txt");
}

#[test]
fn largest_n_keeps_the_largest() {
    let sizes = [5u64, 90, 12, 90, 1, 33, 70, 8, 70, 2];
    let files: Vec<FileRecord> = sizes.iter().enumerate().map(|(i, s)| record(&format!("f{}", i), *s, None)).collect();
    let top = largest_files(&files, 3);
    let got: Vec<u64> = top.iter().map(|f| f.size_bytes).collect();
    assert_eq!(got, vec![90, 90, 70]);
    let all = largest_files(&files, 50);
    assert_eq!(all.len(), 10);
    let sorted: Vec<u64> = all.iter().map(|f| f.size_bytes).collect();
    assert_eq!(sorted, vec![90, 90, 70, 70, 33, 12, 8, 5, 2, 1]);
    assert!(largest_files(&files, 0).is_empty());
}

#[test]
fn largest_folders_depth_and_threshold() {
    let walk = vec![
        dir("r", 0),
        dir("r/a", 1),
        dir("r/a/b", 2),
        dir("r/a/b/c", 3),
        dir("r/a/b/c/d", 4),
        file("r/a/b/c/d/big", 5, 1000),
        dir("r/small", 1),
        file("r/small/x", 2, 3),
    ];
    let scan = build_scan(&walk).unwrap();
    let listed: Vec<(String, u128)> = largest_folders(&scan.folders, 3, 10)
        .into_iter()
        .map(|f| (f.folder_path, f.total_size_bytes))
        .collect();
    assert_eq!(listed.len(), 3);
    assert!(listed.iter().all(|(_, t)| *t == 1000));
    assert!(!listed.iter().any(|(p, _)| p == "r/a/b/c/d" || p == "r" || p == "r/small"));
}

#[test]
fn drive_space_saturates() {
    let s = drive_space(500, 150);
    assert_eq!((s.total_bytes, s.used_bytes, s.free_bytes), (500, 350, 150));
    let r = drive_space(100, 150);
    assert_eq!(r.used_bytes, 0);
}
