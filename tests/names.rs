use storage_analyser::drive::{drive_root_of, validate_and_format_drive, DriveError};
use storage_analyser::explorer::NtfsExplorer;
use storage_analyser::group::sum_by_key;
use storage_analyser::help::{command_kind, CommandKind};
use storage_analyser::paths::{file_name_of, parent_path, type_key};
use storage_analyser::storage::StorageAnalyser;

#[test]
fn filter_filename_cases() {
    let e = NtfsExplorer::new();
    assert_eq!(e.filter_filename("", true), "No Name");
    assert_eq!(e.filter_filename("", false), "");
    assert_eq!(e.filter_filename("{a-b}{c-d}", true), "GUID name");
    assert_eq!(e.filter_filename("{single}", true), "{single}");
    assert_eq!(e.filter_filename("report.pdf", false), "report.pdf");
}

#[test]
fn drive_formats() {
    assert_eq!(validate_and_format_drive("c"), Ok("C:/".to_string()));
    assert_eq!(validate_and_format_drive("D:/"), Ok("D:/".to_string()));
    assert_eq!(validate_and_format_drive("e:/"), Ok("E:/".to_string()));
    assert_eq!(validate_and_format_drive("cc"), Err(DriveError::InvalidFormat));
    assert_eq!(validate_and_format_drive("1"), Err(DriveError::InvalidFormat));
    assert_eq!(validate_and_format_drive("C:\\"), Err(DriveError::InvalidFormat));
    assert_eq!(drive_root_of("Z".to_string()), Some("Z:/".to_string()));
    assert_eq!(drive_root_of("z".to_string()), Some("z:/".to_string()));
}

#[test]
fn type_keys() {
    assert_eq!(type_key(&"C:/dir/Photo.JPG".to_string()), "jpg");
    assert_eq!(type_key(&"C:\\dir\\archive.tar.GZ".to_string()), "gz");
    assert_eq!(type_key(&"/home/u/.bashrc".to_string()), "(No Extension)");
    assert_eq!(type_key(&"/home/u.d/Makefile".to_string()), "(No Extension)");
    assert_eq!(type_key(&"/home/u/trailing.".to_string()), "");
    assert_eq!(type_key(&"/home/u/..".to_string()), "(No Extension)");
}

#[test]
fn analyser_queries_need_a_cached_scan() {
    let mut a = StorageAnalyser::new(vec!["C:/".to_string()]);
    let c = "C:/".to_string();
    assert!(a.is_known_drive(&c));
    assert!(!a.is_known_drive(&"D:/".to_string()));
    assert!(a.get_largest_files(&c, 10).is_none());
    assert!(a.get_empty_folders(&c).is_none());
    let walk = vec![
        storage_analyser::model::WalkEntry {
            path: "C:/".to_string(),
            depth: 0,
            is_dir: true,
            size_bytes: 0,
            modified: None,
            accessed: None,
        },
        storage_analyser::model::WalkEntry {
            path: "C:/f.txt".to_string(),
            depth: 1,
            is_dir: false,
            size_bytes: 9,
            modified: Some(0),
            accessed: None,
        },
    ];
    a.begin_scan(&c);
    assert!(a.complete_scan(&c, &walk).is_ok());
    assert_eq!(a.get_largest_files(&c, 10).unwrap().len(), 1);
    let now: i64 = 1_700_000_000;
    assert_eq!(a.get_old_large_files(&c, now).unwrap().len(), 1);
    assert_eq!(a.get_recent_large_files(&c, now).unwrap().len(), 0);
    assert_eq!(a.get_recent_large_files(&c, 1000).unwrap().len(), 1);
    assert_eq!(a.get_old_large_files(&c, 1000).unwrap().len(), 0);
    assert_eq!(a.get_empty_folders(&c).unwrap().len(), 0);
    a.rescan_drive(&c);
    assert!(a.get_largest_files(&c, 10).is_none());
}

#[test]
fn file_names_and_parents() {
    assert_eq!(file_name_of(&"C:\\dir\\a.txt".to_string()), "a.txt");
    assert_eq!(file_name_of(&"plain".to_string()), "plain");
    assert_eq!(parent_path(&"C:/dir/a.txt".to_string()), Some("C:/dir".to_string()));
    assert_eq!(parent_path(&"plain".to_string()), None);
}

#[test]
fn sums_by_key() {
    let items = vec![("a".to_string(), 5u64), ("b".to_string(), 7), ("a".to_string(), u64::MAX)];
    let groups = sum_by_key(&items);
    assert_eq!(groups.len(), 2);
    assert_eq!(groups[0].key, "a");
    assert_eq!(groups[0].total_size_bytes, u64::MAX as u128 + 5);
    assert_eq!(groups[0].file_count, 2);
    assert_eq!(groups[1].key, "b");
    assert_eq!(groups[1].total_size_bytes, 7);
}

#[test]
fn system_checks_on_lowered_text() {
    let e = NtfsExplorer::new();
    assert!(e.is_system_path("c:\\windows", "C:\\WINDOWS"));
    assert!(!e.is_system_path("c:\\users", "C:\\Users"));
    assert!(e.is_system_path("c:\\users", "C:\\Users\\$stuff"));
}

#[test]
fn command_words() {
    assert_eq!(command_kind("largest-files"), CommandKind::LargestFiles);
    assert_eq!(command_kind("rescan"), CommandKind::Rescan);
    assert_eq!(command_kind("exit"), CommandKind::Exit);
    assert_eq!(command_kind("Exit"), CommandKind::Unknown);
    assert_eq!(command_kind(""), CommandKind::Unknown);
}
