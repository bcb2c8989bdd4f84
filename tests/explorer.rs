use storage_analyser::explorer::{MftEntry, NtfsExplorer};
use storage_analyser::report::empty_folder_report;

fn entry(path: &str, is_directory: bool, size: u64) -> MftEntry {
    MftEntry { path: path.to_string(), is_directory, size, modified: Some(0) }
}

#[test]
fn format_size_examples() {
    let e = NtfsExplorer::new();
    assert_eq!(e.format_size(1505210368), "1.40 GB");
    assert_eq!(e.format_size(815663130), "777.88 MB");
    assert_eq!(e.format_size(100), "100 bytes");
    assert_eq!(e.format_size(0), "0 bytes");
    assert_eq!(e.format_size(1024), "1.00 KB");
    assert_eq!(e.format_size(1023), "1023 bytes");
}

#[test]
fn format_size_matches_float_formatting() {
    let e = NtfsExplorer::new();
    for bytes in [1152u64, 1536, 1100, 3 * 1024 * 1024 + 5243, 7 * 1024 * 1024 * 1024 + 1, 1048575, 1073741823, 123456789012] {
        let (unit, name) = if bytes >= 1 << 30 {
            (1u64 << 30, "GB")
        } else if bytes >= 1 << 20 {
            (1u64 << 20, "MB")
        } else {
            (1u64 << 10, "KB")
        };
        let expected = format!("{:.2} {}", bytes as f64 / unit as f64, name);
        assert_eq!(e.format_size(bytes), expected);
    }
}

#[test]
fn folder_keys() {
    let e = NtfsExplorer::new();
    let deep = "\\\\.\\C:\\Folder1\\Folder2\\Folder3\\Folder4\\Folder5\\Folder6\\file.txt";
    assert_eq!(
        e.folder_key_from_path(deep, "C", 5),
        Some("C:\\Folder1\\Folder2\\Folder3\\Folder4\\Folder5".to_string())
    );
    assert_eq!(e.folder_key_from_path("\\\\.\\C:\\a\\file.txt", "C", 5), Some("C:\\a".to_string()));
    assert_eq!(e.folder_key_from_path("\\\\.\\C:\\file.txt", "C", 5), Some("C:\\".to_string()));
    assert_eq!(
        e.folder_key_from_path("\\\\.\\C:\\{a}{b}\\x\\f", "C", 5),
        Some("C:\\GUID name\\x".to_string())
    );
    assert_eq!(e.folder_key_from_path("", "C", 5), None);
    assert_eq!(e.folder_key_from_path("/", "C", 5), Some("C:\\".to_string()));
    assert_eq!(
        e.folder_key_from_path("C:\\Folder1\\Folder2\\Folder3\\Folder4\\Folder5\\Folder6\\file.txt", "C", 5),
        Some("C:\\Folder1\\Folder2\\Folder3\\Folder4\\Folder5".to_string())
    );
    assert_eq!(e.folder_key_from_path("C:\\a\\f.txt", "C", 5), Some("C:\\a".to_string()));
}

#[test]
fn system_folders() {
    let e = NtfsExplorer::new();
    assert!(e.is_system_folder("C:\\Windows\\System32"));
    assert!(e.is_system_folder("C:\\WINDOWS"));
    assert!(e.is_system_folder("C:\\$Recycle.Bin\\S-1-5"));
    assert!(e.is_system_folder("C:\\System Volume Information"));
    assert!(e.is_system_folder("C:\\odd?name"));
    assert!(!e.is_system_folder("C:\\Users\\me\\Documents"));
    assert!(!e.is_system_folder("C:\\windowsill"));
    let kept = e.without_system_folders(&vec![
        "C:\\Windows\\Temp".to_string(),
        "C:\\Users\\me\\old".to_string(),
        "C:\\$Extend".to_string(),
    ]);
    assert_eq!(kept, vec!["C:\\Users\\me\\old".to_string()]);
}

#[test]
fn mft_empty_folders() {
    let e = NtfsExplorer::new();
    let entries = vec![
        entry("\\\\.\\C:\\A", true, 0),
        entry("\\\\.\\C:\\A\\file.txt", false, 12),
        entry("\\\\.\\C:\\B", true, 0),
        entry("\\\\.\\C:\\C", true, 0),
        entry("\\\\.\\C:\\C\\D", true, 0),
    ];
    let mut empty = e.scan_empty_folders(&entries, "C");
    empty.sort();
    assert_eq!(empty, vec!["C:\\B".to_string(), "C:\\C\\D".to_string()]);
}

#[test]
fn mft_largest_folders_and_types() {
    let e = NtfsExplorer::new();
    let entries = vec![
        entry("\\\\.\\C:\\A", true, 0),
        entry("\\\\.\\C:\\A\\one.TXT", false, 100),
        entry("\\\\.\\C:\\A\\two.txt", false, 200),
        entry("\\\\.\\C:\\B\\big.iso", false, 1000),
        entry("\\\\.\\C:\\B\\noext", false, 50),
    ];
    let folders = e.scan_largest_folders(&entries, "C");
    let got: Vec<(String, u128)> = folders.into_iter().map(|k| (k.key, k.total_size_bytes)).collect();
    assert_eq!(got, vec![("C:\\B".to_string(), 1050), ("C:\\A".to_string(), 300)]);
    let types = e.scan_file_type_dist(&entries);
    let got: Vec<(String, u128, usize)> = types.into_iter().map(|k| (k.key, k.total_size_bytes, k.file_count)).collect();
    assert_eq!(
        got,
        vec![
            ("iso".to_string(), 1000, 1),
            ("txt".to_string(), 300, 2),
            ("(No Extension)".to_string(), 50, 1)
        ]
    );
    let files = e.scan_largest_files(&entries);
    assert_eq!(files.len(), 4);
    assert_eq!(files[0].size_bytes, 1000);
    assert_eq!(e.scan_recent_files(&entries, 0).len(), 4);
    assert_eq!(e.scan_old_files(&entries, 0).len(), 0);
}

#[test]
fn report_text() {
    let text = empty_folder_report(&vec!["C:/a".to_string(), "C:/b c".to_string()]);
    assert_eq!(text, "Empty Folders Report:\nFound 2 empty folders.\n - C:/a\n - C:/b c\n");
    assert_eq!(empty_folder_report(&vec![]), "Empty Folders Report:\nFound 0 empty folders.\n");
    let many: Vec<String> = (0..12).map(|i| format!("f{}", i)).collect();
    assert!(empty_folder_report(&many).starts_with("Empty Folders Report:\nFound 12 empty folders.\n - f0\n"));
}

#[test]
fn test_scanner() {
    let explorer = NtfsExplorer::new();
    let table = vec![
        entry("\\\\.\\C:\\Users", true, 0),
        entry("\\\\.\\C:\\Users\\me", true, 0),
        entry("\\\\.\\C:\\Users\\me\\notes.txt", false, 3),
        entry("\\\\.\\C:\\Temp", true, 0),
    ];
    let empty_folders = explorer.scan_empty_folders(&table, "C");
    println!("Found {} empty folders on drive C", empty_folders.len());
    assert_eq!(empty_folders, vec!["C:\\Temp".to_string()]);
}

#[test]
fn hidden_folders() {
    let e = NtfsExplorer::new();
    assert!(e.is_hidden_folder("C:/Users/me/.config"));
    assert!(e.is_hidden_folder("/home/me/.cache/"));
    assert!(!e.is_hidden_folder("C:/Users/me/config"));
    assert!(!e.is_hidden_folder(".."));
    assert!(!e.is_hidden_folder("a/."));
    assert!(!e.is_hidden_folder(""));
}
