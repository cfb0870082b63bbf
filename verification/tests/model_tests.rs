use desktop_lib::model::{FileDetails, ScanResult, Volumn};
use desktop_lib::service::FileNode;

#[test]
fn test_file_details_from_entry() {
    let stat = FileNode {
        path: "/home/user/report.pdf".to_string(),
        size: 2048,
        is_directory: false,
        is_link: false,
        modified: Some(1700000000),
        created: Some(1600000000),
    };
    let details = FileDetails::from(stat);
    assert_eq!(details.name, "report.pdf");
    assert_eq!(details.path, "/home/user/report.pdf");
    assert_eq!(details.size, 2048);
    assert!(!details.is_directory);
    assert_eq!(details.created, 1600000000);
    assert_eq!(details.modified, 1700000000);
    assert!(!details.readonly);
    assert_eq!(details.file_type, "file");
    assert!(details.children.is_none());
}

#[test]
fn test_file_details_from_root() {
    let stat = FileNode::new("/".to_string(), true, false);
    let details = FileDetails::from(stat);
    assert_eq!(details.name, "/");
    assert_eq!(details.size, 0);
    assert_eq!(details.created, 0);
    assert_eq!(details.modified, 0);
}

#[test]
fn test_file_details_default() {
    let details = FileDetails::default();
    assert_eq!(details.name, "");
    assert_eq!(details.path, "");
    assert_eq!(details.size, 0);
    assert!(!details.is_directory);
    assert_eq!(details.created, 0);
    assert_eq!(details.modified, 0);
    assert!(!details.readonly);
    assert_eq!(details.file_type, "");
    assert!(details.children.is_none());
}

#[test]
fn test_result_and_volume_shapes() {
    let volume = Volumn {
        name: "root".to_string(),
        path: "/".to_string(),
        total_size: 512_000_000_000,
        available_size: 128_000_000_000,
    };
    assert!(volume.available_size <= volume.total_size);

    let result = ScanResult {
        files: vec![FileDetails::default()],
        total_size: 0,
        total_files: 1,
        total_dirs: 0,
    };
    assert_eq!(result.files.len(), result.total_files);
}
