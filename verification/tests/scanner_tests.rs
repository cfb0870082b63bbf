use desktop_lib::service::{FileNode, ScanProgress, Scanner};

fn file_entry(name: &str, size: u64) -> FileNode {
    FileNode {
        path: name.to_string(),
        size,
        is_directory: false,
        is_link: false,
        modified: None,
        created: None,
    }
}

fn dir_entry(name: &str) -> FileNode {
    FileNode {
        path: name.to_string(),
        size: 0,
        is_directory: true,
        is_link: false,
        modified: None,
        created: None,
    }
}

// A fixed directory tree: the root holds ten directories, each holding ten
// files of one hundred bytes.
fn listing_for(path: &str) -> Vec<FileNode> {
    let comps: Vec<&str> = path.split('/').filter(|c| !c.is_empty()).collect();
    if comps.is_empty() {
        (0..10).map(|i| dir_entry(&format!("dir{}", i))).collect()
    } else if comps.len() == 1 {
        (0..10)
            .map(|i| file_entry(&format!("file{}", i), 100))
            .collect()
    } else {
        Vec::new()
    }
}

// Drives the engine to completion the way a worker pool would, one item at
// a time.
fn run_scan(scanner: &mut Scanner) -> Vec<ScanProgress> {
    let mut published = Vec::new();
    scanner.start();
    while !scanner.should_exit_scan() {
        match scanner.next_item() {
            Some(path) => {
                if scanner.wants_listing(&path) {
                    let entries = listing_for(&path);
                    let progress = scanner
                        .process_directory(&path, entries)
                        .expect("queued path still resolves");
                    published.push(progress);
                } else {
                    scanner.finish_item();
                }
            }
            None => {
                // With a single driver an empty queue and outstanding work
                // at once cannot happen; a real pool would back off here.
                unreachable!();
            }
        }
    }
    scanner.stop_scanning();
    published
}

#[test]
fn test_full_scan_totals() {
    let mut scanner = Scanner::new(1);
    run_scan(&mut scanner);

    let progress = scanner.get_progress();
    assert_eq!(progress.scaned_size, 10000);
    assert_eq!(progress.scaned_files, 110);
    assert!(!progress.is_scanning);

    let root = scanner.files.root.as_ref().unwrap();
    assert_eq!(root.size, 10000);
    assert_eq!(root.count + 1, 111);
    assert!(!scanner.is_scanning());
}

#[test]
fn test_scan_order_independent() {
    // The same fixed tree scanned with different worker interleavings: one
    // drains the queue oldest-first, the other expands the newest
    // discovery first, as racing workers might.
    let mut forward = Scanner::new(1);
    run_scan(&mut forward);

    let mut shuffled = Scanner::new(8);
    shuffled.start();
    let mut stack: Vec<String> = Vec::new();
    loop {
        while let Some(path) = scanner_next(&mut shuffled) {
            stack.push(path);
        }
        match stack.pop() {
            Some(path) => {
                if shuffled.wants_listing(&path) {
                    let entries = listing_for(&path);
                    shuffled
                        .process_directory(&path, entries)
                        .expect("queued path still resolves");
                } else {
                    shuffled.finish_item();
                }
            }
            None => break,
        }
    }
    shuffled.stop_scanning();

    let a = forward.get_progress();
    let b = shuffled.get_progress();
    assert_eq!(a.scaned_files, b.scaned_files);
    assert_eq!(a.scaned_size, b.scaned_size);
    assert_eq!(
        forward.files.root.as_ref().unwrap().count,
        shuffled.files.root.as_ref().unwrap().count
    );
    assert_eq!(
        forward.files.root.as_ref().unwrap().size,
        shuffled.files.root.as_ref().unwrap().size
    );
}

fn scanner_next(scanner: &mut Scanner) -> Option<String> {
    scanner.next_item()
}

#[test]
fn test_stop_mid_scan() {
    let mut scanner = Scanner::new(1);
    scanner.start();
    let root_item = scanner.next_item().expect("seeded with the root");
    assert!(scanner.wants_listing(&root_item));
    scanner
        .process_directory(&root_item, listing_for(&root_item))
        .unwrap();
    assert!(scanner.is_scanning());

    scanner.stop_scanning();
    assert!(!scanner.is_scanning());
    assert!(scanner.next_item().is_none());
    assert!(scanner.should_exit_scan());
    // What was already inserted stays until clear().
    assert_eq!(scanner.files.root.as_ref().unwrap().count, 10);
}

#[test]
fn test_clear_resets_everything() {
    let mut scanner = Scanner::new(1);
    run_scan(&mut scanner);
    scanner.clear();

    let progress = scanner.get_progress();
    assert_eq!(progress.scaned_files, 0);
    assert_eq!(progress.scaned_size, 0);
    assert!(progress.current_path.is_none());
    assert!(!progress.is_scanning);
    assert_eq!(scanner.files.root.as_ref().unwrap().count, 0);
    assert_eq!(scanner.files.root.as_ref().unwrap().size, 0);
}

#[test]
fn test_get_file_node_unknown_path() {
    let mut scanner = Scanner::new(1);
    run_scan(&mut scanner);
    assert!(scanner.get_file_node("/does/not/exist").is_none());
}

#[test]
fn test_get_file_node_children_sorted() {
    let mut scanner = Scanner::new(1);
    scanner.start();
    let root_item = scanner.next_item().unwrap();
    let entries = vec![
        file_entry("small.txt", 5),
        file_entry("large.txt", 500),
        dir_entry("sub"),
        file_entry("medium.txt", 50),
    ];
    scanner.process_directory(&root_item, entries).unwrap();
    let sub = scanner.next_item().unwrap();
    scanner.process_directory(&sub, Vec::new()).unwrap();
    assert!(scanner.should_exit_scan());
    scanner.stop_scanning();

    let details = scanner.get_file_node("/").expect("root resolves");
    assert_eq!(details.size, 555);
    assert!(details.is_directory);
    let children = details.children.expect("children attached");
    let names: Vec<String> = children.iter().map(|c| c.name.clone()).collect();
    assert_eq!(names, vec!["large.txt", "medium.txt", "small.txt", "sub"]);
    let sizes: Vec<u64> = children.iter().map(|c| c.size).collect();
    assert_eq!(sizes, vec![500, 50, 5, 0]);
}

#[test]
fn test_excluded_mount_point_not_expanded() {
    let mut scanner = Scanner::new(1);
    scanner.start();
    let root_item = scanner.next_item().unwrap();
    let entries = vec![dir_entry("System")];
    scanner.process_directory(&root_item, entries).unwrap();

    let sys = scanner.next_item().unwrap();
    scanner
        .process_directory(&sys, vec![dir_entry("Volumes")])
        .unwrap();
    let volumes = scanner.next_item().unwrap();
    scanner
        .process_directory(&volumes, vec![dir_entry("Data")])
        .unwrap();
    let data = scanner.next_item().unwrap();
    assert!(!scanner.wants_listing(&data));
    scanner.finish_item();
    assert!(scanner.should_exit_scan());
}

#[test]
fn test_progress_tracks_root_totals() {
    let mut scanner = Scanner::new(1);
    scanner.start();
    let root_item = scanner.next_item().unwrap();
    let progress = scanner
        .process_directory(&root_item, vec![file_entry("a", 7), file_entry("b", 9)])
        .unwrap();
    assert_eq!(progress.scaned_files, 2);
    assert_eq!(progress.scaned_size, 16);
    assert!(progress.is_scanning);
    assert_eq!(progress.current_path.as_deref(), Some("/"));

    let snapshot = scanner.get_progress();
    assert_eq!(snapshot.scaned_files, 2);
    assert_eq!(snapshot.scaned_size, 16);
}

#[test]
fn test_scan_progress_reset() {
    let mut progress = ScanProgress {
        scaned_files: 9,
        scaned_size: 100,
        current_path: Some("/x".to_string()),
        is_scanning: true,
    };
    progress.reset();
    assert_eq!(progress.scaned_files, 0);
    assert_eq!(progress.scaned_size, 0);
    assert!(progress.current_path.is_none());
    assert!(!progress.is_scanning);
}
