use khulan::watcher::file::{DirListing, FileWatcher};

fn listing(path: &str, files: &[(&str, u128)]) -> DirListing {
    DirListing { path: path.to_string(), files: files.iter().map(|(p, t)| (p.to_string(), *t)).collect() }
}

#[test]
fn test_file_watcher() {
    // a directory holding one file
    let created = vec![listing("/tmp/t", &[("/tmp/t/test.txt", 1)])];

    // initial watch
    let mut watcher = FileWatcher::new("/tmp/t", None);
    watcher.scan(None, &created);
    assert_eq!(watcher.changes(&created).len(), 0);

    // the file modified: one change, then none after a rescan
    let modified = vec![listing("/tmp/t", &[("/tmp/t/test.txt", 2)])];
    let mut changes = watcher.changes(&modified);
    assert_eq!(changes.len(), 1);
    watcher.scan_each(&changes, &modified);
    changes = watcher.changes(&modified);
    assert_eq!(changes.len(), 0);

    // the file removed
    let removed = vec![listing("/tmp/t", &[])];
    changes = watcher.changes(&removed);
    assert_eq!(changes.len(), 1);
    watcher.scan_each(&changes, &removed);
    assert_eq!(watcher.changes(&removed).len(), 0);

    // a new directory holding a file
    let nested = vec![
        listing("/tmp/t", &[]),
        listing("/tmp/t/test2_dir", &[("/tmp/t/test2_dir/test-2.txt", 3)]),
    ];
    changes = watcher.changes(&nested);
    assert_eq!(changes.len(), 1);
    assert_eq!(changes, vec!["/tmp/t/test2_dir".to_string()]);
    watcher.scan_each(&changes, &nested);

    // the directory removed with all its files: its parent is reported
    assert_eq!(watcher.changes(&removed).len(), 1);
    assert_eq!(watcher.changes(&removed), vec!["/tmp/t".to_string()]);
}

#[test]
fn watcher_reports_a_new_file() {
    let empty = vec![listing("/t", &[])];
    let mut watcher = FileWatcher::new("/t", None);
    watcher.scan(None, &empty);
    assert!(watcher.changes(&empty).is_empty());
    let one = vec![listing("/t", &[("/t/test.txt", 1)])];
    let changes = watcher.changes(&one);
    assert_eq!(changes, vec!["/t".to_string()]);
    watcher.scan_each(&changes, &one);
    assert!(watcher.changes(&one).is_empty());
}

#[test]
fn watcher_does_not_look_inside_a_changed_directory() {
    let mut watcher = FileWatcher::new("/t", Some(&vec![("/t/a.txt".to_string(), 1), ("/t/s/b.txt".to_string(), 1)]));
    let tree = vec![listing("/t", &[("/t/a.txt", 2)]), listing("/t/s", &[("/t/s/b.txt", 2)])];
    assert_eq!(watcher.changes(&tree), vec!["/t".to_string()]);
    watcher.scan(Some("/t"), &tree);
    assert!(watcher.changes(&tree).is_empty());
    let sibling = vec![
        listing("/t", &[("/t/a.txt", 2)]),
        listing("/t/s", &[("/t/s/b.txt", 3)]),
        listing("/t/sx", &[("/t/sx/c.txt", 1)]),
    ];
    assert_eq!(watcher.changes(&sibling), vec!["/t/s".to_string(), "/t/sx".to_string()]);
}

#[test]
fn watcher_state_can_be_edited() {
    let mut watcher = FileWatcher::new("/t", None);
    assert_eq!(watcher.dir(), "/t");
    let tree = vec![listing("/t", &[("/t/a.txt", 1)])];
    watcher.add("/t/a.txt", 1);
    assert!(watcher.changes(&tree).is_empty());
    watcher.remove("/t/a.txt");
    assert_eq!(watcher.changes(&tree).len(), 1);
    watcher.add("/t/a.txt", 5);
    assert!(watcher.has_changes_in_directory(&tree[0], &tree));
}
