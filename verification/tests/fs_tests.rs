use xfs::mockfs::MockFS;
use xfs::XfsError;
use xfs::{Xfs, XfsDirEntry, XfsMetadata, XfsReadOnly};

#[test]
fn test_mockfs_basic() {
    let mut fs = MockFS::new();
    let path = "test.txt";
    let content = "hello world";

    fs.add_file(path, content).unwrap();

    let mut reader = fs.reader(path).unwrap();
    let buf = reader.read_to_string().unwrap();
    assert_eq!(buf, content);
}

#[test]
fn test_mockfs_writer_truncates() {
    let mut fs = MockFS::new();
    let path = "test.txt";

    // Write initial content.
    {
        let w = fs.writer(path).unwrap();
        w.write(&mut fs, b"original content").unwrap();
    }

    // Each writer starts a brand-new empty buffer; the old entry has to be
    // removed first, which together gives create-or-truncate semantics.
    fs.remove_file(path).unwrap();
    {
        let w = fs.writer(path).unwrap();
        w.write(&mut fs, b"new").unwrap();
    }

    let content = fs.get_str(path).unwrap();
    assert_eq!(content, "new");
}

#[test]
fn test_mockfs_writer_errors() {
    let mut fs = MockFS::new();

    // 1. Existing directory
    fs.create_dir("dir").unwrap();
    assert!(matches!(fs.writer("dir"), Err(XfsError::NotAFile { .. })));

    // 2. Root path
    assert!(matches!(fs.writer("/"), Err(XfsError::NotAFile { .. })));

    // 3. Empty path
    assert!(matches!(fs.writer(""), Err(XfsError::NotAFile { .. })));
}

#[test]
fn test_mockfs_remove_file() {
    let mut fs = MockFS::new();
    let path = "test.txt";
    fs.add_file(path, "hello").unwrap();
    assert!(fs.path_exists(path));
    fs.remove_file(path).unwrap();
    assert!(!fs.path_exists(path));
}

#[test]
fn test_mockfs_remove_dir_all() {
    let mut fs = MockFS::new();
    fs.add_file("dir/a.txt", "a").unwrap();
    fs.add_file("dir/subdir/b.txt", "b").unwrap();
    assert!(fs.is_dir("dir"));
    fs.remove_dir_all("dir").unwrap();
    assert!(!fs.path_exists("dir"));
    assert!(!fs.path_exists("dir/a.txt"));
}

#[test]
fn test_mockfs_rename() {
    let mut fs = MockFS::new();
    fs.add_file("old.txt", "content").unwrap();
    fs.rename("old.txt", "new.txt").unwrap();
    assert!(!fs.path_exists("old.txt"));
    assert!(fs.is_file("new.txt"));
    assert_eq!(fs.get("new.txt").unwrap(), b"content".to_vec());
}

#[test]
fn test_mockfs_remove_file_error() {
    let mut fs = MockFS::new();
    fs.create_dir("dir").unwrap();

    // remove_file on a directory should fail
    let res = fs.remove_file("dir");
    assert!(res.is_err());
}

#[test]
fn test_mockfs_remove_dir_all_error() {
    let mut fs = MockFS::new();
    fs.add_file("file.txt", "content").unwrap();

    // remove_dir_all on a file should fail
    let res = fs.remove_dir_all("file.txt");
    assert!(res.is_err());
}

#[test]
fn test_mockfs_rename_error() {
    let mut fs = MockFS::new();

    // rename non-existent should fail
    let res = fs.rename("none", "new");
    assert!(res.is_err());
}

#[test]
fn test_mockfs_copy_recursive() {
    let mut fs1 = MockFS::new();
    fs1.add_file("dir/a.txt", "a").unwrap();
    fs1.add_file("dir/subdir/b.txt", "b").unwrap();

    let mut fs2 = MockFS::new();
    fs2.copy_recursive(&fs1, "dir", "copied").unwrap();

    assert!(fs2.is_file("copied/a.txt"));
    assert!(fs2.is_file("copied/subdir/b.txt"));

    assert_eq!(fs2.get_str("copied/a.txt").unwrap(), "a");
    let mut reader = fs2.reader("copied/subdir/b.txt").unwrap();
    let buf = reader.read_to_string().unwrap();
    assert_eq!(buf, "b");
}

#[test]
fn test_mockfs_read_dir() {
    let mut fs = MockFS::new();
    fs.add_file("a.txt", "a").unwrap();
    fs.add_file("b.txt", "b").unwrap();

    let mut entries = Vec::new();
    for de in fs.read_dir("").unwrap() {
        entries.push(de.path);
    }

    entries.sort();
    assert_eq!(entries.len(), 2);
    assert_eq!(entries[0], "a.txt");
    assert_eq!(entries[1], "b.txt");
}

#[test]
fn test_mockfs_read_dir_mutation() {
    let mut fs = MockFS::new();
    fs.add_file("a.txt", "a").unwrap();

    // The listing is an eager snapshot that does not borrow the filesystem,
    // so the filesystem can be mutated while iterating; the new file never
    // appears within the same iteration.
    for de in fs.read_dir("").unwrap() {
        assert_ne!(de.path, "b.txt");
        if de.path == "a.txt" {
            let w = fs.writer("b.txt").unwrap();
            w.write(&mut fs, b"b").unwrap();
        }
    }

    assert!(fs.is_file("b.txt"));
}

#[test]
fn test_mockfs_directories() {
    let mut fs = MockFS::new();
    fs.create_dir_all("a/b/c").unwrap();
    assert!(fs.is_dir("a"));
    assert!(fs.is_dir("a/b"));
    assert!(fs.is_dir("a/b/c"));
}

#[test]
fn test_normalize_components() {
    let comps = xfs::path::normalize_path("/a/./b/../c//d").unwrap();
    let names: Vec<&str> = comps.iter().map(|s| s.as_str()).collect();
    assert_eq!(names, vec!["a", "c", "d"]);
}

#[test]
fn test_normalize_idempotent() {
    // Normalizing, rendering with separators, and normalizing again gives
    // the same components.
    let once = xfs::path::normalize_path("x/./y/z/..").unwrap();
    let joined = once.join("/");
    let twice = xfs::path::normalize_path(&joined).unwrap();
    assert_eq!(once, twice);
    assert_eq!(once, vec!["x".to_string(), "y".to_string()]);
}

#[test]
fn test_normalize_outside_sandbox() {
    assert!(matches!(
        xfs::path::normalize_path("a/../.."),
        Err(XfsError::PathOutsideSandbox { .. })
    ));
    let mut fs = MockFS::new();
    assert!(matches!(
        fs.add_file("../escape.txt", "x"),
        Err(XfsError::PathOutsideSandbox { .. })
    ));
}

#[test]
fn test_write_then_read_exact() {
    let mut fs = MockFS::new();
    let w = fs.writer("f.bin").unwrap();
    w.write(&mut fs, b"abc").unwrap();
    assert_eq!(fs.get("f.bin").unwrap(), b"abc".to_vec());

    let mut rd = fs.reader("f.bin").unwrap();
    assert_eq!(rd.read(2), b"ab".to_vec());
    assert_eq!(rd.read_to_end(), b"c".to_vec());
}

#[test]
fn test_rename_identical_is_noop() {
    let mut fs = MockFS::new();
    fs.add_file("a.txt", "same").unwrap();
    fs.rename("a.txt", "a.txt").unwrap();
    assert!(fs.path_exists("a.txt"));
    assert_eq!(fs.get_str("a.txt").unwrap(), "same");

    // The no-op comes before every other check: it succeeds for a path
    // that does not exist, for one that does not even normalize, and for
    // two spellings of the same path.
    fs.rename("missing", "missing").unwrap();
    fs.rename("../x", "../x").unwrap();
    fs.rename("a.txt", "./a.txt").unwrap();
    assert_eq!(fs.get_str("a.txt").unwrap(), "same");
}

#[test]
fn test_rename_into_own_subtree_fails() {
    let mut fs = MockFS::new();
    fs.create_dir_all("a/b").unwrap();
    let res = fs.rename("a", "a/b/c");
    assert!(res.is_err());
    // Nothing was destroyed by the refused rename.
    assert!(fs.is_dir("a"));
    assert!(fs.is_dir("a/b"));
}

#[test]
fn test_create_dir_root_exists() {
    let mut fs = MockFS::new();
    assert!(matches!(fs.create_dir("/"), Err(XfsError::AlreadyExists { .. })));
    assert!(matches!(fs.create_dir(""), Err(XfsError::AlreadyExists { .. })));
}

#[test]
fn test_create_dir_missing_parent() {
    let mut fs = MockFS::new();
    assert!(matches!(
        fs.create_dir("no/such/parent"),
        Err(XfsError::NotFound { .. })
    ));
}

#[test]
fn test_create_dir_all_through_file() {
    let mut fs = MockFS::new();
    fs.add_file("a/file", "x").unwrap();
    assert!(matches!(
        fs.create_dir_all("a/file/b"),
        Err(XfsError::NotADirectory { .. })
    ));
    // The ancestors that already existed are untouched.
    assert!(fs.is_dir("a"));
    assert!(fs.is_file("a/file"));
}

#[test]
fn test_get_errors() {
    let mut fs = MockFS::new();
    assert!(matches!(fs.get("missing"), Err(XfsError::NotFound { .. })));
    fs.create_dir("d").unwrap();
    assert!(matches!(fs.get("d"), Err(XfsError::NotAFile { .. })));
    fs.add_file("f", "x").unwrap();
    assert!(matches!(fs.get("f/inside"), Err(XfsError::NotADirectory { .. })));
}

#[test]
fn test_add_file_already_exists() {
    let mut fs = MockFS::new();
    fs.add_file("f", "one").unwrap();
    assert!(matches!(fs.add_file("f", "two"), Err(XfsError::AlreadyExists { .. })));
    assert_eq!(fs.get_str("f").unwrap(), "one");
}

#[test]
fn test_get_str_invalid_utf8() {
    let mut fs = MockFS::new();
    fs.add_r("raw.bin", vec![0xff, 0xfe, 0x41]).unwrap();
    assert!(matches!(fs.get_str("raw.bin"), Err(XfsError::InvalidUtf8 { .. })));
    // The raw bytes stay readable.
    assert_eq!(fs.get("raw.bin").unwrap(), vec![0xff, 0xfe, 0x41]);
}

#[test]
fn test_get_str_non_ascii() {
    let mut fs = MockFS::new();
    fs.add_file("greeting", "héllo wörld").unwrap();
    assert_eq!(fs.get_str("greeting").unwrap(), "héllo wörld");
}

#[test]
fn test_read_all_lines() {
    let mut fs = MockFS::new();
    fs.add_file("lines.txt", "a\nb\r\nc\n").unwrap();
    let lines = fs.read_all_lines("lines.txt").unwrap();
    assert_eq!(lines, vec!["a".to_string(), "b".to_string(), "c".to_string()]);

    fs.add_file("trailing.txt", "no newline").unwrap();
    assert_eq!(
        fs.read_all_lines("trailing.txt").unwrap(),
        vec!["no newline".to_string()]
    );

    fs.add_file("empty.txt", "").unwrap();
    assert_eq!(fs.read_all_lines("empty.txt").unwrap(), Vec::<String>::new());

    fs.add_r("bad.bin", vec![0x80]).unwrap();
    assert!(matches!(
        fs.read_all_lines("bad.bin"),
        Err(XfsError::InvalidUtf8 { .. })
    ));
}

#[test]
fn test_read_dir_sorted_names() {
    let mut fs = MockFS::new();
    fs.add_file("b.txt", "b").unwrap();
    fs.add_file("a.txt", "a").unwrap();
    fs.create_dir("c").unwrap();

    let listing = fs.read_dir("").unwrap();
    let names: Vec<&str> = listing.iter().map(|de| de.name.as_str()).collect();
    // Children are listed in bytewise-sorted name order, deterministically.
    assert_eq!(names, vec!["a.txt", "b.txt", "c"]);
    assert!(listing[0].metadata.is_file);
    assert!(!listing[0].metadata.is_dir);
    assert!(listing[2].metadata.is_dir);
}

#[test]
fn test_read_dir_paths_joined() {
    let mut fs = MockFS::new();
    fs.add_file("dir/x.txt", "x").unwrap();
    let listing = fs.read_dir("dir").unwrap();
    assert_eq!(listing.len(), 1);
    assert_eq!(listing[0].path, "dir/x.txt");
    assert_eq!(listing[0].name, "x.txt");
}

#[test]
fn test_copy_file_into_existing_dir() {
    let mut src = MockFS::new();
    src.add_file("notes.txt", "n").unwrap();
    let mut dst = MockFS::new();
    dst.create_dir("box").unwrap();
    dst.copy_recursive(&src, "notes.txt", "box").unwrap();
    assert_eq!(dst.get_str("box/notes.txt").unwrap(), "n");
}

#[test]
fn test_copy_file_onto_existing_file_fails() {
    let mut src = MockFS::new();
    src.add_file("a", "1").unwrap();
    let mut dst = MockFS::new();
    dst.add_file("a", "2").unwrap();
    assert!(matches!(
        dst.copy_recursive(&src, "a", "a"),
        Err(XfsError::AlreadyExists { .. })
    ));
    assert_eq!(dst.get_str("a").unwrap(), "2");
}

#[test]
fn test_resolve_path_and_node_api() {
    let mut fs = MockFS::new();
    fs.add_file("d/inner.txt", "payload").unwrap();

    let root = fs.resolve_path("").unwrap();
    let d = root.child(&"d".to_string()).unwrap();
    let dir = d.as_dir().unwrap();
    assert_eq!(dir.num_entries(), 1);

    let inner = d.child(&"inner.txt".to_string()).unwrap();
    let file = inner.as_file().unwrap();
    assert_eq!(file.contents, b"payload".to_vec());

    assert!(matches!(inner.as_dir(), Err(XfsError::NotADirectory { .. })));
    assert!(matches!(d.as_file(), Err(XfsError::NotAFile { .. })));
    assert!(matches!(
        d.child(&"missing".to_string()),
        Err(XfsError::NotFound { .. })
    ));
}

#[test]
fn test_directory_entry_api() {
    let mut fs = MockFS::new();
    fs.create_dir("top").unwrap();
    let mut top = match fs.resolve_path("top").unwrap() {
        xfs::mockfs::MockFSEntry::Directory(d) => d,
        xfs::mockfs::MockFSEntry::File(_) => panic!("expected a directory"),
    };
    top.create_file(&"f".to_string(), b"z".to_vec()).unwrap();
    top.create_dir(&"sub".to_string()).unwrap();
    assert_eq!(top.num_entries(), 2);
    assert!(matches!(
        top.create_file(&"f".to_string(), Vec::new()),
        Err(XfsError::AlreadyExists { .. })
    ));
    assert!(matches!(
        top.create_dir(&"sub".to_string()),
        Err(XfsError::AlreadyExists { .. })
    ));
    let k = top.get_or_create_dir(&"sub".to_string()).unwrap();
    assert_eq!(top.entries[k].0, "sub");
    let k2 = top.get_or_create_dir(&"fresh".to_string()).unwrap();
    assert_eq!(top.entries[k2].0, "fresh");
    assert!(matches!(
        top.get_or_create_dir(&"f".to_string()),
        Err(XfsError::NotADirectory { .. })
    ));
}

#[test]
fn test_capability_traits() {
    fn count_entries<F: XfsReadOnly>(fs: &F, p: &str) -> usize {
        fs.read_dir(p).map(|v| v.len()).unwrap_or(0)
    }

    fn scaffold<F: Xfs>(fs: &mut F) {
        fs.create_dir_all("w/x").unwrap();
        fs.write_file("w/x/y", b"payload").unwrap();
    }

    let mut fs = MockFS::new();
    scaffold(&mut fs);
    assert_eq!(count_entries(&fs, "w"), 1);
    assert_eq!(count_entries(&fs, "w/x"), 1);
    assert_eq!(fs.get("w/x/y").unwrap(), b"payload".to_vec());

    fs.rename("w/x/y", "w/z").unwrap();
    assert!(fs.is_file("w/z"));
    assert_eq!(count_entries(&fs, "w/x"), 0);
}

#[test]
fn test_dir_entry_trait_views() {
    let mut fs = MockFS::new();
    fs.add_file("d/a", "a").unwrap();
    let listing = fs.read_dir("d").unwrap();
    assert_eq!(listing[0].path(), "d/a");
    let md = listing[0].metadata().unwrap();
    assert!(md.is_file());
    assert!(!md.is_dir());
}

#[test]
fn test_tree_listing() {
    let mut fs = MockFS::new();
    fs.add_file("dir/a.txt", "a").unwrap();
    assert_eq!(fs.tree(), "/\n  dir/\n    a.txt => a\n");

    fs.add_r("dir/raw", vec![0xff]).unwrap();
    assert_eq!(
        fs.tree(),
        "/\n  dir/\n    a.txt => a\n    raw => (binary)\n"
    );
}

#[test]
fn test_copy_merges_into_existing_dir() {
    let mut src = MockFS::new();
    src.add_file("dir/a.txt", "a").unwrap();
    src.add_file("dir/subdir/b.txt", "b").unwrap();

    let mut dst = MockFS::new();
    dst.add_file("copied/kept.txt", "kept").unwrap();
    dst.copy_recursive(&src, "dir", "copied").unwrap();

    // Existing contents of the destination directory survive the merge.
    assert_eq!(dst.get_str("copied/kept.txt").unwrap(), "kept");
    assert_eq!(dst.get_str("copied/a.txt").unwrap(), "a");
    assert_eq!(dst.get_str("copied/subdir/b.txt").unwrap(), "b");
}

#[test]
fn test_writer_sink_after_removal() {
    let mut fs = MockFS::new();
    let w = fs.writer("f.txt").unwrap();
    w.write(&mut fs, b"x").unwrap();
    fs.remove_file("f.txt").unwrap();
    // The sink is bound to the path; once the file is gone, appending fails.
    assert!(matches!(w.write(&mut fs, b"y"), Err(XfsError::NotFound { .. })));

    fs.create_dir("f.txt").unwrap();
    assert!(matches!(w.write(&mut fs, b"z"), Err(XfsError::NotAFile { .. })));
}

#[test]
fn test_copy_dir_onto_existing_file_fails() {
    let mut src = MockFS::new();
    src.add_file("d/a", "a").unwrap();
    let mut dst = MockFS::new();
    dst.add_file("d", "a file").unwrap();
    assert!(matches!(
        dst.copy_recursive(&src, "d", "d"),
        Err(XfsError::GeneralError { .. })
    ));
    assert_eq!(dst.get_str("d").unwrap(), "a file");
}
