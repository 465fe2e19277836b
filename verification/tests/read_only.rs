use xfs::shared::MockFsHandle;

#[test]
fn test_unsafe_clone_is_readonly() {
    let fs = MockFsHandle::new();
    fs.add_file("test.txt", "hello").unwrap();

    // unsafe_clone hands out a read-only handle aliasing the same storage.
    let fs_clone = fs.unsafe_clone();

    // A read-only handle has no writer() at all; only reads compile.
    assert!(fs_clone.path_exists("test.txt"));
    assert_eq!(fs_clone.get_str("test.txt").unwrap(), "hello");
}

#[test]
fn test_unsafe_clone_mut_is_writable() {
    let fs = MockFsHandle::new();
    fs.add_file("test.txt", "hello").unwrap();

    let fs_clone = fs.unsafe_clone_mut();

    let mut w = fs_clone.writer("other.txt").unwrap();
    w.write(b"hi").unwrap();

    // The mutation through the clone is visible through the original:
    // cloning copied a reference to the shared root, not the data.
    assert!(fs.path_exists("other.txt"));
    assert_eq!(fs.get_str("other.txt").unwrap(), "hi");
}

#[test]
fn test_mockfs_writable_clone() {
    let fs = MockFsHandle::new();
    let fs_clone = fs.unsafe_clone_mut();

    let mut w = fs_clone.writer("test.txt").unwrap();
    w.write(b"hello").unwrap();

    assert!(fs.is_file("test.txt"));
}

#[test]
fn test_shared_writer_is_live() {
    let fs = MockFsHandle::new();
    let ro = fs.unsafe_clone();

    let mut w = fs.writer("log.txt").unwrap();
    w.write(b"one").unwrap();
    // Bytes written so far are visible at once through every handle.
    assert_eq!(ro.get("log.txt").unwrap(), b"one".to_vec());
    w.write(b" two").unwrap();
    assert_eq!(ro.get("log.txt").unwrap(), b"one two".to_vec());
}

#[test]
fn test_reader_survives_removal() {
    let fs = MockFsHandle::new();
    fs.add_file("gone.txt", "contents").unwrap();

    let mut rd = fs.reader("gone.txt").unwrap();
    fs.remove_file("gone.txt").unwrap();

    // Once the path stops denoting a file, the reader keeps serving the
    // contents it last observed, so the removal does not disturb it.
    assert_eq!(rd.read_to_string().unwrap(), "contents");
    assert!(!fs.path_exists("gone.txt"));
}

#[test]
fn test_reader_observes_later_appends() {
    let fs = MockFsHandle::new();
    let mut w = fs.writer("feed.txt").unwrap();
    w.write(b"one").unwrap();

    // The reader is live: it observes writer activity through any aliasing
    // handle up to the moment of each read.
    let mut rd = fs.unsafe_clone().reader("feed.txt").unwrap();
    assert_eq!(rd.read(3), b"one".to_vec());
    w.write(b" two").unwrap();
    assert_eq!(rd.read_to_end(), b" two".to_vec());
}
