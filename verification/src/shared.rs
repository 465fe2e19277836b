//! Shared, concurrency-safe handles over one in-memory filesystem.
//!
//! A handle owns a reference-counted pointer to a reader/writer lock that
//! guards the tree. Cloning a handle clones only the pointer, never the
//! tree: every clone aliases the same storage, and a mutation through one
//! handle is visible through all of them. Handles may be moved to other
//! threads; each operation takes the lock for just its own duration, so
//! operations through different handles serialize but never interleave
//! inside the tree. The lock's invariant — proved here and relied on by
//! every operation — is that the tree is always well-formed.
//!
//! The price of sharing is that no handle operation can promise what state
//! it found: another handle may run between any two calls. What each call
//! did to the state it found is exactly the contract of the corresponding
//! [`MockFS`] operation.

use crate::mockfs::{MockDirEntry, MockFS, MockMetadata, MockWriter};
use crate::XfsError;
use std::sync::Arc;
use vstd::prelude::*;
use vstd::rwlock::{RwLock, RwLockPredicate};

verus! {

/// The lock invariant of a shared filesystem: the tree is well-formed.
pub struct FsPred {}

impl RwLockPredicate<MockFS> for FsPred {
    open spec fn inv(self, v: MockFS) -> bool {
        v.wf()
    }
}

/// Relies on `Arc::clone`: the clone is a second pointer to the very same
/// allocation, so its pointee is the given pointer's pointee.
#[verifier::external_body]
fn clone_arc<T>(a: &Arc<T>) -> (r: Arc<T>)
    ensures
        r == *a,
{
    Arc::clone(a)
}

/// A read-write handle to a shared in-memory filesystem.
pub struct MockFsHandle {
    pub lock: Arc<RwLock<MockFS, FsPred>>,
}

/// A read-only handle to a shared in-memory filesystem: it aliases the same
/// storage as the handles it was cloned from, but offers no mutating
/// operation.
pub struct MockFsReadHandle {
    pub lock: Arc<RwLock<MockFS, FsPred>>,
}

impl MockFsHandle {
    /// The handle's lock guards well-formed trees.
    pub open spec fn wf(&self) -> bool {
        (*self.lock).pred() == (FsPred {  })
    }

    /// Creates a handle over a fresh, empty filesystem.
    pub fn new() -> (r: MockFsHandle)
        ensures
            r.wf(),
    {
        let fs = MockFS::new();
        MockFsHandle { lock: Arc::new(RwLock::new(fs, Ghost(FsPred {  }))) }
    }

    /// A new read-only handle aliasing the same storage: it shares the very
    /// lock of this handle, so it observes every mutation made through this
    /// handle or any other clone.
    pub fn unsafe_clone(&self) -> (r: MockFsReadHandle)
        requires
            self.wf(),
        ensures
            r.lock == self.lock,
            r.wf(),
    {
        MockFsReadHandle { lock: clone_arc(&self.lock) }
    }

    /// A new read-write handle aliasing the same storage.
    pub fn unsafe_clone_mut(&self) -> (r: MockFsHandle)
        requires
            self.wf(),
        ensures
            r.lock == self.lock,
            r.wf(),
    {
        MockFsHandle { lock: clone_arc(&self.lock) }
    }

    /// Creates a text file, creating missing ancestor directories first, in
    /// the state the lock holds at this moment.
    pub fn add_file(&self, p: &str, contents: &str) -> (r: Result<(), XfsError>)
        requires
            self.wf(),
    {
        let (mut fs, wh) = (*self.lock).acquire_write();
        let r = fs.add_file(p, contents);
        wh.release_write(fs);
        r
    }

    /// Reads the whole contents of a file, as of this moment.
    pub fn get(&self, p: &str) -> (r: Result<Vec<u8>, XfsError>)
        requires
            self.wf(),
    {
        let rh = (*self.lock).acquire_read();
        let r = rh.borrow().get(p);
        rh.release_read();
        r
    }

    /// Reads the whole contents of a file as text, as of this moment.
    pub fn get_str(&self, p: &str) -> (r: Result<String, XfsError>)
        requires
            self.wf(),
    {
        let rh = (*self.lock).acquire_read();
        let r = rh.borrow().get_str(p);
        rh.release_read();
        r
    }

    /// Reports whether a path denotes a file or a directory, as of this
    /// moment.
    pub fn metadata(&self, p: &str) -> (r: Result<MockMetadata, XfsError>)
        requires
            self.wf(),
    {
        let rh = (*self.lock).acquire_read();
        let r = rh.borrow().metadata(p);
        rh.release_read();
        r
    }

    /// True when the path denotes an entry, as of this moment.
    pub fn path_exists(&self, p: &str) -> (r: bool)
        requires
            self.wf(),
    {
        let rh = (*self.lock).acquire_read();
        let r = rh.borrow().path_exists(p);
        rh.release_read();
        r
    }

    /// True when the path denotes a directory, as of this moment.
    pub fn is_dir(&self, p: &str) -> (r: bool)
        requires
            self.wf(),
    {
        let rh = (*self.lock).acquire_read();
        let r = rh.borrow().is_dir(p);
        rh.release_read();
        r
    }

    /// True when the path denotes a file, as of this moment.
    pub fn is_file(&self, p: &str) -> (r: bool)
        requires
            self.wf(),
    {
        let rh = (*self.lock).acquire_read();
        let r = rh.borrow().is_file(p);
        rh.release_read();
        r
    }

    /// An eager snapshot of a directory's children, as of this moment; the
    /// filesystem may be freely mutated — by this handle or any other —
    /// while the snapshot is iterated.
    pub fn read_dir(&self, p: &str) -> (r: Result<Vec<MockDirEntry>, XfsError>)
        requires
            self.wf(),
    {
        let rh = (*self.lock).acquire_read();
        let r = rh.borrow().read_dir(p);
        rh.release_read();
        r
    }

    /// Reads a file as UTF-8 lines, as of this moment.
    pub fn read_all_lines(&self, p: &str) -> (r: Result<Vec<String>, XfsError>)
        requires
            self.wf(),
    {
        let rh = (*self.lock).acquire_read();
        let r = rh.borrow().read_all_lines(p);
        rh.release_read();
        r
    }

    /// Opens a live reader over the file a path denotes: each read first
    /// refreshes from the shared storage, so bytes appended through any
    /// aliasing handle up to the moment of the read are observed. Once the
    /// path stops denoting a file, the reader keeps serving the contents it
    /// last observed.
    pub fn reader(&self, p: &str) -> (r: Result<SharedReader, XfsError>)
        requires
            self.wf(),
        ensures
            r matches Ok(rd) ==> rd.wf() && rd.index == 0,
    {
        let rh = (*self.lock).acquire_read();
        let contents = rh.borrow().get(p);
        rh.release_read();
        match contents {
            Ok(v) => Ok(
                SharedReader { lock: clone_arc(&self.lock), path: p.to_owned(), cache: v, index: 0 },
            ),
            Err(e) => Err(e),
        }
    }

    /// Creates a brand-new empty file and returns a sink appending to it
    /// through this handle's shared storage: written bytes are visible to
    /// every aliasing handle at once.
    pub fn writer(&self, p: &str) -> (r: Result<SharedWriter, XfsError>)
        requires
            self.wf(),
        ensures
            r matches Ok(w) ==> w.wf(),
    {
        let (mut fs, wh) = (*self.lock).acquire_write();
        let inner = fs.writer(p);
        wh.release_write(fs);
        match inner {
            Ok(sink) => Ok(SharedWriter { lock: clone_arc(&self.lock), sink }),
            Err(e) => Err(e),
        }
    }

    /// Creates a directory, in the state the lock holds at this moment.
    pub fn create_dir(&self, p: &str) -> (r: Result<(), XfsError>)
        requires
            self.wf(),
    {
        let (mut fs, wh) = (*self.lock).acquire_write();
        let r = fs.create_dir(p);
        wh.release_write(fs);
        r
    }

    /// Creates every missing directory along the path, in the state the
    /// lock holds at this moment.
    pub fn create_dir_all(&self, p: &str) -> (r: Result<(), XfsError>)
        requires
            self.wf(),
    {
        let (mut fs, wh) = (*self.lock).acquire_write();
        let r = fs.create_dir_all(p);
        wh.release_write(fs);
        r
    }

    /// Removes a file, in the state the lock holds at this moment.
    pub fn remove_file(&self, p: &str) -> (r: Result<(), XfsError>)
        requires
            self.wf(),
    {
        let (mut fs, wh) = (*self.lock).acquire_write();
        let r = fs.remove_file(p);
        wh.release_write(fs);
        r
    }

    /// Removes a directory and everything beneath it, in the state the
    /// lock holds at this moment.
    pub fn remove_dir_all(&self, p: &str) -> (r: Result<(), XfsError>)
        requires
            self.wf(),
    {
        let (mut fs, wh) = (*self.lock).acquire_write();
        let r = fs.remove_dir_all(p);
        wh.release_write(fs);
        r
    }

    /// Renames an entry, in the state the lock holds at this moment. The
    /// check-then-move pair runs under one continuous hold of the lock, so
    /// no other handle can observe or interleave with a half-done move.
    pub fn rename(&self, from: &str, to: &str) -> (r: Result<(), XfsError>)
        requires
            self.wf(),
    {
        let (mut fs, wh) = (*self.lock).acquire_write();
        let r = fs.rename(from, to);
        wh.release_write(fs);
        r
    }
}

impl MockFsReadHandle {
    /// The handle's lock guards well-formed trees.
    pub open spec fn wf(&self) -> bool {
        (*self.lock).pred() == (FsPred {  })
    }

    /// A new read-only handle aliasing the same storage.
    pub fn unsafe_clone(&self) -> (r: MockFsReadHandle)
        requires
            self.wf(),
        ensures
            r.lock == self.lock,
            r.wf(),
    {
        MockFsReadHandle { lock: clone_arc(&self.lock) }
    }

    /// Reads the whole contents of a file, as of this moment.
    pub fn get(&self, p: &str) -> (r: Result<Vec<u8>, XfsError>)
        requires
            self.wf(),
    {
        let rh = (*self.lock).acquire_read();
        let r = rh.borrow().get(p);
        rh.release_read();
        r
    }

    /// Reads the whole contents of a file as text, as of this moment.
    pub fn get_str(&self, p: &str) -> (r: Result<String, XfsError>)
        requires
            self.wf(),
    {
        let rh = (*self.lock).acquire_read();
        let r = rh.borrow().get_str(p);
        rh.release_read();
        r
    }

    /// Reports whether a path denotes a file or a directory, as of this
    /// moment.
    pub fn metadata(&self, p: &str) -> (r: Result<MockMetadata, XfsError>)
        requires
            self.wf(),
    {
        let rh = (*self.lock).acquire_read();
        let r = rh.borrow().metadata(p);
        rh.release_read();
        r
    }

    /// True when the path denotes an entry, as of this moment.
    pub fn path_exists(&self, p: &str) -> (r: bool)
        requires
            self.wf(),
    {
        let rh = (*self.lock).acquire_read();
        let r = rh.borrow().path_exists(p);
        rh.release_read();
        r
    }

    /// True when the path denotes a directory, as of this moment.
    pub fn is_dir(&self, p: &str) -> (r: bool)
        requires
            self.wf(),
    {
        let rh = (*self.lock).acquire_read();
        let r = rh.borrow().is_dir(p);
        rh.release_read();
        r
    }

    /// True when the path denotes a file, as of this moment.
    pub fn is_file(&self, p: &str) -> (r: bool)
        requires
            self.wf(),
    {
        let rh = (*self.lock).acquire_read();
        let r = rh.borrow().is_file(p);
        rh.release_read();
        r
    }

    /// An eager snapshot of a directory's children, as of this moment.
    pub fn read_dir(&self, p: &str) -> (r: Result<Vec<MockDirEntry>, XfsError>)
        requires
            self.wf(),
    {
        let rh = (*self.lock).acquire_read();
        let r = rh.borrow().read_dir(p);
        rh.release_read();
        r
    }

    /// Reads a file as UTF-8 lines, as of this moment.
    pub fn read_all_lines(&self, p: &str) -> (r: Result<Vec<String>, XfsError>)
        requires
            self.wf(),
    {
        let rh = (*self.lock).acquire_read();
        let r = rh.borrow().read_all_lines(p);
        rh.release_read();
        r
    }

    /// Opens a live reader over the file a path denotes, as
    /// `MockFsHandle::reader` does.
    pub fn reader(&self, p: &str) -> (r: Result<SharedReader, XfsError>)
        requires
            self.wf(),
        ensures
            r matches Ok(rd) ==> rd.wf() && rd.index == 0,
    {
        let rh = (*self.lock).acquire_read();
        let contents = rh.borrow().get(p);
        rh.release_read();
        match contents {
            Ok(v) => Ok(
                SharedReader { lock: clone_arc(&self.lock), path: p.to_owned(), cache: v, index: 0 },
            ),
            Err(e) => Err(e),
        }
    }
}

/// A sink over the shared storage: each write appends to the bound file in
/// whatever state the tree then has, and is immediately visible through
/// every handle aliasing that storage.
pub struct SharedWriter {
    pub lock: Arc<RwLock<MockFS, FsPred>>,
    pub sink: MockWriter,
}

impl SharedWriter {
    /// The writer's lock guards well-formed trees and its sink is bound to
    /// valid components.
    pub open spec fn wf(&self) -> bool {
        &&& (*self.lock).pred() == (FsPred {  })
        &&& self.sink.wf()
    }

    /// Appends the bytes to the bound file, failing as the underlying
    /// append does when the file has meanwhile been removed or replaced.
    pub fn write(&mut self, buf: &[u8]) -> (r: Result<usize, XfsError>)
        requires
            old(self).wf(),
        ensures
            final(self).wf(),
            r matches Ok(n) ==> n == buf@.len(),
    {
        let (mut fs, wh) = (*self.lock).acquire_write();
        let r = self.sink.write(&mut fs, buf);
        wh.release_write(fs);
        r
    }

    /// Writing is unbuffered, so flushing has nothing to do.
    pub fn flush(&self) {
    }
}

/// A live stream over the shared storage: each read refreshes its view of
/// the bound file first, so writer activity through any aliasing handle is
/// observed up to the moment of the read. When the path stops denoting a
/// file — it was removed or renamed — the stream keeps serving the
/// contents it last observed, and never fails.
pub struct SharedReader {
    pub lock: Arc<RwLock<MockFS, FsPred>>,
    pub path: String,
    pub cache: Vec<u8>,
    pub index: usize,
}

impl SharedReader {
    /// The reader's lock guards well-formed trees.
    pub open spec fn wf(&self) -> bool {
        (*self.lock).pred() == (FsPred {  })
    }

    /// Refreshes the cached contents from the shared storage, keeping the
    /// last observation when the path no longer denotes a file.
    fn refresh(&mut self)
        requires
            old(self).wf(),
        ensures
            final(self).wf(),
            final(self).index == old(self).index,
            final(self).path == old(self).path,
            final(self).lock == old(self).lock,
    {
        let rh = (*self.lock).acquire_read();
        let contents = rh.borrow().get(self.path.as_str());
        rh.release_read();
        match contents {
            Ok(v) => {
                self.cache = v;
            },
            Err(e) => {},
        }
    }

    /// Reads up to `n` bytes from the cursor, advancing it. The bytes come
    /// from the file as stored at this moment (or, for a detached file,
    /// as last observed); a short read means the cursor reached the end.
    pub fn read(&mut self, n: usize) -> (r: Vec<u8>)
        requires
            old(self).wf(),
        ensures
            final(self).wf(),
            final(self).path == old(self).path,
            final(self).lock == old(self).lock,
            r@.len() <= n,
            final(self).index == old(self).index + r@.len(),
            r@.len() > 0 ==> old(self).index + r@.len() <= final(self).cache@.len() && r@ == final(self).cache@.subrange(old(self).index as int, old(self).index + r@.len()),
            r@.len() < n ==> final(self).index >= final(self).cache@.len(),
    {
        self.refresh();
        let len = self.cache.len();
        if self.index >= len || n == 0 {
            let r: Vec<u8> = Vec::new();
            proof {
                assert(r@.len() == 0);
            }
            return r;
        }
        let avail = len - self.index;
        let take = if n < avail {
            n
        } else {
            avail
        };
        let mut r: Vec<u8> = Vec::new();
        let mut j: usize = 0;
        proof {
            assert(self.cache@.subrange(self.index as int, self.index as int)
                =~= Seq::<u8>::empty());
        }
        while j < take
            invariant
                j <= take,
                0 < take,
                self.cache@.len() == len,
                self.index + take <= len,
                r@ =~= self.cache@.subrange(self.index as int, self.index + j),
            decreases take - j,
        {
            r.push(self.cache[self.index + j]);
            proof {
                assert(self.cache@.subrange(self.index as int, self.index + j + 1)
                    =~= self.cache@.subrange(self.index as int, self.index + j).push(
                    self.cache@[self.index + j],
                ));
            }
            j = j + 1;
        }
        self.index = self.index + take;
        r
    }

    /// Reads everything from the cursor to the end of the file as stored
    /// at this moment.
    pub fn read_to_end(&mut self) -> (r: Vec<u8>)
        requires
            old(self).wf(),
        ensures
            final(self).wf(),
            final(self).path == old(self).path,
            final(self).lock == old(self).lock,
            final(self).index == old(self).index + r@.len(),
            final(self).index >= final(self).cache@.len(),
            old(self).index <= final(self).cache@.len() ==> r@ == final(self).cache@.subrange(
                old(self).index as int,
                final(self).cache@.len() as int,
            ),
            old(self).index > final(self).cache@.len() ==> r@.len() == 0,
    {
        self.refresh();
        let len = self.cache.len();
        if self.index >= len {
            let r: Vec<u8> = Vec::new();
            proof {
                if self.index <= len {
                    assert(self.cache@.subrange(self.index as int, len as int)
                        =~= Seq::<u8>::empty());
                }
            }
            return r;
        }
        let avail = len - self.index;
        let mut r: Vec<u8> = Vec::new();
        let mut j: usize = 0;
        proof {
            assert(self.cache@.subrange(self.index as int, self.index as int)
                =~= Seq::<u8>::empty());
        }
        while j < avail
            invariant
                j <= avail,
                self.cache@.len() == len,
                self.index + avail == len,
                r@ =~= self.cache@.subrange(self.index as int, self.index + j),
            decreases avail - j,
        {
            r.push(self.cache[self.index + j]);
            proof {
                assert(self.cache@.subrange(self.index as int, self.index + j + 1)
                    =~= self.cache@.subrange(self.index as int, self.index + j).push(
                    self.cache@[self.index + j],
                ));
            }
            j = j + 1;
        }
        self.index = self.index + avail;
        r
    }

    /// Reads everything from the cursor to the end and decodes it as
    /// UTF-8.
    pub fn read_to_string(&mut self) -> (r: Result<String, XfsError>)
        requires
            old(self).wf(),
        ensures
            final(self).wf(),
            match r {
                Ok(s) => ({
                    let rest = if old(self).index <= final(self).cache@.len() {
                        final(self).cache@.subrange(
                            old(self).index as int,
                            final(self).cache@.len() as int,
                        )
                    } else {
                        Seq::<u8>::empty()
                    };
                    s@ == vstd::utf8::decode_utf8(rest)
                }),
                Err(e) => e is InvalidUtf8,
            },
    {
        let v = self.read_to_end();
        match crate::mockfs::utf8_to_str(&v) {
            Some(s) => Ok(s.to_owned()),
            None => Err(XfsError::InvalidUtf8 { path: self.path.clone() }),
        }
    }
}

} // verus!
