//! An in-memory, sandboxed filesystem with verified tree operations.
//!
//! Paths are normalized into component sequences by a pure normalizer that
//! resolves `.` and `..` and rejects escapes past the sandbox root. The tree
//! itself is a value: a directory maps names to child entries (kept sorted by
//! name), a file holds a byte buffer. Every operation is specified against a
//! ghost model of that tree. Two capability traits split the surface: a
//! read-only one and a read-write one extending it, so that callers such as
//! a copy's source can be statically restricted to non-mutating operations.

use vstd::prelude::*;

pub mod laws;
pub mod mockfs;
pub mod model;
pub mod path;
pub mod shared;

use crate::mockfs::{spec_join, MockDirEntry, MockMetadata, MockReader};
use crate::model::{
    dirs_make, dirs_ok, entry_wf, exists_at, is_dir_at, is_file_at, lookup_at, tree_del, tree_put,
    walk_at, EntryModel, WalkOutcome,
};
use crate::path::spec_normalize;

verus! {

/// The error taxonomy shared by every filesystem operation. Each variant
/// carries the offending path where one applies.
#[derive(Debug)]
pub enum XfsError {
    /// An underlying native I/O failure (used by real-filesystem adapters).
    IoError { path: String, message: String },
    /// Resolution failed at some component.
    NotFound { path: String },
    /// A create-style operation targeted an already-bound name.
    AlreadyExists { path: String },
    /// An operation expected a directory and found a file.
    NotADirectory { path: String },
    /// An operation expected a file and found a directory.
    NotAFile { path: String },
    /// A `..` component stepped above the root during normalization.
    PathOutsideSandbox { path: String },
    /// A text-oriented read encountered non-UTF-8 bytes.
    InvalidUtf8 { path: String },
    /// Escape hatch for adapter-specific failures.
    GeneralError { message: String },
    /// Escape hatch for caller-supplied error wrapping.
    UserError { message: String },
}

/// The kind of an entry, as a metadata record answers it.
pub trait XfsMetadata: Sized {
    /// What `is_dir` answers.
    spec fn spec_is_dir(&self) -> bool;

    /// What `is_file` answers.
    spec fn spec_is_file(&self) -> bool;

    /// True when the entry is a directory.
    fn is_dir(&self) -> (r: bool)
        ensures
            r == self.spec_is_dir(),
    ;

    /// True when the entry is a file.
    fn is_file(&self) -> (r: bool)
        ensures
            r == self.spec_is_file(),
    ;
}

/// One row of a directory listing.
pub trait XfsDirEntry: Sized {
    /// What `path` answers.
    spec fn spec_path(&self) -> Seq<char>;

    /// The listed entry's path.
    fn path(&self) -> (r: String)
        ensures
            r@ == self.spec_path(),
    ;

    /// The listed entry's kind. An adapter backed by a real filesystem may
    /// fail here; the in-memory listing never does.
    fn metadata(&self) -> Result<MockMetadata, XfsError>;
}

/// The read-only capability over a filesystem: resolution, metadata,
/// directory listing and file reading, all specified against the ghost tree
/// the implementation presents as its `model`.
pub trait XfsReadOnly: Sized {
    /// The tree this handle presents.
    spec fn model(&self) -> EntryModel;

    /// Reports whether a path denotes a file or a directory.
    fn metadata(&self, p: &str) -> (r: Result<MockMetadata, XfsError>)
        requires
            entry_wf(self.model()),
            self.model() matches EntryModel::Dir { .. },
        ensures
            match r {
                Ok(md) => spec_normalize(p@) matches Some(c) && exists_at(self.model(), c)
                    && md.is_dir == is_dir_at(self.model(), c) && md.is_file == is_file_at(
                    self.model(),
                    c,
                ),
                Err(XfsError::PathOutsideSandbox { path }) => spec_normalize(p@) is None && path@
                    == p@,
                Err(XfsError::NotFound { path }) => spec_normalize(p@) matches Some(c) && walk_at(
                    self.model(),
                    c,
                ) is MissingEntry && path@ == p@,
                Err(XfsError::NotADirectory { path }) => spec_normalize(p@) matches Some(c)
                    && walk_at(self.model(), c) is FileInTheWay && path@ == p@,
                _ => false,
            },
    ;

    /// True when the path denotes an entry; every failure counts as absence.
    fn path_exists(&self, p: &str) -> (r: bool)
        requires
            entry_wf(self.model()),
            self.model() matches EntryModel::Dir { .. },
        ensures
            r <==> (spec_normalize(p@) matches Some(c) && exists_at(self.model(), c)),
    ;

    /// True when the path denotes a directory; every failure counts as no.
    fn is_dir(&self, p: &str) -> (r: bool)
        requires
            entry_wf(self.model()),
            self.model() matches EntryModel::Dir { .. },
        ensures
            r <==> (spec_normalize(p@) matches Some(c) && is_dir_at(self.model(), c)),
    ;

    /// True when the path denotes a file; every failure counts as no.
    fn is_file(&self, p: &str) -> (r: bool)
        requires
            entry_wf(self.model()),
            self.model() matches EntryModel::Dir { .. },
        ensures
            r <==> (spec_normalize(p@) matches Some(c) && is_file_at(self.model(), c)),
    ;

    /// Lists a directory as an eager snapshot of its children in ascending
    /// name order, so the filesystem may be mutated while iterating.
    fn read_dir(&self, p: &str) -> (r: Result<Vec<MockDirEntry>, XfsError>)
        requires
            entry_wf(self.model()),
            self.model() matches EntryModel::Dir { .. },
        ensures
            match r {
                Ok(v) => ({
                    let c = spec_normalize(p@)->Some_0;
                    let children = lookup_at(self.model(), c)->Some_0->Dir_children;
                    &&& spec_normalize(p@) is Some
                    &&& lookup_at(self.model(), c) matches Option::Some(EntryModel::Dir { .. })
                    &&& v@.len() == children.len()
                    &&& forall|i: int|
                        0 <= i < children.len() ==> (#[trigger] v@[i].name)@ == children[i].0
                    &&& forall|i: int|
                        0 <= i < children.len() ==> (#[trigger] v@[i].path)@ == spec_join(
                            p@,
                            children[i].0,
                        )
                    &&& forall|i: int|
                        0 <= i < children.len() ==> (#[trigger] v@[i].metadata).is_dir == (
                        children[i].1 matches EntryModel::Dir { .. })
                    &&& forall|i: int|
                        0 <= i < children.len() ==> (#[trigger] v@[i].metadata).is_file == (
                        children[i].1 matches EntryModel::File { .. })
                }),
                Err(XfsError::PathOutsideSandbox { path }) => spec_normalize(p@) is None && path@
                    == p@,
                Err(XfsError::NotFound { path }) => spec_normalize(p@) matches Some(c) && walk_at(
                    self.model(),
                    c,
                ) is MissingEntry && path@ == p@,
                Err(XfsError::NotADirectory { path }) => spec_normalize(p@) matches Some(c) && (
                walk_at(self.model(), c) is FileInTheWay || (walk_at(self.model(), c)
                    matches WalkOutcome::Found(EntryModel::File { .. }))) && path@ == p@,
                _ => false,
            },
    ;

    /// Reads the file a path denotes as UTF-8 text split into lines.
    fn read_all_lines(&self, p: &str) -> (r: Result<Vec<String>, XfsError>)
        requires
            entry_wf(self.model()),
            self.model() matches EntryModel::Dir { .. },
        ensures
            match r {
                Ok(v) => spec_normalize(p@) matches Some(c) && (lookup_at(self.model(), c)
                    matches Option::Some(EntryModel::File { data }) && vstd::utf8::valid_utf8(data)
                    && v.deep_view() == crate::mockfs::spec_lines(vstd::utf8::decode_utf8(data))),
                Err(XfsError::InvalidUtf8 { path }) => spec_normalize(p@) matches Some(c) && (
                lookup_at(self.model(), c) matches Option::Some(EntryModel::File { data })
                    && !vstd::utf8::valid_utf8(data)) && path@ == p@,
                Err(XfsError::PathOutsideSandbox { path }) => spec_normalize(p@) is None && path@
                    == p@,
                Err(XfsError::NotFound { path }) => spec_normalize(p@) matches Some(c) && walk_at(
                    self.model(),
                    c,
                ) is MissingEntry && path@ == p@,
                Err(XfsError::NotADirectory { path }) => spec_normalize(p@) matches Some(c)
                    && walk_at(self.model(), c) is FileInTheWay && path@ == p@,
                Err(XfsError::NotAFile { path }) => spec_normalize(p@) matches Some(c) && (walk_at(
                    self.model(),
                    c,
                ) matches WalkOutcome::Found(EntryModel::Dir { .. })) && path@ == p@,
                _ => false,
            },
    ;

    /// Opens a reader over the file a path denotes, holding a snapshot of
    /// the contents at the time of opening.
    fn reader(&self, p: &str) -> (r: Result<MockReader, XfsError>)
        requires
            entry_wf(self.model()),
            self.model() matches EntryModel::Dir { .. },
        ensures
            match r {
                Ok(rd) => spec_normalize(p@) matches Some(c) && lookup_at(self.model(), c)
                    == Option::Some((EntryModel::File { data: rd.data@ })) && rd.index == 0,
                Err(XfsError::PathOutsideSandbox { path }) => spec_normalize(p@) is None && path@
                    == p@,
                Err(XfsError::NotFound { path }) => spec_normalize(p@) matches Some(c) && walk_at(
                    self.model(),
                    c,
                ) is MissingEntry && path@ == p@,
                Err(XfsError::NotADirectory { path }) => spec_normalize(p@) matches Some(c)
                    && walk_at(self.model(), c) is FileInTheWay && path@ == p@,
                Err(XfsError::NotAFile { path }) => spec_normalize(p@) matches Some(c) && (walk_at(
                    self.model(),
                    c,
                ) matches WalkOutcome::Found(EntryModel::Dir { .. })) && path@ == p@,
                _ => false,
            },
    ;
}

/// The read-write capability over a filesystem, extending the read-only
/// one with creation, removal and renaming. Every mutating operation keeps
/// the model well-formed and rooted at a directory.
pub trait Xfs: XfsReadOnly {
    /// Creates a brand-new file at the path holding the given bytes; the
    /// parent must exist, the root and bound names are refused.
    fn write_file(&mut self, p: &str, contents: &[u8]) -> (r: Result<(), XfsError>)
        requires
            entry_wf(old(self).model()),
            old(self).model() matches EntryModel::Dir { .. },
        ensures
            entry_wf(final(self).model()),
            final(self).model() matches EntryModel::Dir { .. },
            match r {
                Ok(()) => ({
                    let c = spec_normalize(p@)->Some_0;
                    &&& spec_normalize(p@) is Some
                    &&& c.len() > 0
                    &&& lookup_at(old(self).model(), c) is None
                    &&& final(self).model() == tree_put(
                        old(self).model(),
                        c,
                        (EntryModel::File { data: contents@ }),
                    )
                }),
                Err(e) => final(self).model() == old(self).model(),
            },
    ;

    /// Creates a directory at the path; the parent must exist, the root
    /// (which always exists) and bound names are reported as existing.
    fn create_dir(&mut self, p: &str) -> (r: Result<(), XfsError>)
        requires
            entry_wf(old(self).model()),
            old(self).model() matches EntryModel::Dir { .. },
        ensures
            entry_wf(final(self).model()),
            final(self).model() matches EntryModel::Dir { .. },
            match r {
                Ok(()) => ({
                    let c = spec_normalize(p@)->Some_0;
                    &&& spec_normalize(p@) is Some
                    &&& c.len() > 0
                    &&& lookup_at(old(self).model(), c) is None
                    &&& final(self).model() == tree_put(
                        old(self).model(),
                        c,
                        crate::model::empty_dir(),
                    )
                }),
                Err(e) => final(self).model() == old(self).model(),
            },
    ;

    /// Idempotently creates every missing directory along the path.
    fn create_dir_all(&mut self, p: &str) -> (r: Result<(), XfsError>)
        requires
            entry_wf(old(self).model()),
            old(self).model() matches EntryModel::Dir { .. },
        ensures
            entry_wf(final(self).model()),
            final(self).model() matches EntryModel::Dir { .. },
            match r {
                Ok(()) => spec_normalize(p@) matches Some(c) && dirs_ok(old(self).model(), c)
                    && final(self).model() == dirs_make(old(self).model(), c),
                Err(XfsError::PathOutsideSandbox { path }) => spec_normalize(p@) is None && path@
                    == p@ && final(self).model() == old(self).model(),
                Err(XfsError::NotADirectory { path }) => spec_normalize(p@) matches Some(c)
                    && !dirs_ok(old(self).model(), c) && final(self).model() == dirs_make(
                    old(self).model(),
                    c,
                ) && path@ == p@,
                _ => false,
            },
    ;

    /// Removes the file at the path; a directory is refused.
    fn remove_file(&mut self, p: &str) -> (r: Result<(), XfsError>)
        requires
            entry_wf(old(self).model()),
            old(self).model() matches EntryModel::Dir { .. },
        ensures
            entry_wf(final(self).model()),
            final(self).model() matches EntryModel::Dir { .. },
            match r {
                Ok(()) => spec_normalize(p@) matches Some(c) && c.len() > 0 && is_file_at(
                    old(self).model(),
                    c,
                ) && final(self).model() == tree_del(old(self).model(), c),
                Err(e) => final(self).model() == old(self).model(),
            },
    ;

    /// Removes the directory at the path and everything beneath it; a file
    /// is refused.
    fn remove_dir_all(&mut self, p: &str) -> (r: Result<(), XfsError>)
        requires
            entry_wf(old(self).model()),
            old(self).model() matches EntryModel::Dir { .. },
        ensures
            entry_wf(final(self).model()),
            final(self).model() matches EntryModel::Dir { .. },
            match r {
                Ok(()) => spec_normalize(p@) matches Some(c) && c.len() > 0 && is_dir_at(
                    old(self).model(),
                    c,
                ) && final(self).model() == tree_del(old(self).model(), c),
                Err(e) => final(self).model() == old(self).model(),
            },
    ;

    /// Moves the entry at `from` under `to`, keeping the entry itself.
    /// Renaming a path to itself succeeds and changes nothing, before any
    /// other check.
    fn rename(&mut self, from: &str, to: &str) -> (r: Result<(), XfsError>)
        requires
            entry_wf(old(self).model()),
            old(self).model() matches EntryModel::Dir { .. },
        ensures
            entry_wf(final(self).model()),
            final(self).model() matches EntryModel::Dir { .. },
            from@ == to@ ==> r is Ok && final(self).model() == old(self).model(),
            match r {
                Ok(()) => from@ == to@ || ({
                    let fc = spec_normalize(from@)->Some_0;
                    let tc = spec_normalize(to@)->Some_0;
                    &&& spec_normalize(from@) is Some
                    &&& spec_normalize(to@) is Some
                    &&& (fc == tc ==> final(self).model() == old(self).model())
                    &&& (fc != tc ==> fc.len() > 0 && tc.len() > 0 && (lookup_at(
                        old(self).model(),
                        fc,
                    ) matches Option::Some(x) && final(self).model() == tree_put(
                        tree_del(old(self).model(), fc),
                        tc,
                        x,
                    )))
                }),
                Err(e) => final(self).model() == old(self).model(),
            },
    ;
}

} // verus!
