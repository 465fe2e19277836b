//! The in-memory filesystem engine: a tree of directories and files held as
//! a plain value, with every operation verified against the ghost model in
//! `crate::model`.

use crate::model::{
    EntryModel, WalkOutcome, child_at, child_del, child_put, children_wf, dirs_make, dirs_ok, eheight, empty_dir, entry_wf, exists_at, is_dir_at, is_file_at, is_prefix_of, lemma_child_at_from_index, lemma_child_at_index, lemma_child_del_as_remove, lemma_child_height, lemma_child_put_absorb, lemma_child_put_append, lemma_child_put_as_insert, lemma_child_put_at, lemma_child_put_sorted, lemma_children_wf_index, lemma_children_wf_push, lemma_dirs_make_fresh_unbound, lemma_dirs_make_wf, lemma_dirs_ok_empty, lemma_lex_lt_irrefl, lemma_lex_lt_skip, lemma_lookup_last, lemma_lookup_wf, lemma_sorted_drop_first, lemma_tree_del_frame, lemma_tree_del_prefix_dir, lemma_tree_del_wf, lemma_tree_put_child, lemma_tree_put_prefix_dir, lemma_tree_put_preserves_dirs, lemma_tree_put_same, lemma_tree_put_self, lemma_tree_put_twice, lemma_tree_put_wf, lemma_walk_append, lex_lt, lookup_at, sorted_names, tree_del, tree_put, valid_comps, walk_at,
};
use crate::path::{lemma_normalize_join, normalize_path, spec_normalize};
use crate::XfsError;
use vstd::prelude::*;

verus! {

/// A file: an owned byte buffer.
pub struct MockFSFileEntry {
    pub contents: Vec<u8>,
}

/// A directory: its children, as name/entry pairs kept strictly sorted by
/// name so that iteration is deterministic and names are unique.
pub struct MockFSDirectoryEntry {
    pub entries: Vec<(String, MockFSEntry)>,
}

/// One entry of the tree.
pub enum MockFSEntry {
    Directory(MockFSDirectoryEntry),
    File(MockFSFileEntry),
}

/// The ghost model of a child sequence.
pub open spec fn children_model(cs: Seq<(String, MockFSEntry)>) -> Seq<(Seq<char>, EntryModel)>
    decreases cs,
{
    if cs.len() == 0 {
        Seq::empty()
    } else {
        children_model(cs.drop_last()).push((cs.last().0@, entry_model(cs.last().1)))
    }
}

/// The ghost model of an entry.
pub open spec fn entry_model(e: MockFSEntry) -> EntryModel
    decreases e,
{
    match e {
        MockFSEntry::Directory(d) => EntryModel::Dir { children: children_model(d.entries@) },
        MockFSEntry::File(f) => EntryModel::File { data: f.contents@ },
    }
}

impl View for MockFSEntry {
    type V = EntryModel;

    open spec fn view(&self) -> EntryModel {
        entry_model(*self)
    }
}

impl View for MockFSDirectoryEntry {
    type V = Seq<(Seq<char>, EntryModel)>;

    open spec fn view(&self) -> Seq<(Seq<char>, EntryModel)> {
        children_model(self.entries@)
    }
}

impl View for MockFSFileEntry {
    type V = Seq<u8>;

    open spec fn view(&self) -> Seq<u8> {
        self.contents@
    }
}

/// The model of a child sequence has the same length.
pub proof fn lemma_children_model_len(cs: Seq<(String, MockFSEntry)>)
    ensures
        children_model(cs).len() == cs.len(),
    decreases cs.len(),
{
    if cs.len() > 0 {
        lemma_children_model_len(cs.drop_last());
    }
}

/// The model of a child sequence is its elementwise model.
pub proof fn lemma_children_model_index(cs: Seq<(String, MockFSEntry)>, i: int)
    requires
        0 <= i < cs.len(),
    ensures
        children_model(cs).len() == cs.len(),
        children_model(cs)[i].0 == cs[i].0@,
        children_model(cs)[i].1 == entry_model(cs[i].1),
    decreases cs.len(),
{
    lemma_children_model_len(cs);
    if i < cs.len() - 1 {
        lemma_children_model_index(cs.drop_last(), i);
        assert(cs.drop_last()[i] == cs[i]);
    } else {
        lemma_children_model_len(cs.drop_last());
    }
}

/// Updating one child updates its model pointwise.
pub proof fn lemma_children_model_update(
    cs: Seq<(String, MockFSEntry)>,
    k: int,
    x: (String, MockFSEntry),
)
    requires
        0 <= k < cs.len(),
    ensures
        children_model(cs.update(k, x)) == children_model(cs).update(
            k,
            (x.0@, entry_model(x.1)),
        ),
{
    let lhs = children_model(cs.update(k, x));
    let rhs = children_model(cs).update(k, (x.0@, entry_model(x.1)));
    lemma_children_model_len(cs);
    lemma_children_model_len(cs.update(k, x));
    assert forall|i: int| 0 <= i < cs.len() implies lhs[i] == rhs[i] by {
        lemma_children_model_index(cs.update(k, x), i);
        if i != k {
            lemma_children_model_index(cs, i);
        }
    }
    assert(lhs =~= rhs);
}

/// Inserting a child inserts its model pointwise.
pub proof fn lemma_children_model_insert(
    cs: Seq<(String, MockFSEntry)>,
    k: int,
    x: (String, MockFSEntry),
)
    requires
        0 <= k <= cs.len(),
    ensures
        children_model(cs.insert(k, x)) == children_model(cs).insert(
            k,
            (x.0@, entry_model(x.1)),
        ),
{
    let lhs = children_model(cs.insert(k, x));
    let rhs = children_model(cs).insert(k, (x.0@, entry_model(x.1)));
    lemma_children_model_len(cs);
    lemma_children_model_len(cs.insert(k, x));
    cs.insert_ensures(k, x);
    children_model(cs).insert_ensures(k, (x.0@, entry_model(x.1)));
    assert forall|i: int| 0 <= i < cs.len() + 1 implies lhs[i] == rhs[i] by {
        lemma_children_model_index(cs.insert(k, x), i);
        if i < k {
            lemma_children_model_index(cs, i);
        } else if i > k {
            lemma_children_model_index(cs, i - 1);
        }
    }
    assert(lhs =~= rhs);
}

/// Removing a child removes its model pointwise.
pub proof fn lemma_children_model_remove(cs: Seq<(String, MockFSEntry)>, k: int)
    requires
        0 <= k < cs.len(),
    ensures
        children_model(cs.remove(k)) == children_model(cs).remove(k),
{
    let lhs = children_model(cs.remove(k));
    let rhs = children_model(cs).remove(k);
    lemma_children_model_len(cs);
    lemma_children_model_len(cs.remove(k));
    cs.remove_ensures(k);
    children_model(cs).remove_ensures(k);
    assert forall|i: int| 0 <= i < cs.len() - 1 implies lhs[i] == rhs[i] by {
        lemma_children_model_index(cs.remove(k), i);
        if i < k {
            lemma_children_model_index(cs, i);
        } else {
            lemma_children_model_index(cs, i + 1);
        }
    }
    assert(lhs =~= rhs);
}

/// Compares two strings in the lexicographic name order.
fn str_lex_lt(a: &str, b: &str) -> (r: bool)
    ensures
        r == lex_lt(a@, b@),
{
    let na = a.unicode_len();
    let nb = b.unicode_len();
    let mut i: usize = 0;
    loop
        invariant
            i <= na,
            i <= nb,
            na == a@.len(),
            nb == b@.len(),
            forall|j: int| 0 <= j < i ==> a@[j] == b@[j],
        decreases na - i,
    {
        proof {
            lemma_lex_lt_skip(a@, b@, i as int);
        }
        if i == nb {
            assert(b@.skip(i as int).len() == 0);
            return false;
        }
        if i == na {
            assert(a@.skip(i as int).len() == 0 && b@.skip(i as int).len() > 0);
            return true;
        }
        let ca = a.get_char(i);
        let cb = b.get_char(i);
        proof {
            assert(a@.skip(i as int)[0] == a@[i as int]);
            assert(b@.skip(i as int)[0] == b@[i as int]);
        }
        if ca == cb {
            i = i + 1;
        } else {
            return (ca as u32) < (cb as u32);
        }
    }
}

/// Finds the index at which a name is bound among children, if any.
fn find_child(entries: &Vec<(String, MockFSEntry)>, name: &String) -> (r: Option<usize>)
    ensures
        match r {
            Option::Some(k) => {
                &&& k < entries@.len()
                &&& children_model(entries@)[k as int].0 == name@
                &&& forall|j: int|
                    0 <= j < k ==> (#[trigger] children_model(entries@)[j].0) != name@
                &&& child_at(children_model(entries@), name@) == Option::Some(
                    children_model(entries@)[k as int].1,
                )
            },
            Option::None => child_at(children_model(entries@), name@) is None,
        },
{
    let ghost csm = children_model(entries@);
    proof {
        lemma_children_model_len(entries@);
    }
    let n = entries.len();
    let mut i: usize = 0;
    while i < n
        invariant
            i <= n,
            n == entries@.len(),
            csm == children_model(entries@),
            csm.len() == n,
            forall|j: int| 0 <= j < i ==> (#[trigger] csm[j].0) != name@,
        decreases n - i,
    {
        proof {
            lemma_children_model_index(entries@, i as int);
        }
        if entries[i].0 == *name {
            proof {
                lemma_child_at_from_index(csm, name@, i as int);
            }
            return Some(i);
        }
        i = i + 1;
    }
    proof {
        lemma_child_at_index(csm, name@);
        if child_at(csm, name@) is Some {
            let j = choose|j: int| 0 <= j < csm.len() && (#[trigger] csm[j].0) == name@;
            assert(false);
        }
    }
    None
}

/// Finds the sorted insertion slot for a name among children: the first
/// index whose name does not precede it.
fn find_slot(entries: &Vec<(String, MockFSEntry)>, name: &String) -> (r: usize)
    ensures
        r <= entries@.len(),
        forall|j: int| 0 <= j < r ==> lex_lt(#[trigger] children_model(entries@)[j].0, name@),
        r < entries@.len() ==> !lex_lt(children_model(entries@)[r as int].0, name@),
{
    let ghost csm = children_model(entries@);
    proof {
        lemma_children_model_len(entries@);
    }
    let n = entries.len();
    let mut i: usize = 0;
    while i < n
        invariant
            i <= n,
            n == entries@.len(),
            csm == children_model(entries@),
            csm.len() == n,
            forall|j: int| 0 <= j < i ==> lex_lt(#[trigger] csm[j].0, name@),
        decreases n - i,
    {
        proof {
            lemma_children_model_index(entries@, i as int);
        }
        if !str_lex_lt(entries[i].0.as_str(), name.as_str()) {
            return i;
        }
        i = i + 1;
    }
    n
}

impl MockFSEntry {
    /// Borrows the directory behind this entry, refusing a file.
    pub fn as_dir(&self) -> (r: Result<&MockFSDirectoryEntry, XfsError>)
        ensures
            match r {
                Ok(d) => self@ == (EntryModel::Dir { children: d@ }),
                Err(e) => e is NotADirectory && self@ matches EntryModel::File { .. },
            },
    {
        match self {
            MockFSEntry::Directory(d) => Ok(d),
            MockFSEntry::File(f) => Err(XfsError::NotADirectory { path: String::new() }),
        }
    }

    /// Borrows the file behind this entry, refusing a directory.
    pub fn as_file(&self) -> (r: Result<&MockFSFileEntry, XfsError>)
        ensures
            match r {
                Ok(f) => self@ == (EntryModel::File { data: f@ }),
                Err(e) => e is NotAFile && self@ matches EntryModel::Dir { .. },
            },
    {
        match self {
            MockFSEntry::File(f) => Ok(f),
            MockFSEntry::Directory(d) => Err(XfsError::NotAFile { path: String::new() }),
        }
    }

    /// Copies the child bound under a name in this directory entry.
    pub fn child(&self, name: &String) -> (r: Result<MockFSEntry, XfsError>)
        ensures
            match r {
                Ok(x) => self@ matches EntryModel::Dir { children } && child_at(children, name@)
                    == Option::Some(x@),
                Err(XfsError::NotADirectory { path }) => self@ matches EntryModel::File { .. },
                Err(XfsError::NotFound { path }) => self@ matches EntryModel::Dir { children }
                    && child_at(children, name@) is None && path@ == name@,
                _ => false,
            },
    {
        match self {
            MockFSEntry::File(f) => Err(XfsError::NotADirectory { path: String::new() }),
            MockFSEntry::Directory(d) => {
                match find_child(&d.entries, name) {
                    Option::None => Err(XfsError::NotFound { path: name.clone() }),
                    Option::Some(k) => {
                        proof {
                            lemma_children_model_index(d.entries@, k as int);
                        }
                        Ok(d.entries[k].1.clone())
                    },
                }
            },
        }
    }
}

impl MockFSDirectoryEntry {
    /// How many children this directory holds.
    pub fn num_entries(&self) -> (r: usize)
        ensures
            r == self@.len(),
    {
        proof {
            lemma_children_model_len(self.entries@);
        }
        self.entries.len()
    }

    /// Binds a brand-new file holding the given bytes under a name of this
    /// directory, refusing a name that is already bound.
    pub fn create_file(&mut self, name: &String, contents: Vec<u8>) -> (r: Result<(), XfsError>)
        requires
            sorted_names(old(self)@),
        ensures
            sorted_names(final(self)@),
            match r {
                Ok(()) => child_at(old(self)@, name@) is None && final(self)@ == child_put(
                    old(self)@,
                    name@,
                    (EntryModel::File { data: contents@ }),
                ),
                Err(e) => e is AlreadyExists && child_at(old(self)@, name@) is Some && final(self)@ == old(self)@,
            },
    {
        let ghost csm = self@;
        match find_child(&self.entries, name) {
            Option::Some(k) => Err(XfsError::AlreadyExists { path: name.clone() }),
            Option::None => {
                let slot = find_slot(&self.entries, name);
                let ghost old_entries = self.entries@;
                let node = MockFSEntry::File(MockFSFileEntry { contents });
                proof {
                    lemma_children_model_len(old_entries);
                    lemma_lex_lt_irrefl(name@);
                    lemma_child_at_index(csm, name@);
                    assert(slot < csm.len() ==> csm[slot as int].0 != name@);
                    lemma_child_put_as_insert(csm, name@, node@, slot as int);
                    lemma_child_put_sorted(csm, name@, node@);
                }
                let bound_name = name.clone();
                self.entries.insert(slot, (bound_name, node));
                proof {
                    lemma_children_model_insert(old_entries, slot as int, (bound_name, node));
                }
                Ok(())
            },
        }
    }

    /// Binds a brand-new empty directory under a name of this directory,
    /// refusing a name that is already bound.
    pub fn create_dir(&mut self, name: &String) -> (r: Result<(), XfsError>)
        requires
            sorted_names(old(self)@),
        ensures
            sorted_names(final(self)@),
            match r {
                Ok(()) => child_at(old(self)@, name@) is None && final(self)@ == child_put(
                    old(self)@,
                    name@,
                    crate::model::empty_dir(),
                ),
                Err(e) => e is AlreadyExists && child_at(old(self)@, name@) is Some && final(self)@ == old(self)@,
            },
    {
        let ghost csm = self@;
        match find_child(&self.entries, name) {
            Option::Some(k) => Err(XfsError::AlreadyExists { path: name.clone() }),
            Option::None => {
                let slot = find_slot(&self.entries, name);
                let ghost old_entries = self.entries@;
                let node = MockFSEntry::Directory(MockFSDirectoryEntry { entries: Vec::new() });
                proof {
                    assert(children_model(Seq::<(String, MockFSEntry)>::empty())
                        =~= Seq::<(Seq<char>, EntryModel)>::empty());
                    lemma_children_model_len(old_entries);
                    lemma_lex_lt_irrefl(name@);
                    lemma_child_at_index(csm, name@);
                    assert(slot < csm.len() ==> csm[slot as int].0 != name@);
                    lemma_child_put_as_insert(csm, name@, node@, slot as int);
                    lemma_child_put_sorted(csm, name@, node@);
                }
                let bound_name = name.clone();
                self.entries.insert(slot, (bound_name, node));
                proof {
                    lemma_children_model_insert(old_entries, slot as int, (bound_name, node));
                }
                Ok(())
            },
        }
    }

    /// Finds the directory bound under a name, creating an empty one when
    /// the name is unbound; a name bound to a file is refused. Returns the
    /// index at which the directory sits.
    pub fn get_or_create_dir(&mut self, name: &String) -> (r: Result<usize, XfsError>)
        requires
            sorted_names(old(self)@),
        ensures
            sorted_names(final(self)@),
            match r {
                Ok(k) => {
                    &&& (match child_at(old(self)@, name@) {
                        Option::Some(e) => e matches EntryModel::Dir { .. } && final(self)@ == old(
                            self,
                        )@,
                        Option::None => final(self)@ == child_put(
                            old(self)@,
                            name@,
                            crate::model::empty_dir(),
                        ),
                    })
                    &&& k < final(self)@.len()
                    &&& final(self)@[k as int].0 == name@
                    &&& final(self)@[k as int].1 matches EntryModel::Dir { .. }
                },
                Err(e) => e is NotADirectory && (child_at(old(self)@, name@) matches Option::Some(
                    EntryModel::File { .. },
                )) && final(self)@ == old(self)@,
            },
    {
        let ghost csm = self@;
        match find_child(&self.entries, name) {
            Option::Some(k) => {
                proof {
                    lemma_children_model_index(self.entries@, k as int);
                }
                match &self.entries[k].1 {
                    MockFSEntry::Directory(sub) => Ok(k),
                    MockFSEntry::File(sub) => Err(
                        XfsError::NotADirectory { path: name.clone() },
                    ),
                }
            },
            Option::None => {
                let slot = find_slot(&self.entries, name);
                let ghost old_entries = self.entries@;
                let node = MockFSEntry::Directory(MockFSDirectoryEntry { entries: Vec::new() });
                proof {
                    assert(children_model(Seq::<(String, MockFSEntry)>::empty())
                        =~= Seq::<(Seq<char>, EntryModel)>::empty());
                    lemma_children_model_len(old_entries);
                    lemma_lex_lt_irrefl(name@);
                    lemma_child_at_index(csm, name@);
                    assert(slot < csm.len() ==> csm[slot as int].0 != name@);
                    lemma_child_put_as_insert(csm, name@, node@, slot as int);
                    lemma_child_put_sorted(csm, name@, node@);
                }
                let bound_name = name.clone();
                self.entries.insert(slot, (bound_name, node));
                proof {
                    lemma_children_model_insert(old_entries, slot as int, (bound_name, node));
                    assert(final(self)@[slot as int].0 == name@);
                }
                Ok(slot)
            },
        }
    }
}

// ---------------------------------------------------------------------------
// Recursive walkers over the tree
// ---------------------------------------------------------------------------

/// How a read-only walk failed.
enum WalkErr {
    /// Some component was not bound.
    Missing,
    /// A non-final component resolved to a file.
    FileStep,
}

/// Walks the components `comps[i..upto]` down from `e` and borrows the
/// entry they denote.
fn walk_ref<'a>(e: &'a MockFSEntry, comps: &Vec<String>, i: usize, upto: usize) -> (r: Result<
    &'a MockFSEntry,
    WalkErr,
>)
    requires
        i <= upto <= comps@.len(),
    ensures
        match r {
            Ok(t) => walk_at(e@, comps.deep_view().subrange(i as int, upto as int))
                == WalkOutcome::Found(t@),
            Err(WalkErr::Missing) => walk_at(
                e@,
                comps.deep_view().subrange(i as int, upto as int),
            ) is MissingEntry,
            Err(WalkErr::FileStep) => walk_at(
                e@,
                comps.deep_view().subrange(i as int, upto as int),
            ) is FileInTheWay,
        },
    decreases upto - i,
{
    let ghost c = comps.deep_view().subrange(i as int, upto as int);
    if i == upto {
        assert(c.len() == 0);
        return Ok(e);
    }
    assert(c[0] == comps@[i as int]@);
    match e {
        MockFSEntry::File(f) => Err(WalkErr::FileStep),
        MockFSEntry::Directory(d) => {
            match find_child(&d.entries, &comps[i]) {
                Option::None => Err(WalkErr::Missing),
                Option::Some(k) => {
                    proof {
                        lemma_children_model_index(d.entries@, k as int);
                        assert(c.drop_first() =~= comps.deep_view().subrange(
                            i + 1,
                            upto as int,
                        ));
                    }
                    walk_ref(&d.entries[k].1, comps, i + 1, upto)
                },
            }
        },
    }
}

/// How binding a new entry failed.
enum BindErr {
    /// The parent path has an unbound component.
    MissingPath,
    /// The parent path runs into a file.
    FileInPath,
    /// The final name is already bound to a directory.
    BoundDir,
    /// The final name is already bound to a file.
    BoundFile,
}

/// Binds `node` at the components `comps[i..]`, whose parent must already
/// resolve to a directory. With `overwrite` an existing binding of the final
/// name is replaced; without it, one is reported.
fn bind_at(
    e: &mut MockFSEntry,
    comps: &Vec<String>,
    i: usize,
    node: MockFSEntry,
    overwrite: bool,
) -> (r: Result<(), BindErr>)
    requires
        entry_wf(old(e)@),
        i < comps@.len(),
    ensures
        ({
            let m = old(e)@;
            let c = comps.deep_view().skip(i as int);
            match r {
                Ok(()) => {
                    &&& walk_at(m, c.drop_last()) matches WalkOutcome::Found(
                        EntryModel::Dir { .. },
                    )
                    &&& overwrite || lookup_at(m, c) is None
                    &&& final(e)@ == tree_put(m, c, node@)
                },
                Err(BindErr::MissingPath) => {
                    &&& walk_at(m, c.drop_last()) is MissingEntry
                    &&& final(e)@ == m
                },
                Err(BindErr::FileInPath) => {
                    &&& (walk_at(m, c.drop_last()) is FileInTheWay || (walk_at(
                        m,
                        c.drop_last(),
                    ) matches WalkOutcome::Found(EntryModel::File { .. })))
                    &&& final(e)@ == m
                },
                Err(BindErr::BoundDir) => {
                    &&& !overwrite
                    &&& is_dir_at(m, c)
                    &&& final(e)@ == m
                },
                Err(BindErr::BoundFile) => {
                    &&& !overwrite
                    &&& is_file_at(m, c)
                    &&& final(e)@ == m
                },
            }
        }),
    decreases comps@.len() - i,
{
    let ghost m = old(e)@;
    let ghost c = comps.deep_view().skip(i as int);
    assert(c[0] == comps@[i as int]@);
    let last = i == comps.len() - 1;
    match e {
        MockFSEntry::File(f) => {
            proof {
                if last {
                    assert(c.drop_last() =~= Seq::<Seq<char>>::empty());
                }
            }
            Err(BindErr::FileInPath)
        },
        MockFSEntry::Directory(d) => {
            let ghost csm = children_model(d.entries@);
            proof {
                assert(m == EntryModel::Dir { children: csm });
            }
            if last {
                assert(c.len() == 1);
                assert(c.drop_last() =~= Seq::<Seq<char>>::empty());
                match find_child(&d.entries, &comps[i]) {
                    Option::Some(k) => {
                        if overwrite {
                            let ghost old_entries = d.entries@;
                            let name = comps[i].clone();
                            let mut pair = d.entries.remove(k);
                            pair.0 = name;
                            pair.1 = node;
                            d.entries.insert(k, pair);
                            proof {
                                lemma_children_model_index(old_entries, k as int);
                                assert(d.entries@ =~= old_entries.update(
                                    k as int,
                                    (pair.0, pair.1),
                                ));
                                lemma_children_model_update(old_entries, k as int, pair);
                                assert forall|j: int| 0 <= j < k implies lex_lt(
                                    #[trigger] csm[j].0,
                                    c[0],
                                ) by {}
                                lemma_lex_lt_irrefl(c[0]);
                                lemma_child_put_as_insert(csm, c[0], node@, k as int);
                                assert(children_model(d.entries@) == child_put(csm, c[0], node@));
                                assert(final(e)@ == tree_put(m, c, node@));
                            }
                            Ok(())
                        } else {
                            proof {
                                lemma_children_model_index(d.entries@, k as int);
                                assert(c.drop_first() =~= Seq::<Seq<char>>::empty());
                            }
                            let child = &d.entries[k].1;
                            proof {
                                assert(*child == d.entries@[k as int].1);
                                assert(csm[k as int].1 == entry_model(*child));
                                assert(child_at(csm, c[0]) == Option::Some(csm[k as int].1));
                                assert(walk_at(m, c) == walk_at(
                                    csm[k as int].1,
                                    c.drop_first(),
                                ));
                                assert(walk_at(csm[k as int].1, c.drop_first())
                                    == WalkOutcome::Found(csm[k as int].1));
                            }
                            match child {
                                MockFSEntry::Directory(sub) => {
                                    assert(entry_model(*child) matches EntryModel::Dir { .. });
                                    assert(is_dir_at(m, c));
                                    Err(BindErr::BoundDir)
                                },
                                MockFSEntry::File(sub) => {
                                    assert(entry_model(*child) matches EntryModel::File { .. });
                                    assert(is_file_at(m, c));
                                    Err(BindErr::BoundFile)
                                },
                            }
                        }
                    },
                    Option::None => {
                        let slot = find_slot(&d.entries, &comps[i]);
                        let ghost old_entries = d.entries@;
                        let name = comps[i].clone();
                        d.entries.insert(slot, (name, node));
                        proof {
                            lemma_children_model_len(old_entries);
                            lemma_lex_lt_irrefl(c[0]);
                            lemma_child_at_index(csm, c[0]);
                            assert(slot < csm.len() ==> csm[slot as int].0 != c[0]);
                            lemma_child_put_as_insert(csm, c[0], node@, slot as int);
                            assert(child_put(csm, c[0], node@) == csm.insert(
                                slot as int,
                                (c[0], node@),
                            ));
                            lemma_children_model_insert(old_entries, slot as int, (name, node));
                            assert(name@ == c[0]);
                            assert(children_model(d.entries@) == child_put(csm, c[0], node@));
                            assert(final(e)@ == tree_put(m, c, node@));
                        }
                        Ok(())
                    },
                }
            } else {
                match find_child(&d.entries, &comps[i]) {
                    Option::None => {
                        proof {
                            assert(c.drop_last().len() > 0);
                            assert(c.drop_last()[0] == c[0]);
                            assert(walk_at(m, c.drop_last()) is MissingEntry);
                        }
                        Err(BindErr::MissingPath)
                    },
                    Option::Some(k) => {
                        let ghost old_entries = d.entries@;
                        proof {
                            lemma_children_model_index(old_entries, k as int);
                            lemma_children_wf_index(csm, k as int);
                        }
                        let ghost sub_m = csm[k as int].1;
                        let mut pair = d.entries.remove(k);
                        let rr = bind_at(&mut pair.1, comps, i + 1, node, overwrite);
                        d.entries.insert(k, pair);
                        proof {
                            let c2 = comps.deep_view().skip(i + 1);
                            assert(c.drop_first() =~= c2);
                            assert(d.entries@ =~= old_entries.update(k as int, (pair.0, pair.1)));
                            lemma_children_model_update(old_entries, k as int, (pair.0, pair.1));
                            assert(pair.0@ == c[0]);
                            // The parent path of the whole walk steps through this child.
                            assert(c.drop_last().len() > 0);
                            assert(c.drop_last()[0] == c[0]);
                            assert(c.drop_last().drop_first() =~= c2.drop_last());
                            assert(walk_at(m, c.drop_last()) == walk_at(sub_m, c2.drop_last()));
                            assert(lookup_at(m, c) == lookup_at(sub_m, c2));
                            if rr is Ok {
                                // Rebinding the walked child is exactly the recursive put.
                                assert forall|j: int| 0 <= j < k implies lex_lt(
                                    #[trigger] csm[j].0,
                                    c[0],
                                ) by {}
                                lemma_lex_lt_irrefl(c[0]);
                                lemma_child_put_as_insert(
                                    csm,
                                    c[0],
                                    tree_put(sub_m, c2, node@),
                                    k as int,
                                );
                                assert(children_model(d.entries@) == child_put(
                                    csm,
                                    c[0],
                                    tree_put(sub_m, c2, node@),
                                ));
                                assert(final(e)@ == tree_put(m, c, node@));
                            } else {
                                assert(entry_model(pair.1) == sub_m);
                                assert(children_model(d.entries@) =~= csm);
                                assert(final(e)@ == m);
                            }
                        }
                        rr
                    },
                }
            }
        },
    }
}

/// How unbinding an entry failed.
enum UnbindErr {
    /// The parent path has an unbound component.
    MissingPath,
    /// The parent path runs into a file.
    FileInPath,
    /// The final name is not bound.
    AbsentEntry,
    /// The final name is bound to the other kind of entry.
    WrongKind,
}

/// Unbinds and returns the entry at the components `comps[i..]`. With
/// `want_dir` set, only a directory (`true`) or only a file (`false`) may be
/// removed; the other kind is reported untouched.
fn unbind_at(
    e: &mut MockFSEntry,
    comps: &Vec<String>,
    i: usize,
    want_dir: Option<bool>,
) -> (r: Result<MockFSEntry, UnbindErr>)
    requires
        entry_wf(old(e)@),
        i < comps@.len(),
    ensures
        ({
            let m = old(e)@;
            let c = comps.deep_view().skip(i as int);
            match r {
                Ok(x) => {
                    &&& lookup_at(m, c) == Option::Some(x@)
                    &&& (want_dir == Option::Some(true) ==> x@ matches EntryModel::Dir { .. })
                    &&& (want_dir == Option::Some(false) ==> x@ matches EntryModel::File { .. })
                    &&& final(e)@ == tree_del(m, c)
                },
                Err(UnbindErr::MissingPath) => {
                    &&& walk_at(m, c.drop_last()) is MissingEntry
                    &&& final(e)@ == m
                },
                Err(UnbindErr::FileInPath) => {
                    &&& (walk_at(m, c.drop_last()) is FileInTheWay || (walk_at(
                        m,
                        c.drop_last(),
                    ) matches WalkOutcome::Found(EntryModel::File { .. })))
                    &&& final(e)@ == m
                },
                Err(UnbindErr::AbsentEntry) => {
                    &&& walk_at(m, c.drop_last()) matches WalkOutcome::Found(
                        EntryModel::Dir { .. },
                    )
                    &&& lookup_at(m, c) is None
                    &&& final(e)@ == m
                },
                Err(UnbindErr::WrongKind) => {
                    &&& lookup_at(m, c) is Some
                    &&& (want_dir == Option::Some(true) ==> is_file_at(m, c))
                    &&& (want_dir == Option::Some(false) ==> is_dir_at(m, c))
                    &&& want_dir is Some
                    &&& final(e)@ == m
                },
            }
        }),
    decreases comps@.len() - i,
{
    let ghost m = old(e)@;
    let ghost c = comps.deep_view().skip(i as int);
    assert(c[0] == comps@[i as int]@);
    let last = i == comps.len() - 1;
    match e {
        MockFSEntry::File(f) => {
            proof {
                if last {
                    assert(c.drop_last() =~= Seq::<Seq<char>>::empty());
                }
            }
            Err(UnbindErr::FileInPath)
        },
        MockFSEntry::Directory(d) => {
            let ghost csm = children_model(d.entries@);
            proof {
                assert(m == EntryModel::Dir { children: csm });
            }
            if last {
                assert(c.len() == 1);
                assert(c.drop_last() =~= Seq::<Seq<char>>::empty());
                assert(c.drop_first() =~= Seq::<Seq<char>>::empty());
                match find_child(&d.entries, &comps[i]) {
                    Option::None => Err(UnbindErr::AbsentEntry),
                    Option::Some(k) => {
                        proof {
                            lemma_children_model_index(d.entries@, k as int);
                            assert(walk_at(m, c) == walk_at(csm[k as int].1, c.drop_first()));
                        }
                        let kind_ok = match (&d.entries[k].1, want_dir) {
                            (_, Option::None) => true,
                            (MockFSEntry::Directory(sub), Option::Some(w)) => w,
                            (MockFSEntry::File(sub), Option::Some(w)) => !w,
                        };
                        if kind_ok {
                            let ghost old_entries = d.entries@;
                            let pair = d.entries.remove(k);
                            proof {
                                lemma_child_del_as_remove(csm, c[0], k as int);
                                lemma_children_model_remove(old_entries, k as int);
                                assert(children_model(d.entries@) == child_del(csm, c[0]));
                                assert(final(e)@ == tree_del(m, c));
                                assert(entry_model(pair.1) == csm[k as int].1);
                            }
                            Ok(pair.1)
                        } else {
                            Err(UnbindErr::WrongKind)
                        }
                    },
                }
            } else {
                match find_child(&d.entries, &comps[i]) {
                    Option::None => {
                        proof {
                            assert(c.drop_last().len() > 0);
                            assert(c.drop_last()[0] == c[0]);
                        }
                        Err(UnbindErr::MissingPath)
                    },
                    Option::Some(k) => {
                        let ghost old_entries = d.entries@;
                        proof {
                            lemma_children_model_index(old_entries, k as int);
                            lemma_children_wf_index(csm, k as int);
                        }
                        let ghost sub_m = csm[k as int].1;
                        let mut pair = d.entries.remove(k);
                        let rr = unbind_at(&mut pair.1, comps, i + 1, want_dir);
                        d.entries.insert(k, pair);
                        proof {
                            let c2 = comps.deep_view().skip(i + 1);
                            assert(c.drop_first() =~= c2);
                            assert(d.entries@ =~= old_entries.update(k as int, (pair.0, pair.1)));
                            lemma_children_model_update(old_entries, k as int, (pair.0, pair.1));
                            assert(pair.0@ == c[0]);
                            assert(c.drop_last().len() > 0);
                            assert(c.drop_last()[0] == c[0]);
                            assert(c.drop_last().drop_first() =~= c2.drop_last());
                            assert(walk_at(m, c.drop_last()) == walk_at(sub_m, c2.drop_last()));
                            assert(lookup_at(m, c) == lookup_at(sub_m, c2));
                            if rr is Ok {
                                assert forall|j: int| 0 <= j < k implies lex_lt(
                                    #[trigger] csm[j].0,
                                    c[0],
                                ) by {}
                                lemma_lex_lt_irrefl(c[0]);
                                lemma_child_put_as_insert(csm, c[0], tree_del(sub_m, c2), k as int);
                                assert(children_model(d.entries@) == child_put(
                                    csm,
                                    c[0],
                                    tree_del(sub_m, c2),
                                ));
                                assert(final(e)@ == tree_del(m, c));
                            } else {
                                assert(entry_model(pair.1) == sub_m);
                                assert(children_model(d.entries@) =~= csm);
                                assert(final(e)@ == m);
                            }
                        }
                        rr
                    },
                }
            }
        },
    }
}

/// Creates every missing directory along `comps[i..]`, leaving directories
/// that already exist alone; reports failure (leaving the partial state)
/// where a component is bound to a file.
fn make_dirs(e: &mut MockFSEntry, comps: &Vec<String>, i: usize) -> (r: Result<(), ()>)
    requires
        entry_wf(old(e)@),
        old(e)@ matches EntryModel::Dir { .. },
        i <= comps@.len(),
    ensures
        ({
            let m = old(e)@;
            let c = comps.deep_view().skip(i as int);
            &&& final(e)@ == dirs_make(m, c)
            &&& r is Ok <==> dirs_ok(m, c)
        }),
    decreases comps@.len() - i,
{
    let ghost m = old(e)@;
    let ghost c = comps.deep_view().skip(i as int);
    if i == comps.len() {
        assert(c.len() == 0);
        return Ok(());
    }
    assert(c[0] == comps@[i as int]@);
    match e {
        MockFSEntry::File(f) => {
            proof {
                assert(false);
            }
            Err(())
        },
        MockFSEntry::Directory(d) => {
            let ghost csm = children_model(d.entries@);
            proof {
                assert(m == EntryModel::Dir { children: csm });
                assert(c.drop_first() =~= comps.deep_view().skip(i + 1));
            }
            match find_child(&d.entries, &comps[i]) {
                Option::Some(k) => {
                    let ghost old_entries = d.entries@;
                    proof {
                        lemma_children_model_index(old_entries, k as int);
                        lemma_children_wf_index(csm, k as int);
                    }
                    let ghost sub_m = csm[k as int].1;
                    let is_file = match &d.entries[k].1 {
                        MockFSEntry::File(sub) => true,
                        MockFSEntry::Directory(sub) => false,
                    };
                    if is_file {
                        assert(sub_m matches EntryModel::File { .. });
                        assert(dirs_make(m, c) == m);
                        assert(!dirs_ok(m, c));
                        Err(())
                    } else {
                        let mut pair = d.entries.remove(k);
                        let rr = make_dirs(&mut pair.1, comps, i + 1);
                        d.entries.insert(k, pair);
                        proof {
                            let c2 = comps.deep_view().skip(i + 1);
                            assert(d.entries@ =~= old_entries.update(k as int, (pair.0, pair.1)));
                            lemma_children_model_update(old_entries, k as int, (pair.0, pair.1));
                            assert(pair.0@ == c[0]);
                            assert forall|j: int| 0 <= j < k implies lex_lt(
                                #[trigger] csm[j].0,
                                c[0],
                            ) by {}
                            lemma_lex_lt_irrefl(c[0]);
                            lemma_child_put_as_insert(csm, c[0], dirs_make(sub_m, c2), k as int);
                            assert(children_model(d.entries@) == child_put(
                                csm,
                                c[0],
                                dirs_make(sub_m, c2),
                            ));
                            assert(final(e)@ == dirs_make(m, c));
                            assert(dirs_ok(m, c) == dirs_ok(sub_m, c2));
                        }
                        rr
                    }
                },
                Option::None => {
                    let mut sub = MockFSEntry::Directory(
                        MockFSDirectoryEntry { entries: Vec::new() },
                    );
                    proof {
                        assert(children_model(Seq::<(String, MockFSEntry)>::empty())
                            =~= Seq::<(Seq<char>, EntryModel)>::empty());
                        assert(sub@ == empty_dir());
                        assert(children_wf(Seq::<(Seq<char>, EntryModel)>::empty()));
                        assert(entry_wf(sub@));
                    }
                    let rr = make_dirs(&mut sub, comps, i + 1);
                    proof {
                        lemma_dirs_ok_empty(comps.deep_view().skip(i + 1));
                        assert(rr is Ok);
                    }
                    let slot = find_slot(&d.entries, &comps[i]);
                    let ghost old_entries = d.entries@;
                    let name = comps[i].clone();
                    proof {
                        let c2 = comps.deep_view().skip(i + 1);
                        lemma_children_model_len(old_entries);
                        lemma_lex_lt_irrefl(c[0]);
                        lemma_child_at_index(csm, c[0]);
                        assert(slot < csm.len() ==> csm[slot as int].0 != c[0]);
                        lemma_child_put_as_insert(csm, c[0], dirs_make(empty_dir(), c2), slot as int);
                    }
                    d.entries.insert(slot, (name, sub));
                    proof {
                        let c2 = comps.deep_view().skip(i + 1);
                        lemma_children_model_insert(old_entries, slot as int, (name, sub));
                        assert(name@ == c[0]);
                        assert(children_model(d.entries@) == child_put(
                            csm,
                            c[0],
                            dirs_make(empty_dir(), c2),
                        ));
                        assert(final(e)@ == dirs_make(m, c));
                        assert(dirs_ok(m, c));
                    }
                    Ok(())
                },
            }
        },
    }
}

/// Appends bytes to the file at the components `comps[i..]`.
fn append_at(e: &mut MockFSEntry, comps: &Vec<String>, i: usize, buf: &[u8]) -> (r: Result<
    usize,
    UnbindErr,
>)
    requires
        entry_wf(old(e)@),
        i <= comps@.len(),
    ensures
        ({
            let m = old(e)@;
            let c = comps.deep_view().skip(i as int);
            match r {
                Ok(n) => {
                    &&& n == buf@.len()
                    &&& (walk_at(m, c) matches WalkOutcome::Found(EntryModel::File { data })
                        && final(e)@ == (if c.len() > 0 {
                        tree_put(m, c, EntryModel::File { data: data + buf@ })
                    } else {
                        EntryModel::File { data: data + buf@ }
                    }))
                },
                Err(UnbindErr::MissingPath) => {
                    &&& walk_at(m, c) is MissingEntry
                    &&& final(e)@ == m
                },
                Err(UnbindErr::FileInPath) => {
                    &&& walk_at(m, c) is FileInTheWay
                    &&& final(e)@ == m
                },
                Err(UnbindErr::WrongKind) => {
                    &&& walk_at(m, c) matches WalkOutcome::Found(EntryModel::Dir { .. })
                    &&& final(e)@ == m
                },
                Err(UnbindErr::AbsentEntry) => false,
            }
        }),
    decreases comps@.len() - i,
{
    let ghost m = old(e)@;
    let ghost c = comps.deep_view().skip(i as int);
    if i == comps.len() {
        assert(c.len() == 0);
        match e {
            MockFSEntry::File(f) => {
                let ghost data0 = f.contents@;
                let mut j: usize = 0;
                while j < buf.len()
                    invariant
                        j <= buf@.len(),
                        f.contents@ =~= data0 + buf@.take(j as int),
                    decreases buf@.len() - j,
                {
                    f.contents.push(buf[j]);
                    proof {
                        assert(buf@.take(j + 1) =~= buf@.take(j as int).push(buf@[j as int]));
                    }
                    j = j + 1;
                }
                proof {
                    assert(buf@.take(buf@.len() as int) =~= buf@);
                    assert(walk_at(m, c) == WalkOutcome::Found(EntryModel::File { data: data0 }));
                    assert(final(e)@ == EntryModel::File { data: data0 + buf@ });
                }
                Ok(buf.len())
            },
            MockFSEntry::Directory(d) => Err(UnbindErr::WrongKind),
        }
    } else {
        assert(c[0] == comps@[i as int]@);
        match e {
            MockFSEntry::File(f) => Err(UnbindErr::FileInPath),
            MockFSEntry::Directory(d) => {
                let ghost csm = children_model(d.entries@);
                proof {
                    assert(m == EntryModel::Dir { children: csm });
                }
                match find_child(&d.entries, &comps[i]) {
                    Option::None => Err(UnbindErr::MissingPath),
                    Option::Some(k) => {
                        let ghost old_entries = d.entries@;
                        proof {
                            lemma_children_model_index(old_entries, k as int);
                            lemma_children_wf_index(csm, k as int);
                        }
                        let ghost sub_m = csm[k as int].1;
                        let mut pair = d.entries.remove(k);
                        let rr = append_at(&mut pair.1, comps, i + 1, buf);
                        d.entries.insert(k, pair);
                        proof {
                            let c2 = comps.deep_view().skip(i + 1);
                            assert(c.drop_first() =~= c2);
                            assert(d.entries@ =~= old_entries.update(k as int, (pair.0, pair.1)));
                            lemma_children_model_update(old_entries, k as int, (pair.0, pair.1));
                            assert(pair.0@ == c[0]);
                            assert(walk_at(m, c) == walk_at(sub_m, c2));
                            if rr is Ok {
                                let data = walk_at(sub_m, c2)->Found_0->File_data;
                                let newsub = if c2.len() > 0 {
                                    tree_put(sub_m, c2, EntryModel::File { data: data + buf@ })
                                } else {
                                    EntryModel::File { data: data + buf@ }
                                };
                                assert(entry_model(pair.1) == newsub);
                                assert forall|j: int| 0 <= j < k implies lex_lt(
                                    #[trigger] csm[j].0,
                                    c[0],
                                ) by {}
                                lemma_lex_lt_irrefl(c[0]);
                                lemma_child_put_as_insert(csm, c[0], newsub, k as int);
                                assert(children_model(d.entries@) == child_put(csm, c[0], newsub));
                                if c2.len() == 0 {
                                    assert(c.len() == 1);
                                    assert(tree_put(m, c, newsub) == EntryModel::Dir {
                                        children: child_put(csm, c[0], newsub),
                                    });
                                } else {
                                    assert(tree_put(
                                        m,
                                        c,
                                        EntryModel::File { data: data + buf@ },
                                    ) == EntryModel::Dir {
                                        children: child_put(csm, c[0], newsub),
                                    });
                                }
                            } else {
                                assert(entry_model(pair.1) == sub_m);
                                assert(children_model(d.entries@) =~= csm);
                                assert(final(e)@ == m);
                            }
                        }
                        rr
                    },
                }
            },
        }
    }
}

/// How creating a file beneath freshly made directories failed.
enum AddErr {
    /// Some component on the way is bound to a file.
    FileInPath,
    /// The final name is already bound.
    Bound,
}

/// Binds a new file with the given bytes at `comps[i..]`, first creating
/// every missing ancestor directory; ancestors created before a failure
/// remain, as directory creation does not roll back.
fn bind_file_dirs(e: &mut MockFSEntry, comps: &Vec<String>, i: usize, data: Vec<u8>) -> (r: Result<
    (),
    AddErr,
>)
    requires
        entry_wf(old(e)@),
        old(e)@ matches EntryModel::Dir { .. },
        i < comps@.len(),
    ensures
        ({
            let m = old(e)@;
            let c = comps.deep_view().skip(i as int);
            let made = dirs_make(m, c.drop_last());
            match r {
                Ok(()) => {
                    &&& dirs_ok(m, c.drop_last())
                    &&& lookup_at(made, c) is None
                    &&& final(e)@ == tree_put(made, c, EntryModel::File { data: data@ })
                },
                Err(AddErr::FileInPath) => {
                    &&& !dirs_ok(m, c.drop_last())
                    &&& final(e)@ == made
                },
                Err(AddErr::Bound) => {
                    &&& dirs_ok(m, c.drop_last())
                    &&& lookup_at(made, c) is Some
                    &&& final(e)@ == made
                },
            }
        }),
    decreases comps@.len() - i,
{
    let ghost m = old(e)@;
    let ghost c = comps.deep_view().skip(i as int);
    assert(c[0] == comps@[i as int]@);
    let last = i == comps.len() - 1;
    match e {
        MockFSEntry::File(f) => {
            proof {
                assert(false);
            }
            Err(AddErr::FileInPath)
        },
        MockFSEntry::Directory(d) => {
            let ghost csm = children_model(d.entries@);
            proof {
                assert(m == EntryModel::Dir { children: csm });
            }
            if last {
                assert(c.len() == 1);
                assert(c.drop_last() =~= Seq::<Seq<char>>::empty());
                assert(dirs_make(m, c.drop_last()) == m);
                match find_child(&d.entries, &comps[i]) {
                    Option::Some(k) => {
                        proof {
                            lemma_children_model_index(d.entries@, k as int);
                            assert(c.drop_first() =~= Seq::<Seq<char>>::empty());
                            assert(walk_at(m, c) == walk_at(csm[k as int].1, c.drop_first()));
                        }
                        Err(AddErr::Bound)
                    },
                    Option::None => {
                        let slot = find_slot(&d.entries, &comps[i]);
                        let ghost old_entries = d.entries@;
                        let name = comps[i].clone();
                        let node = MockFSEntry::File(MockFSFileEntry { contents: data });
                        proof {
                            lemma_children_model_len(old_entries);
                            lemma_lex_lt_irrefl(c[0]);
                            lemma_child_at_index(csm, c[0]);
                            assert(slot < csm.len() ==> csm[slot as int].0 != c[0]);
                            lemma_child_put_as_insert(
                                csm,
                                c[0],
                                EntryModel::File { data: data@ },
                                slot as int,
                            );
                        }
                        d.entries.insert(slot, (name, node));
                        proof {
                            lemma_children_model_insert(old_entries, slot as int, (name, node));
                            assert(name@ == c[0]);
                            assert(children_model(d.entries@) == child_put(
                                csm,
                                c[0],
                                EntryModel::File { data: data@ },
                            ));
                            assert(final(e)@ == tree_put(m, c, EntryModel::File { data: data@ }));
                        }
                        Ok(())
                    },
                }
            } else {
                proof {
                    assert(c.drop_last().len() > 0);
                    assert(c.drop_last()[0] == c[0]);
                    assert(c.drop_last().drop_first() =~= comps.deep_view().skip(i + 1).drop_last());
                    assert(c.drop_first() =~= comps.deep_view().skip(i + 1));
                }
                let ghost c2 = comps.deep_view().skip(i + 1);
                match find_child(&d.entries, &comps[i]) {
                    Option::Some(k) => {
                        let ghost old_entries = d.entries@;
                        proof {
                            lemma_children_model_index(old_entries, k as int);
                            lemma_children_wf_index(csm, k as int);
                        }
                        let ghost sub_m = csm[k as int].1;
                        let is_file = match &d.entries[k].1 {
                            MockFSEntry::File(sub) => true,
                            MockFSEntry::Directory(sub) => false,
                        };
                        if is_file {
                            proof {
                                assert(sub_m matches EntryModel::File { .. });
                                assert(!dirs_ok(m, c.drop_last()));
                                assert(dirs_make(m, c.drop_last()) == m);
                            }
                            Err(AddErr::FileInPath)
                        } else {
                            let mut pair = d.entries.remove(k);
                            let rr = bind_file_dirs(&mut pair.1, comps, i + 1, data);
                            d.entries.insert(k, pair);
                            proof {
                                let made_sub = dirs_make(sub_m, c2.drop_last());
                                assert(d.entries@ =~= old_entries.update(
                                    k as int,
                                    (pair.0, pair.1),
                                ));
                                lemma_children_model_update(old_entries, k as int, (pair.0, pair.1));
                                assert(pair.0@ == c[0]);
                                assert forall|j: int| 0 <= j < k implies lex_lt(
                                    #[trigger] csm[j].0,
                                    c[0],
                                ) by {}
                                lemma_lex_lt_irrefl(c[0]);
                                // The made tree binds this child to the recursive result.
                                assert(dirs_make(m, c.drop_last()) == EntryModel::Dir {
                                    children: child_put(csm, c[0], made_sub),
                                });
                                assert(dirs_ok(m, c.drop_last()) == dirs_ok(sub_m, c2.drop_last()));
                                lemma_child_put_at(csm, c[0], made_sub, c[0]);
                                assert(lookup_at(dirs_make(m, c.drop_last()), c) == lookup_at(
                                    made_sub,
                                    c2,
                                ));
                                if rr is Ok {
                                    let newsub = tree_put(
                                        made_sub,
                                        c2,
                                        EntryModel::File { data: data@ },
                                    );
                                    assert(entry_model(pair.1) == newsub);
                                    lemma_child_put_as_insert(csm, c[0], newsub, k as int);
                                    assert(children_model(d.entries@) == child_put(
                                        csm,
                                        c[0],
                                        newsub,
                                    ));
                                    // Putting through the made tree rebinds the same child.
                                    lemma_child_put_absorb(csm, c[0], made_sub, newsub);
                                    assert(tree_put(
                                        dirs_make(m, c.drop_last()),
                                        c,
                                        EntryModel::File { data: data@ },
                                    ) == EntryModel::Dir {
                                        children: child_put(
                                            child_put(csm, c[0], made_sub),
                                            c[0],
                                            newsub,
                                        ),
                                    });
                                    assert(final(e)@ == tree_put(
                                        dirs_make(m, c.drop_last()),
                                        c,
                                        EntryModel::File { data: data@ },
                                    ));
                                } else {
                                    assert(entry_model(pair.1) == made_sub);
                                    lemma_child_put_as_insert(csm, c[0], made_sub, k as int);
                                    assert(children_model(d.entries@) == child_put(
                                        csm,
                                        c[0],
                                        made_sub,
                                    ));
                                    assert(final(e)@ == dirs_make(m, c.drop_last()));
                                }
                            }
                            match rr {
                                Ok(()) => Ok(()),
                                Err(AddErr::FileInPath) => Err(AddErr::FileInPath),
                                Err(AddErr::Bound) => Err(AddErr::Bound),
                            }
                        }
                    },
                    Option::None => {
                        let mut sub = MockFSEntry::Directory(
                            MockFSDirectoryEntry { entries: Vec::new() },
                        );
                        proof {
                            assert(children_model(Seq::<(String, MockFSEntry)>::empty())
                                =~= Seq::<(Seq<char>, EntryModel)>::empty());
                            assert(sub@ == empty_dir());
                            assert(children_wf(Seq::<(Seq<char>, EntryModel)>::empty()));
                            assert(entry_wf(sub@));
                        }
                        let rr = bind_file_dirs(&mut sub, comps, i + 1, data);
                        proof {
                            lemma_dirs_ok_empty(c2.drop_last());
                            lemma_dirs_make_fresh_unbound(c2);
                            assert(rr is Ok);
                        }
                        let slot = find_slot(&d.entries, &comps[i]);
                        let ghost old_entries = d.entries@;
                        let name = comps[i].clone();
                        proof {
                            lemma_children_model_len(old_entries);
                            lemma_lex_lt_irrefl(c[0]);
                            lemma_child_at_index(csm, c[0]);
                            assert(slot < csm.len() ==> csm[slot as int].0 != c[0]);
                        }
                        d.entries.insert(slot, (name, sub));
                        proof {
                            let made_sub = dirs_make(empty_dir(), c2.drop_last());
                            let newsub = tree_put(made_sub, c2, EntryModel::File { data: data@ });
                            assert(entry_model(sub) == newsub);
                            lemma_child_put_as_insert(csm, c[0], newsub, slot as int);
                            lemma_children_model_insert(old_entries, slot as int, (name, sub));
                            assert(name@ == c[0]);
                            assert(children_model(d.entries@) == child_put(csm, c[0], newsub));
                            // The made tree binds a fresh empty directory here.
                            assert(dirs_make(m, c.drop_last()) == EntryModel::Dir {
                                children: child_put(csm, c[0], made_sub),
                            });
                            assert(dirs_ok(m, c.drop_last()));
                            lemma_child_put_at(csm, c[0], made_sub, c[0]);
                            assert(lookup_at(dirs_make(m, c.drop_last()), c) == lookup_at(
                                made_sub,
                                c2,
                            ));
                            lemma_child_put_absorb(csm, c[0], made_sub, newsub);
                            assert(tree_put(
                                dirs_make(m, c.drop_last()),
                                c,
                                EntryModel::File { data: data@ },
                            ) == EntryModel::Dir {
                                children: child_put(child_put(csm, c[0], made_sub), c[0], newsub),
                            });
                            assert(final(e)@ == tree_put(
                                dirs_make(m, c.drop_last()),
                                c,
                                EntryModel::File { data: data@ },
                            ));
                        }
                        Ok(())
                    },
                }
            }
        },
    }
}

// ---------------------------------------------------------------------------
// Cloning
// ---------------------------------------------------------------------------

/// Copies a byte buffer.
fn clone_bytes(v: &Vec<u8>) -> (r: Vec<u8>)
    ensures
        r@ == v@,
{
    let mut r: Vec<u8> = Vec::new();
    let n = v.len();
    let mut i: usize = 0;
    while i < n
        invariant
            i <= n,
            n == v@.len(),
            r@ =~= v@.take(i as int),
        decreases n - i,
    {
        r.push(v[i]);
        proof {
            assert(v@.take(i + 1) =~= v@.take(i as int).push(v@[i as int]));
        }
        i = i + 1;
    }
    proof {
        assert(v@.take(n as int) =~= v@);
    }
    r
}

/// Copies a subtree. The copy has the same model; it shares no storage with
/// the original.
fn clone_entry(e: &MockFSEntry) -> (r: MockFSEntry)
    ensures
        r@ == e@,
    decreases eheight(e@),
{
    match e {
        MockFSEntry::File(f) => MockFSEntry::File(
            MockFSFileEntry { contents: clone_bytes(&f.contents) },
        ),
        MockFSEntry::Directory(d) => {
            let ghost csm = children_model(d.entries@);
            let mut v: Vec<(String, MockFSEntry)> = Vec::new();
            let n = d.entries.len();
            let mut i: usize = 0;
            proof {
                lemma_children_model_len(d.entries@);
                assert(children_model(v@) =~= csm.take(0));
            }
            while i < n
                invariant
                    i <= n,
                    n == d.entries@.len(),
                    csm == children_model(d.entries@),
                    csm.len() == n,
                    e@ == (EntryModel::Dir { children: csm }),
                    children_model(v@) =~= csm.take(i as int),
                    v@.len() == i,
                decreases n - i,
            {
                proof {
                    lemma_children_model_index(d.entries@, i as int);
                    lemma_child_height(csm, i as int);
                }
                let name = d.entries[i].0.clone();
                let child = clone_entry(&d.entries[i].1);
                let ghost v0 = v@;
                v.push((name, child));
                proof {
                    assert(v@.drop_last() =~= v0);
                    assert(children_model(v@) == children_model(v0).push(
                        (name@, entry_model(child)),
                    ));
                    assert(csm.take(i + 1) =~= csm.take(i as int).push(csm[i as int]));
                    assert((name@, entry_model(child)) == csm[i as int]) by {
                        assert(name@ == csm[i as int].0);
                        assert(entry_model(child) == csm[i as int].1);
                    }
                }
                i = i + 1;
            }
            proof {
                assert(csm.take(n as int) =~= csm);
            }
            MockFSEntry::Directory(MockFSDirectoryEntry { entries: v })
        },
    }
}

impl Clone for MockFSEntry {
    /// The copy has the same model; it shares no storage with the original.
    fn clone(&self) -> (r: Self)
        ensures
            r@ == self@,
    {
        clone_entry(self)
    }
}

// ---------------------------------------------------------------------------
// Directory listings and metadata
// ---------------------------------------------------------------------------

/// What kind of entry a path denotes.
#[derive(Clone, Copy, Debug)]
pub struct MockMetadata {
    pub is_file: bool,
    pub is_dir: bool,
}

/// One row of a directory listing: the entry's path (the listed path joined
/// with the name), its bare name, and its kind.
#[derive(Debug)]
pub struct MockDirEntry {
    pub path: String,
    pub name: String,
    pub metadata: MockMetadata,
}

/// The path obtained by appending one name beneath a directory path.
pub open spec fn spec_join(p: Seq<char>, n: Seq<char>) -> Seq<char> {
    if p.len() == 0 {
        n
    } else if p.last() == '/' {
        p + n
    } else {
        p + seq!['/'] + n
    }
}

/// Joins a name beneath a directory path.
pub fn join_path(p: &str, name: &str) -> (r: String)
    ensures
        r@ == spec_join(p@, name@),
{
    let n = p.unicode_len();
    if n == 0 {
        return name.to_owned();
    }
    let mut s = p.to_owned();
    if p.get_char(n - 1) != '/' {
        let sep = "/";
        proof {
            reveal_strlit("/");
        }
        assert(sep@ =~= seq!['/']);
        s.append(sep);
    }
    s.append(name);
    s
}

// ---------------------------------------------------------------------------
// Reading text
// ---------------------------------------------------------------------------

/// Relies on `std::str::from_utf8`: it returns `Ok` exactly when the bytes
/// are valid UTF-8, and then decodes them.
#[verifier::external_body]
pub(crate) fn utf8_to_str<'a>(v: &'a Vec<u8>) -> (r: Option<&'a str>)
    ensures
        r is Some <==> vstd::utf8::valid_utf8(v@),
        r matches Some(s) ==> s@ == vstd::utf8::decode_utf8(v@),
{
    std::str::from_utf8(v.as_slice()).ok()
}

// ---------------------------------------------------------------------------
// The engine
// ---------------------------------------------------------------------------

/// The in-memory filesystem: a tree rooted at a directory. All operations
/// resolve paths beneath this root; no path can reach outside it.
pub struct MockFS {
    pub root: MockFSEntry,
}

impl View for MockFS {
    type V = EntryModel;

    open spec fn view(&self) -> EntryModel {
        self.root@
    }
}

/// A snapshot stream over a file's bytes, advanced by an index cursor.
pub struct MockReader {
    pub data: Vec<u8>,
    pub index: usize,
}

impl MockFS {
    /// The tree is well-formed: rooted at a directory, child names sorted,
    /// unique and valid throughout.
    pub open spec fn wf(&self) -> bool {
        &&& entry_wf(self@)
        &&& self@ matches EntryModel::Dir { .. }
    }

    /// Creates an empty filesystem.
    pub fn new() -> (r: MockFS)
        ensures
            r@ == empty_dir(),
            r.wf(),
    {
        let fs = MockFS {
            root: MockFSEntry::Directory(MockFSDirectoryEntry { entries: Vec::new() }),
        };
        proof {
            assert(children_model(Seq::<(String, MockFSEntry)>::empty())
                =~= Seq::<(Seq<char>, EntryModel)>::empty());
            assert(children_wf(Seq::<(Seq<char>, EntryModel)>::empty()));
        }
        fs
    }

    /// Resolves a path to a copy of the entry it denotes.
    pub fn resolve_path(&self, p: &str) -> (r: Result<MockFSEntry, XfsError>)
        requires
            self.wf(),
        ensures
            match r {
                Ok(t) => spec_normalize(p@) matches Some(c) && lookup_at(self@, c)
                    == Option::Some(t@),
                Err(XfsError::PathOutsideSandbox { path }) => spec_normalize(p@) is None && path@
                    == p@,
                Err(XfsError::NotFound { path }) => spec_normalize(p@) matches Some(c) && walk_at(
                    self@,
                    c,
                ) is MissingEntry && path@ == p@,
                Err(XfsError::NotADirectory { path }) => spec_normalize(p@) matches Some(c)
                    && walk_at(self@, c) is FileInTheWay && path@ == p@,
                _ => false,
            },
    {
        let comps = match normalize_path(p) {
            Ok(c) => c,
            Err(err) => {
                return Err(err);
            },
        };
        proof {
            assert(comps.deep_view().subrange(0, comps.deep_view().len() as int)
                =~= comps.deep_view());
        }
        match walk_ref(&self.root, &comps, 0, comps.len()) {
            Ok(t) => Ok(t.clone()),
            Err(WalkErr::Missing) => Err(XfsError::NotFound { path: p.to_owned() }),
            Err(WalkErr::FileStep) => Err(XfsError::NotADirectory { path: p.to_owned() }),
        }
    }

    /// Reads the whole contents of the file a path denotes.
    pub fn get(&self, p: &str) -> (r: Result<Vec<u8>, XfsError>)
        requires
            self.wf(),
        ensures
            match r {
                Ok(v) => spec_normalize(p@) matches Some(c) && lookup_at(self@, c)
                    == Option::Some((EntryModel::File { data: v@ })),
                Err(XfsError::PathOutsideSandbox { path }) => spec_normalize(p@) is None && path@
                    == p@,
                Err(XfsError::NotFound { path }) => spec_normalize(p@) matches Some(c) && walk_at(
                    self@,
                    c,
                ) is MissingEntry && path@ == p@,
                Err(XfsError::NotADirectory { path }) => spec_normalize(p@) matches Some(c)
                    && walk_at(self@, c) is FileInTheWay && path@ == p@,
                Err(XfsError::NotAFile { path }) => spec_normalize(p@) matches Some(c) && (walk_at(
                    self@,
                    c,
                ) matches WalkOutcome::Found(EntryModel::Dir { .. })) && path@ == p@,
                _ => false,
            },
    {
        let comps = match normalize_path(p) {
            Ok(c) => c,
            Err(err) => {
                return Err(err);
            },
        };
        proof {
            assert(comps.deep_view().subrange(0, comps.deep_view().len() as int)
                =~= comps.deep_view());
        }
        match walk_ref(&self.root, &comps, 0, comps.len()) {
            Ok(t) => match t {
                MockFSEntry::File(f) => Ok(clone_bytes(&f.contents)),
                MockFSEntry::Directory(d) => Err(XfsError::NotAFile { path: p.to_owned() }),
            },
            Err(WalkErr::Missing) => Err(XfsError::NotFound { path: p.to_owned() }),
            Err(WalkErr::FileStep) => Err(XfsError::NotADirectory { path: p.to_owned() }),
        }
    }

    /// Reads the whole contents of the file a path denotes, as text.
    pub fn get_str(&self, p: &str) -> (r: Result<String, XfsError>)
        requires
            self.wf(),
        ensures
            match r {
                Ok(s) => spec_normalize(p@) matches Some(c) && (lookup_at(self@, c) matches Option::Some(
                    EntryModel::File { data },
                ) && vstd::utf8::valid_utf8(data) && s@ == vstd::utf8::decode_utf8(data)),
                Err(XfsError::InvalidUtf8 { path }) => spec_normalize(p@) matches Some(c) && (lookup_at(
                    self@,
                    c,
                ) matches Option::Some(EntryModel::File { data }) && !vstd::utf8::valid_utf8(data))
                    && path@ == p@,
                Err(XfsError::PathOutsideSandbox { path }) => spec_normalize(p@) is None && path@
                    == p@,
                Err(XfsError::NotFound { path }) => spec_normalize(p@) matches Some(c) && walk_at(
                    self@,
                    c,
                ) is MissingEntry && path@ == p@,
                Err(XfsError::NotADirectory { path }) => spec_normalize(p@) matches Some(c)
                    && walk_at(self@, c) is FileInTheWay && path@ == p@,
                Err(XfsError::NotAFile { path }) => spec_normalize(p@) matches Some(c) && (walk_at(
                    self@,
                    c,
                ) matches WalkOutcome::Found(EntryModel::Dir { .. })) && path@ == p@,
                _ => false,
            },
    {
        let data = match self.get(p) {
            Ok(v) => v,
            Err(err) => {
                return Err(err);
            },
        };
        match utf8_to_str(&data) {
            Some(s) => Ok(s.to_owned()),
            None => Err(XfsError::InvalidUtf8 { path: p.to_owned() }),
        }
    }

    /// Reports whether a path denotes a file or a directory.
    pub fn metadata(&self, p: &str) -> (r: Result<MockMetadata, XfsError>)
        requires
            self.wf(),
        ensures
            match r {
                Ok(md) => spec_normalize(p@) matches Some(c) && exists_at(self@, c) && md.is_dir
                    == is_dir_at(self@, c) && md.is_file == is_file_at(self@, c),
                Err(XfsError::PathOutsideSandbox { path }) => spec_normalize(p@) is None && path@
                    == p@,
                Err(XfsError::NotFound { path }) => spec_normalize(p@) matches Some(c) && walk_at(
                    self@,
                    c,
                ) is MissingEntry && path@ == p@,
                Err(XfsError::NotADirectory { path }) => spec_normalize(p@) matches Some(c)
                    && walk_at(self@, c) is FileInTheWay && path@ == p@,
                _ => false,
            },
    {
        let comps = match normalize_path(p) {
            Ok(c) => c,
            Err(err) => {
                return Err(err);
            },
        };
        proof {
            assert(comps.deep_view().subrange(0, comps.deep_view().len() as int)
                =~= comps.deep_view());
        }
        match walk_ref(&self.root, &comps, 0, comps.len()) {
            Ok(t) => match t {
                MockFSEntry::File(f) => Ok(MockMetadata { is_file: true, is_dir: false }),
                MockFSEntry::Directory(d) => Ok(MockMetadata { is_file: false, is_dir: true }),
            },
            Err(WalkErr::Missing) => Err(XfsError::NotFound { path: p.to_owned() }),
            Err(WalkErr::FileStep) => Err(XfsError::NotADirectory { path: p.to_owned() }),
        }
    }

    /// True when the path denotes an entry; every failure counts as absence.
    pub fn path_exists(&self, p: &str) -> (r: bool)
        requires
            self.wf(),
        ensures
            r <==> (spec_normalize(p@) matches Some(c) && exists_at(self@, c)),
    {
        self.metadata(p).is_ok()
    }

    /// True when the path denotes a directory; every failure counts as no.
    pub fn is_dir(&self, p: &str) -> (r: bool)
        requires
            self.wf(),
        ensures
            r <==> (spec_normalize(p@) matches Some(c) && is_dir_at(self@, c)),
    {
        match self.metadata(p) {
            Ok(md) => md.is_dir,
            Err(err) => false,
        }
    }

    /// True when the path denotes a file; every failure counts as no.
    pub fn is_file(&self, p: &str) -> (r: bool)
        requires
            self.wf(),
        ensures
            r <==> (spec_normalize(p@) matches Some(c) && is_file_at(self@, c)),
    {
        match self.metadata(p) {
            Ok(md) => md.is_file,
            Err(err) => false,
        }
    }

    /// Lists a directory: an eager snapshot of its current children, in
    /// ascending name order. The returned listing is independent of the
    /// tree, so the filesystem may be freely mutated while iterating it.
    #[verifier::rlimit(60)]
    pub fn read_dir(&self, p: &str) -> (r: Result<Vec<MockDirEntry>, XfsError>)
        requires
            self.wf(),
        ensures
            match r {
                Ok(v) => ({
                    let c = spec_normalize(p@)->Some_0;
                    let children = lookup_at(self@, c)->Some_0->Dir_children;
                    &&& spec_normalize(p@) is Some
                    &&& lookup_at(self@, c) matches Option::Some(EntryModel::Dir { .. })
                    &&& v@.len() == children.len()
                    &&& forall|i: int|
                        0 <= i < children.len() ==> (#[trigger] v@[i].name)@ == children[i].0
                    &&& forall|i: int|
                        0 <= i < children.len() ==> (#[trigger] v@[i].path)@ == spec_join(
                            p@,
                            children[i].0,
                        )
                    &&& forall|i: int|
                        0 <= i < children.len() ==> (#[trigger] v@[i].metadata).is_dir == (
                        children[i].1 matches EntryModel::Dir { .. })
                    &&& forall|i: int|
                        0 <= i < children.len() ==> (#[trigger] v@[i].metadata).is_file == (
                        children[i].1 matches EntryModel::File { .. })
                }),
                Err(XfsError::PathOutsideSandbox { path }) => spec_normalize(p@) is None && path@
                    == p@,
                Err(XfsError::NotFound { path }) => spec_normalize(p@) matches Some(c) && walk_at(
                    self@,
                    c,
                ) is MissingEntry && path@ == p@,
                Err(XfsError::NotADirectory { path }) => spec_normalize(p@) matches Some(c) && (
                walk_at(self@, c) is FileInTheWay || (walk_at(self@, c) matches WalkOutcome::Found(
                    EntryModel::File { .. },
                ))) && path@ == p@,
                _ => false,
            },
    {
        let comps = match normalize_path(p) {
            Ok(c) => c,
            Err(err) => {
                return Err(err);
            },
        };
        proof {
            assert(comps.deep_view().subrange(0, comps.deep_view().len() as int)
                =~= comps.deep_view());
        }
        match walk_ref(&self.root, &comps, 0, comps.len()) {
            Ok(t) => match t {
                MockFSEntry::File(f) => Err(XfsError::NotADirectory { path: p.to_owned() }),
                MockFSEntry::Directory(d) => {
                    let ghost csm = children_model(d.entries@);
                    proof {
                        lemma_children_model_len(d.entries@);
                    }
                    let n = d.entries.len();
                    let mut out: Vec<MockDirEntry> = Vec::new();
                    let mut i: usize = 0;
                    while i < n
                        invariant
                            i <= n,
                            n == d.entries@.len(),
                            csm == children_model(d.entries@),
                            csm.len() == n,
                            out@.len() == i,
                            forall|j: int| 0 <= j < i ==> (#[trigger] out@[j].name)@ == csm[j].0,
                            forall|j: int|
                                0 <= j < i ==> (#[trigger] out@[j].path)@ == spec_join(
                                    p@,
                                    csm[j].0,
                                ),
                            forall|j: int|
                                0 <= j < i ==> (#[trigger] out@[j].metadata).is_dir == (csm[j].1
                                    matches EntryModel::Dir { .. }),
                            forall|j: int|
                                0 <= j < i ==> (#[trigger] out@[j].metadata).is_file == (csm[j].1
                                    matches EntryModel::File { .. }),
                        decreases n - i,
                    {
                        proof {
                            lemma_children_model_index(d.entries@, i as int);
                        }
                        let name = d.entries[i].0.clone();
                        let full = join_path(p, d.entries[i].0.as_str());
                        let md = match &d.entries[i].1 {
                            MockFSEntry::Directory(sub) => MockMetadata {
                                is_file: false,
                                is_dir: true,
                            },
                            MockFSEntry::File(sub) => MockMetadata { is_file: true, is_dir: false },
                        };
                        out.push(MockDirEntry { path: full, name, metadata: md });
                        i = i + 1;
                    }
                    proof {
                        assert(t@ == (EntryModel::Dir { children: csm }));
                        assert(lookup_at(self@, comps.deep_view()) == Option::Some(t@));
                        let c = spec_normalize(p@)->Some_0;
                        assert(c == comps.deep_view());
                        let children = lookup_at(self@, c)->Some_0->Dir_children;
                        assert(children == csm);
                        assert(out@.len() == children.len());
                    }
                    Ok(out)
                },
            },
            Err(WalkErr::Missing) => Err(XfsError::NotFound { path: p.to_owned() }),
            Err(WalkErr::FileStep) => Err(XfsError::NotADirectory { path: p.to_owned() }),
        }
    }

    /// Opens a reader over the file a path denotes. The reader holds a
    /// snapshot of the contents at the time of opening.
    pub fn reader(&self, p: &str) -> (r: Result<MockReader, XfsError>)
        requires
            self.wf(),
        ensures
            match r {
                Ok(rd) => spec_normalize(p@) matches Some(c) && lookup_at(self@, c)
                    == Option::Some((EntryModel::File { data: rd.data@ })) && rd.index == 0,
                Err(XfsError::PathOutsideSandbox { path }) => spec_normalize(p@) is None && path@
                    == p@,
                Err(XfsError::NotFound { path }) => spec_normalize(p@) matches Some(c) && walk_at(
                    self@,
                    c,
                ) is MissingEntry && path@ == p@,
                Err(XfsError::NotADirectory { path }) => spec_normalize(p@) matches Some(c)
                    && walk_at(self@, c) is FileInTheWay && path@ == p@,
                Err(XfsError::NotAFile { path }) => spec_normalize(p@) matches Some(c) && (walk_at(
                    self@,
                    c,
                ) matches WalkOutcome::Found(EntryModel::Dir { .. })) && path@ == p@,
                _ => false,
            },
    {
        match self.get(p) {
            Ok(v) => Ok(MockReader { data: v, index: 0 }),
            Err(err) => Err(err),
        }
    }
}

impl MockReader {
    /// Reads up to `n` bytes from the cursor, advancing it.
    pub fn read(&mut self, n: usize) -> (r: Vec<u8>)
        requires
            old(self).index <= old(self).data@.len(),
        ensures
            final(self).data == old(self).data,
            r@ == old(self).data@.subrange(
                old(self).index as int,
                if old(self).index + n <= old(self).data@.len() {
                    old(self).index + n
                } else {
                    old(self).data@.len() as int
                },
            ),
            final(self).index == old(self).index + r@.len(),
    {
        let avail = self.data.len() - self.index;
        let take = if n < avail {
            n
        } else {
            avail
        };
        let n0 = self.data.len();
        let mut r: Vec<u8> = Vec::new();
        let mut j: usize = 0;
        while j < take
            invariant
                j <= take,
                self.data@.len() == n0,
                self.index + take <= n0,
                r@ =~= self.data@.subrange(self.index as int, self.index + j),
            decreases take - j,
        {
            r.push(self.data[self.index + j]);
            proof {
                assert(self.data@.subrange(self.index as int, self.index + j + 1)
                    =~= self.data@.subrange(self.index as int, self.index + j).push(
                    self.data@[self.index + j],
                ));
            }
            j = j + 1;
        }
        self.index = self.index + take;
        r
    }

    /// Reads everything from the cursor to the end.
    pub fn read_to_end(&mut self) -> (r: Vec<u8>)
        requires
            old(self).index <= old(self).data@.len(),
        ensures
            final(self).data == old(self).data,
            r@ == old(self).data@.skip(old(self).index as int),
            final(self).index == old(self).data@.len(),
    {
        let n = self.data.len() - self.index;
        let r = self.read(n);
        proof {
            assert(old(self).data@.subrange(old(self).index as int, old(self).data@.len() as int)
                =~= old(self).data@.skip(old(self).index as int));
        }
        r
    }

    /// Reads everything from the cursor to the end and decodes it as UTF-8.
    pub fn read_to_string(&mut self) -> (r: Result<String, XfsError>)
        requires
            old(self).index <= old(self).data@.len(),
        ensures
            final(self).data == old(self).data,
            match r {
                Ok(s) => {
                    &&& vstd::utf8::valid_utf8(old(self).data@.skip(old(self).index as int))
                    &&& s@ == vstd::utf8::decode_utf8(
                        old(self).data@.skip(old(self).index as int),
                    )
                    &&& final(self).index == old(self).data@.len()
                },
                Err(e) => {
                    &&& e is InvalidUtf8
                    &&& !vstd::utf8::valid_utf8(old(self).data@.skip(old(self).index as int))
                },
            },
    {
        let v = self.read_to_end();
        match utf8_to_str(&v) {
            Some(s) => Ok(s.to_owned()),
            None => Err(XfsError::InvalidUtf8 { path: String::new() }),
        }
    }
}

/// The index of the first line feed in a character sequence, or its length
/// when there is none.
pub open spec fn first_nl(s: Seq<char>) -> nat
    decreases s.len(),
{
    if s.len() == 0 {
        0nat
    } else if s[0] == '\n' {
        0nat
    } else {
        1nat + first_nl(s.drop_first())
    }
}

/// Drops one carriage return from the end of a line, if present.
pub open spec fn strip_cr(l: Seq<char>) -> Seq<char> {
    if l.len() > 0 && l.last() == '\r' {
        l.drop_last()
    } else {
        l
    }
}

/// The lines of a text: split at each line feed, with a carriage return
/// directly before a line feed dropped, and no empty line after a final
/// line feed.
pub open spec fn spec_lines(s: Seq<char>) -> Seq<Seq<char>>
    decreases s.len(),
{
    if s.len() == 0 {
        Seq::empty()
    } else {
        let i = first_nl(s);
        if i >= s.len() {
            seq![s]
        } else {
            seq![strip_cr(s.take(i as int))] + spec_lines(s.skip(i + 1 as int))
        }
    }
}

/// The first line feed is where the first line feed is found.
pub proof fn lemma_first_nl(t: Seq<char>, k: int)
    requires
        0 <= k <= t.len(),
        forall|j: int| 0 <= j < k ==> t[j] != '\n',
        k < t.len() ==> t[k] == '\n',
    ensures
        first_nl(t) == k,
    decreases k,
{
    if k == 0 {
    } else {
        assert(t[0] != '\n');
        lemma_first_nl(t.drop_first(), k - 1);
    }
}

/// A sink bound by path to a file created by [`MockFS::writer`]: each write
/// appends to the file at that path, and what was written is visible to
/// readers at once; the sink needs no separate close. The binding is by
/// path, not by buffer: once the path stops denoting that file — it was
/// removed, renamed, or replaced — a write reports the failure instead of
/// reviving it.
pub struct MockWriter {
    pub path: String,
    pub comps: Vec<String>,
}

impl MockWriter {
    /// The components the sink writes to are valid names.
    pub open spec fn wf(&self) -> bool {
        valid_comps(self.comps.deep_view())
    }

    /// Appends the bytes to the bound file.
    pub fn write(&self, fs: &mut MockFS, buf: &[u8]) -> (r: Result<usize, XfsError>)
        requires
            old(fs).wf(),
            self.wf(),
        ensures
            final(fs).wf(),
            ({
                let c = self.comps.deep_view();
                match r {
                    Ok(n) => {
                        &&& n == buf@.len()
                        &&& c.len() > 0
                        &&& (walk_at(old(fs)@, c) matches WalkOutcome::Found(EntryModel::File { data })
                            && final(fs)@ == tree_put(
                            old(fs)@,
                            c,
                            (EntryModel::File { data: data + buf@ }),
                        ))
                    },
                    Err(XfsError::NotFound { path }) => walk_at(old(fs)@, c) is MissingEntry
                        && final(fs)@ == old(fs)@ && path@ == self.path@,
                    Err(XfsError::NotADirectory { path }) => walk_at(old(fs)@, c) is FileInTheWay
                        && final(fs)@ == old(fs)@ && path@ == self.path@,
                    Err(XfsError::NotAFile { path }) => (walk_at(old(fs)@, c)
                        matches WalkOutcome::Found(EntryModel::Dir { .. })) && final(fs)@ == old(
                        fs,
                    )@ && path@ == self.path@,
                    _ => false,
                }
            }),
    {
        let ghost c = self.comps.deep_view();
        proof {
            assert(c.skip(0) =~= c);
        }
        let rr = append_at(&mut fs.root, &self.comps, 0, buf);
        match rr {
            Ok(n) => {
                proof {
                    let data = walk_at(old(fs)@, c)->Found_0->File_data;
                    if c.len() > 0 {
                        lemma_tree_put_wf(
                            old(fs)@,
                            c,
                            EntryModel::File { data: data + buf@ },
                        );
                    } else {
                        assert(walk_at(old(fs)@, c) == WalkOutcome::Found(old(fs)@));
                        assert(false);
                    }
                }
                Ok(n)
            },
            Err(UnbindErr::MissingPath) => Err(
                XfsError::NotFound { path: self.path.clone() },
            ),
            Err(UnbindErr::FileInPath) => Err(
                XfsError::NotADirectory { path: self.path.clone() },
            ),
            Err(UnbindErr::WrongKind) => Err(XfsError::NotAFile { path: self.path.clone() }),
            Err(UnbindErr::AbsentEntry) => {
                proof {
                    assert(false);
                }
                Err(XfsError::NotFound { path: self.path.clone() })
            },
        }
    }

    /// Writing is unbuffered, so flushing has nothing to do.
    pub fn flush(&self) {
    }
}

impl MockFS {
    /// Creates a brand-new empty file at the path and returns a sink that
    /// appends to it. The parent directory must exist. The root or an
    /// existing directory cannot be written; an existing file must be
    /// removed first, which together gives create-or-truncate semantics.
    pub fn writer(&mut self, p: &str) -> (r: Result<MockWriter, XfsError>)
        requires
            old(self).wf(),
        ensures
            final(self).wf(),
            match r {
                Ok(w) => ({
                    let c = spec_normalize(p@)->Some_0;
                    &&& spec_normalize(p@) is Some
                    &&& c.len() > 0
                    &&& walk_at(old(self)@, c.drop_last()) matches WalkOutcome::Found(
                        EntryModel::Dir { .. },
                    )
                    &&& lookup_at(old(self)@, c) is None
                    &&& final(self)@ == tree_put(
                        old(self)@,
                        c,
                        (EntryModel::File { data: Seq::empty() }),
                    )
                    &&& w.comps.deep_view() == c
                    &&& w.path@ == p@
                    &&& w.wf()
                }),
                Err(XfsError::PathOutsideSandbox { path }) => spec_normalize(p@) is None && path@
                    == p@ && final(self)@ == old(self)@,
                Err(XfsError::NotAFile { path }) => spec_normalize(p@) matches Some(c) && (c.len()
                    == 0 || is_dir_at(old(self)@, c)) && path@ == p@ && final(self)@ == old(
                    self,
                )@,
                Err(XfsError::AlreadyExists { path }) => spec_normalize(p@) matches Some(c)
                    && is_file_at(old(self)@, c) && path@ == p@ && final(self)@ == old(self)@,
                Err(XfsError::NotFound { path }) => spec_normalize(p@) matches Some(c) && c.len()
                    > 0 && walk_at(old(self)@, c.drop_last()) is MissingEntry && path@ == p@
                    && final(self)@ == old(self)@,
                Err(XfsError::NotADirectory { path }) => spec_normalize(p@) matches Some(c)
                    && c.len() > 0 && (walk_at(old(self)@, c.drop_last()) is FileInTheWay || (
                walk_at(old(self)@, c.drop_last()) matches WalkOutcome::Found(
                    EntryModel::File { .. },
                ))) && path@ == p@ && final(self)@ == old(self)@,
                _ => false,
            },
    {
        let comps = match normalize_path(p) {
            Ok(c) => c,
            Err(err) => {
                return Err(err);
            },
        };
        let ghost c = comps.deep_view();
        if comps.len() == 0 {
            // The root is a directory and can never be written as a file.
            return Err(XfsError::NotAFile { path: p.to_owned() });
        }
        proof {
            assert(c.skip(0) =~= c);
        }
        let node = MockFSEntry::File(MockFSFileEntry { contents: Vec::new() });
        let ghost m = self@;
        let rr = bind_at(&mut self.root, &comps, 0, node, false);
        match rr {
            Ok(()) => {
                proof {
                    lemma_tree_put_wf(m, c, EntryModel::File { data: Seq::empty() });
                }
                Ok(MockWriter { path: p.to_owned(), comps })
            },
            Err(BindErr::MissingPath) => Err(XfsError::NotFound { path: p.to_owned() }),
            Err(BindErr::FileInPath) => Err(XfsError::NotADirectory { path: p.to_owned() }),
            Err(BindErr::BoundDir) => Err(XfsError::NotAFile { path: p.to_owned() }),
            Err(BindErr::BoundFile) => Err(XfsError::AlreadyExists { path: p.to_owned() }),
        }
    }

    /// Creates a directory at the path. The parent must already exist; the
    /// root (which always exists) and any already-bound name are reported
    /// as existing.
    pub fn create_dir(&mut self, p: &str) -> (r: Result<(), XfsError>)
        requires
            old(self).wf(),
        ensures
            final(self).wf(),
            match r {
                Ok(()) => ({
                    let c = spec_normalize(p@)->Some_0;
                    &&& spec_normalize(p@) is Some
                    &&& c.len() > 0
                    &&& walk_at(old(self)@, c.drop_last()) matches WalkOutcome::Found(
                        EntryModel::Dir { .. },
                    )
                    &&& lookup_at(old(self)@, c) is None
                    &&& final(self)@ == tree_put(old(self)@, c, empty_dir())
                }),
                Err(XfsError::PathOutsideSandbox { path }) => spec_normalize(p@) is None && path@
                    == p@ && final(self)@ == old(self)@,
                Err(XfsError::AlreadyExists { path }) => spec_normalize(p@) matches Some(c) && (
                c.len() == 0 || exists_at(old(self)@, c)) && path@ == p@ && final(self)@ == old(
                    self,
                )@,
                Err(XfsError::NotFound { path }) => spec_normalize(p@) matches Some(c) && c.len()
                    > 0 && walk_at(old(self)@, c.drop_last()) is MissingEntry && path@ == p@
                    && final(self)@ == old(self)@,
                Err(XfsError::NotADirectory { path }) => spec_normalize(p@) matches Some(c)
                    && c.len() > 0 && (walk_at(old(self)@, c.drop_last()) is FileInTheWay || (
                walk_at(old(self)@, c.drop_last()) matches WalkOutcome::Found(
                    EntryModel::File { .. },
                ))) && path@ == p@ && final(self)@ == old(self)@,
                _ => false,
            },
    {
        let comps = match normalize_path(p) {
            Ok(c) => c,
            Err(err) => {
                return Err(err);
            },
        };
        let ghost c = comps.deep_view();
        if comps.len() == 0 {
            // The root always exists and cannot be created again.
            return Err(XfsError::AlreadyExists { path: p.to_owned() });
        }
        proof {
            assert(c.skip(0) =~= c);
        }
        let node = MockFSEntry::Directory(MockFSDirectoryEntry { entries: Vec::new() });
        proof {
            assert(children_model(Seq::<(String, MockFSEntry)>::empty())
                =~= Seq::<(Seq<char>, EntryModel)>::empty());
        }
        let ghost m = self@;
        let rr = bind_at(&mut self.root, &comps, 0, node, false);
        match rr {
            Ok(()) => {
                proof {
                    assert(children_wf(Seq::<(Seq<char>, EntryModel)>::empty()));
                    lemma_tree_put_wf(m, c, empty_dir());
                }
                Ok(())
            },
            Err(BindErr::MissingPath) => Err(XfsError::NotFound { path: p.to_owned() }),
            Err(BindErr::FileInPath) => Err(XfsError::NotADirectory { path: p.to_owned() }),
            Err(BindErr::BoundDir) => Err(XfsError::AlreadyExists { path: p.to_owned() }),
            Err(BindErr::BoundFile) => Err(XfsError::AlreadyExists { path: p.to_owned() }),
        }
    }

    /// Idempotently creates every missing directory along the path; existing
    /// directories are left alone. Fails where a component is bound to a
    /// file, keeping whatever directories were created before that point.
    pub fn create_dir_all(&mut self, p: &str) -> (r: Result<(), XfsError>)
        requires
            old(self).wf(),
        ensures
            final(self).wf(),
            match r {
                Ok(()) => spec_normalize(p@) matches Some(c) && dirs_ok(old(self)@, c) && final(self)@ == dirs_make(old(self)@, c),
                Err(XfsError::PathOutsideSandbox { path }) => spec_normalize(p@) is None && path@
                    == p@ && final(self)@ == old(self)@,
                Err(XfsError::NotADirectory { path }) => spec_normalize(p@) matches Some(c)
                    && !dirs_ok(old(self)@, c) && final(self)@ == dirs_make(old(self)@, c) && path@
                    == p@,
                _ => false,
            },
    {
        let comps = match normalize_path(p) {
            Ok(c) => c,
            Err(err) => {
                return Err(err);
            },
        };
        let ghost c = comps.deep_view();
        proof {
            assert(c.skip(0) =~= c);
        }
        let ghost m = self@;
        let rr = make_dirs(&mut self.root, &comps, 0);
        proof {
            lemma_dirs_make_wf(m, c);
            assert(dirs_make(m, c) matches EntryModel::Dir { .. });
        }
        match rr {
            Ok(()) => Ok(()),
            Err(()) => Err(XfsError::NotADirectory { path: p.to_owned() }),
        }
    }

    /// Creates a file with the given bytes at the path, creating missing
    /// ancestor directories first. An empty path is accepted and does
    /// nothing. Fails if the final name is already bound, or where an
    /// ancestor component is bound to a file; ancestors created before a
    /// failure remain.
    pub fn add_r(&mut self, p: &str, contents: Vec<u8>) -> (r: Result<(), XfsError>)
        requires
            old(self).wf(),
        ensures
            final(self).wf(),
            match r {
                Ok(()) => ({
                    let c = spec_normalize(p@)->Some_0;
                    let made = dirs_make(old(self)@, c.drop_last());
                    &&& spec_normalize(p@) is Some
                    &&& (c.len() == 0 ==> final(self)@ == old(self)@)
                    &&& (c.len() > 0 ==> dirs_ok(old(self)@, c.drop_last()) && lookup_at(made, c)
                        is None && final(self)@ == tree_put(
                        made,
                        c,
                        (EntryModel::File { data: contents@ }),
                    ))
                }),
                Err(XfsError::PathOutsideSandbox { path }) => spec_normalize(p@) is None && path@
                    == p@ && final(self)@ == old(self)@,
                Err(XfsError::NotADirectory { path }) => spec_normalize(p@) matches Some(c) && (
                c.len() > 0 && !dirs_ok(old(self)@, c.drop_last())) && final(self)@ == dirs_make(
                    old(self)@,
                    c.drop_last(),
                ) && path@ == p@,
                Err(XfsError::AlreadyExists { path }) => spec_normalize(p@) matches Some(c) && (
                c.len() > 0 && dirs_ok(old(self)@, c.drop_last()) && lookup_at(
                    dirs_make(old(self)@, c.drop_last()),
                    c,
                ) is Some) && final(self)@ == dirs_make(old(self)@, c.drop_last()) && path@ == p@,
                _ => false,
            },
    {
        let comps = match normalize_path(p) {
            Ok(c) => c,
            Err(err) => {
                return Err(err);
            },
        };
        let ghost c = comps.deep_view();
        if comps.len() == 0 {
            return Ok(());
        }
        proof {
            assert(c.skip(0) =~= c);
        }
        let ghost m = self@;
        let ghost data = contents@;
        let rr = bind_file_dirs(&mut self.root, &comps, 0, contents);
        proof {
            assert(valid_comps(c.drop_last())) by {
                assert(forall|i: int|
                    0 <= i < c.drop_last().len() ==> #[trigger] c.drop_last()[i] == c[i]);
            }
            lemma_dirs_make_wf(m, c.drop_last());
            if rr is Ok {
                lemma_tree_put_wf(
                    dirs_make(m, c.drop_last()),
                    c,
                    EntryModel::File { data: data },
                );
            }
        }
        match rr {
            Ok(()) => Ok(()),
            Err(AddErr::FileInPath) => Err(XfsError::NotADirectory { path: p.to_owned() }),
            Err(AddErr::Bound) => Err(XfsError::AlreadyExists { path: p.to_owned() }),
        }
    }

    /// Creates a text file at the path, creating missing ancestor
    /// directories first, as [`MockFS::add_r`] does with the text's UTF-8
    /// bytes.
    pub fn add_file(&mut self, p: &str, contents: &str) -> (r: Result<(), XfsError>)
        requires
            old(self).wf(),
        ensures
            final(self).wf(),
            match r {
                Ok(()) => ({
                    let c = spec_normalize(p@)->Some_0;
                    let made = dirs_make(old(self)@, c.drop_last());
                    &&& spec_normalize(p@) is Some
                    &&& (c.len() == 0 ==> final(self)@ == old(self)@)
                    &&& (c.len() > 0 ==> dirs_ok(old(self)@, c.drop_last()) && lookup_at(made, c)
                        is None && final(self)@ == tree_put(
                        made,
                        c,
                        (EntryModel::File { data: vstd::utf8::encode_utf8(contents@) }),
                    ))
                }),
                Err(XfsError::PathOutsideSandbox { path }) => spec_normalize(p@) is None && path@
                    == p@ && final(self)@ == old(self)@,
                Err(XfsError::NotADirectory { path }) => spec_normalize(p@) matches Some(c) && (
                c.len() > 0 && !dirs_ok(old(self)@, c.drop_last())) && final(self)@ == dirs_make(
                    old(self)@,
                    c.drop_last(),
                ) && path@ == p@,
                Err(XfsError::AlreadyExists { path }) => spec_normalize(p@) matches Some(c) && (
                c.len() > 0 && dirs_ok(old(self)@, c.drop_last()) && lookup_at(
                    dirs_make(old(self)@, c.drop_last()),
                    c,
                ) is Some) && final(self)@ == dirs_make(old(self)@, c.drop_last()) && path@ == p@,
                _ => false,
            },
    {
        let bytes = contents.as_bytes_vec();
        self.add_r(p, bytes)
    }

    /// Removes the file at the path. A directory is refused; the root has
    /// no parent entry to unbind and is reported as not found.
    pub fn remove_file(&mut self, p: &str) -> (r: Result<(), XfsError>)
        requires
            old(self).wf(),
        ensures
            final(self).wf(),
            match r {
                Ok(()) => spec_normalize(p@) matches Some(c) && c.len() > 0 && is_file_at(
                    old(self)@,
                    c,
                ) && final(self)@ == tree_del(old(self)@, c),
                Err(XfsError::PathOutsideSandbox { path }) => spec_normalize(p@) is None && path@
                    == p@ && final(self)@ == old(self)@,
                Err(XfsError::NotFound { path }) => spec_normalize(p@) matches Some(c) && (c.len()
                    == 0 || walk_at(old(self)@, c.drop_last()) is MissingEntry || ((walk_at(
                    old(self)@,
                    c.drop_last(),
                ) matches WalkOutcome::Found(EntryModel::Dir { .. })) && lookup_at(old(self)@, c)
                    is None)) && path@ == p@ && final(self)@ == old(self)@,
                Err(XfsError::NotAFile { path }) => spec_normalize(p@) matches Some(c) && is_dir_at(
                    old(self)@,
                    c,
                ) && c.len() > 0 && path@ == p@ && final(self)@ == old(self)@,
                Err(XfsError::NotADirectory { path }) => spec_normalize(p@) matches Some(c)
                    && c.len() > 0 && (walk_at(old(self)@, c.drop_last()) is FileInTheWay || (
                walk_at(old(self)@, c.drop_last()) matches WalkOutcome::Found(
                    EntryModel::File { .. },
                ))) && path@ == p@ && final(self)@ == old(self)@,
                _ => false,
            },
    {
        let comps = match normalize_path(p) {
            Ok(c) => c,
            Err(err) => {
                return Err(err);
            },
        };
        let ghost c = comps.deep_view();
        if comps.len() == 0 {
            // The root has no parent entry to unbind.
            return Err(XfsError::NotFound { path: p.to_owned() });
        }
        proof {
            assert(c.skip(0) =~= c);
        }
        let ghost m = self@;
        let rr = unbind_at(&mut self.root, &comps, 0, Some(false));
        match rr {
            Ok(x) => {
                proof {
                    lemma_tree_del_wf(m, c);
                }
                Ok(())
            },
            Err(UnbindErr::MissingPath) => Err(XfsError::NotFound { path: p.to_owned() }),
            Err(UnbindErr::FileInPath) => Err(XfsError::NotADirectory { path: p.to_owned() }),
            Err(UnbindErr::AbsentEntry) => Err(XfsError::NotFound { path: p.to_owned() }),
            Err(UnbindErr::WrongKind) => Err(XfsError::NotAFile { path: p.to_owned() }),
        }
    }

    /// Removes the directory at the path and everything beneath it. A file
    /// is refused; the root cannot be removed and is reported as not found.
    pub fn remove_dir_all(&mut self, p: &str) -> (r: Result<(), XfsError>)
        requires
            old(self).wf(),
        ensures
            final(self).wf(),
            match r {
                Ok(()) => spec_normalize(p@) matches Some(c) && c.len() > 0 && is_dir_at(
                    old(self)@,
                    c,
                ) && final(self)@ == tree_del(old(self)@, c),
                Err(XfsError::PathOutsideSandbox { path }) => spec_normalize(p@) is None && path@
                    == p@ && final(self)@ == old(self)@,
                Err(XfsError::NotFound { path }) => spec_normalize(p@) matches Some(c) && (c.len()
                    == 0 || walk_at(old(self)@, c.drop_last()) is MissingEntry || ((walk_at(
                    old(self)@,
                    c.drop_last(),
                ) matches WalkOutcome::Found(EntryModel::Dir { .. })) && lookup_at(old(self)@, c)
                    is None)) && path@ == p@ && final(self)@ == old(self)@,
                Err(XfsError::NotADirectory { path }) => spec_normalize(p@) matches Some(c) && (
                is_file_at(old(self)@, c) || walk_at(old(self)@, c.drop_last()) is FileInTheWay || (
                walk_at(old(self)@, c.drop_last()) matches WalkOutcome::Found(
                    EntryModel::File { .. },
                ))) && path@ == p@ && final(self)@ == old(self)@,
                _ => false,
            },
    {
        let comps = match normalize_path(p) {
            Ok(c) => c,
            Err(err) => {
                return Err(err);
            },
        };
        let ghost c = comps.deep_view();
        if comps.len() == 0 {
            // The root can never be removed.
            return Err(XfsError::NotFound { path: p.to_owned() });
        }
        proof {
            assert(c.skip(0) =~= c);
        }
        let ghost m = self@;
        let rr = unbind_at(&mut self.root, &comps, 0, Some(true));
        match rr {
            Ok(x) => {
                proof {
                    lemma_tree_del_wf(m, c);
                }
                Ok(())
            },
            Err(UnbindErr::MissingPath) => Err(XfsError::NotFound { path: p.to_owned() }),
            Err(UnbindErr::FileInPath) => Err(XfsError::NotADirectory { path: p.to_owned() }),
            Err(UnbindErr::AbsentEntry) => Err(XfsError::NotFound { path: p.to_owned() }),
            Err(UnbindErr::WrongKind) => Err(XfsError::NotADirectory { path: p.to_owned() }),
        }
    }
}

/// Compares two strings for equality of their characters.
fn str_eq(a: &str, b: &str) -> (r: bool)
    ensures
        r == (a@ == b@),
{
    let na = a.unicode_len();
    let nb = b.unicode_len();
    if na != nb {
        return false;
    }
    let mut i: usize = 0;
    while i < na
        invariant
            i <= na,
            na == a@.len() == b@.len(),
            forall|j: int| 0 <= j < i ==> a@[j] == b@[j],
        decreases na - i,
    {
        if a.get_char(i) != b.get_char(i) {
            return false;
        }
        i = i + 1;
    }
    proof {
        assert(a@ =~= b@);
    }
    true
}

/// Compares two component vectors for equality of their models.
fn comps_eq(a: &Vec<String>, b: &Vec<String>) -> (r: bool)
    ensures
        (r <==> a.deep_view() == b.deep_view()),
{
    let n = a.len();
    if n != b.len() {
        proof {
            assert(a.deep_view().len() != b.deep_view().len());
        }
        return false;
    }
    let mut i: usize = 0;
    while i < n
        invariant
            i <= n,
            n == a@.len() == b@.len(),
            forall|j: int| 0 <= j < i ==> a.deep_view()[j] == b.deep_view()[j],
        decreases n - i,
    {
        if a[i] != b[i] {
            proof {
                assert(a.deep_view()[i as int] != b.deep_view()[i as int]);
            }
            return false;
        }
        i = i + 1;
    }
    proof {
        assert(a.deep_view() =~= b.deep_view());
    }
    true
}

/// Tests whether the first component vector is a prefix of the second.
fn comps_prefix(a: &Vec<String>, b: &Vec<String>) -> (r: bool)
    ensures
        (r <==> is_prefix_of(a.deep_view(), b.deep_view())),
{
    let n = a.len();
    if n > b.len() {
        return false;
    }
    let mut i: usize = 0;
    while i < n
        invariant
            i <= n,
            n == a@.len(),
            n <= b@.len(),
            forall|j: int| 0 <= j < i ==> a.deep_view()[j] == b.deep_view()[j],
        decreases n - i,
    {
        if a[i] != b[i] {
            proof {
                assert(a.deep_view()[i as int] != b.deep_view()[i as int]);
                assert(b.deep_view().take(n as int)[i as int] == b.deep_view()[i as int]);
            }
            return false;
        }
        i = i + 1;
    }
    proof {
        assert(a.deep_view() =~= b.deep_view().take(n as int));
    }
    true
}

impl MockFS {
    /// Moves the entry at `from` beneath `to`'s parent under `to`'s final
    /// name, keeping the entry itself (the same subtree, not a copy) and
    /// overwriting anything already bound at `to`. Renaming a path to
    /// itself succeeds and changes nothing, before any other check. The
    /// source must exist and the destination's parent must be an existing
    /// directory; a destination beneath the source is refused before
    /// anything is moved, so a failed rename never destroys the source.
    /// The source's side is checked first, and errors about the
    /// destination's parent carry the full destination path.
    pub fn rename(&mut self, from: &str, to: &str) -> (r: Result<(), XfsError>)
        requires
            old(self).wf(),
        ensures
            final(self).wf(),
            from@ == to@ ==> r is Ok && final(self)@ == old(self)@,
            match r {
                Ok(()) => from@ == to@ || ({
                    let fc = spec_normalize(from@)->Some_0;
                    let tc = spec_normalize(to@)->Some_0;
                    &&& spec_normalize(from@) is Some
                    &&& spec_normalize(to@) is Some
                    &&& (fc == tc ==> final(self)@ == old(self)@)
                    &&& (fc != tc ==> fc.len() > 0 && tc.len() > 0 && !is_prefix_of(fc, tc)
                        && (lookup_at(old(self)@, fc) matches Option::Some(x) && final(self)@
                        == tree_put(tree_del(old(self)@, fc), tc, x)) && (walk_at(
                        old(self)@,
                        tc.drop_last(),
                    ) matches WalkOutcome::Found(EntryModel::Dir { .. })))
                }),
                Err(XfsError::PathOutsideSandbox { path }) => from@ != to@ && (spec_normalize(
                    from@,
                ) is None || spec_normalize(to@) is None) && (path@ == from@ || path@ == to@)
                    && final(self)@ == old(self)@,
                Err(XfsError::NotFound { path }) => ({
                    let fc = spec_normalize(from@)->Some_0;
                    let tc = spec_normalize(to@)->Some_0;
                    &&& from@ != to@
                    &&& spec_normalize(from@) is Some
                    &&& spec_normalize(to@) is Some
                    &&& fc != tc
                    &&& final(self)@ == old(self)@
                    // Exactly one failure is reported: the source's side is
                    // checked before the destination's, emptiness before
                    // resolution, and the nested-destination guard last.
                    &&& ((fc.len() == 0 && path@ == from@) || (fc.len() > 0 && tc.len() == 0
                        && path@ == to@) || (fc.len() > 0 && tc.len() > 0 && lookup_at(
                        old(self)@,
                        fc,
                    ) is None && path@ == from@) || (fc.len() > 0 && tc.len() > 0 && lookup_at(
                        old(self)@,
                        fc,
                    ) is Some && walk_at(old(self)@, tc.drop_last()) is MissingEntry && path@
                        == to@) || (fc.len() > 0 && tc.len() > 0 && lookup_at(old(self)@, fc)
                        is Some && (walk_at(old(self)@, tc.drop_last())
                        matches WalkOutcome::Found(EntryModel::Dir { .. })) && is_prefix_of(
                        fc,
                        tc,
                    ) && path@ == to@))
                }),
                Err(XfsError::NotADirectory { path }) => ({
                    let fc = spec_normalize(from@)->Some_0;
                    let tc = spec_normalize(to@)->Some_0;
                    &&& from@ != to@
                    &&& spec_normalize(from@) is Some
                    &&& spec_normalize(to@) is Some
                    &&& fc != tc
                    &&& fc.len() > 0
                    &&& tc.len() > 0
                    &&& lookup_at(old(self)@, fc) is Some
                    &&& final(self)@ == old(self)@
                    &&& (walk_at(old(self)@, tc.drop_last()) is FileInTheWay || (walk_at(
                        old(self)@,
                        tc.drop_last(),
                    ) matches WalkOutcome::Found(EntryModel::File { .. })))
                    &&& path@ == to@
                }),
                _ => false,
            },
    {
        // Renaming a path to itself is a no-op before anything is checked,
        // so it succeeds even for paths that do not exist or do not
        // normalize.
        if str_eq(from, to) {
            return Ok(());
        }
        let fcomps = match normalize_path(from) {
            Ok(c) => c,
            Err(err) => {
                return Err(err);
            },
        };
        let tcomps = match normalize_path(to) {
            Ok(c) => c,
            Err(err) => {
                return Err(err);
            },
        };
        let ghost fc = fcomps.deep_view();
        let ghost tc = tcomps.deep_view();
        if comps_eq(&fcomps, &tcomps) {
            return Ok(());
        }
        if fcomps.len() == 0 {
            return Err(XfsError::NotFound { path: from.to_owned() });
        }
        if tcomps.len() == 0 {
            return Err(XfsError::NotFound { path: to.to_owned() });
        }
        proof {
            assert(fc.subrange(0, fc.len() as int) =~= fc);
            assert(fc.skip(0) =~= fc);
            assert(tc.subrange(0, tc.len() as int) =~= tc);
            assert(tc.skip(0) =~= tc);
            assert(tc.subrange(0, tc.len() - 1) =~= tc.drop_last());
        }
        // The source must exist.
        match walk_ref(&self.root, &fcomps, 0, fcomps.len()) {
            Ok(t) => {},
            Err(we) => {
                return Err(XfsError::NotFound { path: from.to_owned() });
            },
        }
        // The destination's parent must be an existing directory.
        match walk_ref(&self.root, &tcomps, 0, tcomps.len() - 1) {
            Ok(t) => match t {
                MockFSEntry::Directory(d) => {},
                MockFSEntry::File(f) => {
                    return Err(XfsError::NotADirectory { path: to.to_owned() });
                },
            },
            Err(WalkErr::Missing) => {
                return Err(XfsError::NotFound { path: to.to_owned() });
            },
            Err(WalkErr::FileStep) => {
                return Err(XfsError::NotADirectory { path: to.to_owned() });
            },
        }
        // A destination beneath the source would be orphaned by the move:
        // refuse it while nothing has been touched yet.
        if comps_prefix(&fcomps, &tcomps) {
            return Err(XfsError::NotFound { path: to.to_owned() });
        }
        let ghost m0 = self@;
        // Take the entry out of the source parent.
        let rr = unbind_at(&mut self.root, &fcomps, 0, None);
        let entry = match rr {
            Ok(x) => x,
            Err(we) => {
                proof {
                    lemma_lookup_last(m0, fc);
                    assert(false);
                }
                return Err(XfsError::NotFound { path: from.to_owned() });
            },
        };
        let ghost m1 = self@;
        let ghost x = entry@;
        proof {
            assert(m1 == tree_del(m0, fc));
            lemma_tree_del_wf(m0, fc);
            lemma_lookup_wf(m0, fc);
            // The destination parent is still a directory after the removal.
            let tp = tc.drop_last();
            if is_prefix_of(tp, fc) {
                if tp.len() == fc.len() {
                    // Then tp == fc, so fc would be a prefix of tc.
                    assert(tp =~= fc.take(tp.len() as int));
                    assert(tp =~= fc);
                    assert(is_prefix_of(fc, tc)) by {
                        assert(fc =~= tc.take(fc.len() as int));
                    }
                    assert(false);
                } else {
                    lemma_tree_del_prefix_dir(m0, fc, tp);
                }
            } else {
                // tp does not extend fc either, else fc <= tp <= tc.
                if is_prefix_of(fc, tp) {
                    assert(fc =~= tp.take(fc.len() as int));
                    assert(tp =~= tc.take(tp.len() as int));
                    assert(is_prefix_of(fc, tc)) by {
                        assert(fc =~= tc.take(fc.len() as int));
                    }
                    assert(false);
                }
                lemma_tree_del_frame(m0, fc, tp);
            }
            assert(is_dir_at(m1, tp));
            lemma_lookup_last(m1, tc);
        }
        // Bind it beneath the destination parent, replacing any old binding.
        let rb = bind_at(&mut self.root, &tcomps, 0, entry, true);
        match rb {
            Ok(()) => {
                proof {
                    lemma_tree_put_wf(m1, tc, x);
                }
                Ok(())
            },
            Err(be) => {
                proof {
                    assert(false);
                }
                Err(XfsError::NotFound { path: to.to_owned() })
            },
        }
    }
}

impl MockFS {
    /// Reads the file a path denotes as UTF-8 text split into lines: split
    /// at each line feed, a carriage return directly before a line feed is
    /// dropped, and a final line feed ends the last line without starting
    /// an empty one.
    pub fn read_all_lines(&self, p: &str) -> (r: Result<Vec<String>, XfsError>)
        requires
            self.wf(),
        ensures
            match r {
                Ok(v) => spec_normalize(p@) matches Some(c) && (lookup_at(self@, c)
                    matches Option::Some(EntryModel::File { data })
                    && vstd::utf8::valid_utf8(data) && v.deep_view() == spec_lines(
                    vstd::utf8::decode_utf8(data),
                )),
                Err(XfsError::InvalidUtf8 { path }) => spec_normalize(p@) matches Some(c) && (
                lookup_at(self@, c) matches Option::Some(EntryModel::File { data })
                    && !vstd::utf8::valid_utf8(data)) && path@ == p@,
                Err(XfsError::PathOutsideSandbox { path }) => spec_normalize(p@) is None && path@
                    == p@,
                Err(XfsError::NotFound { path }) => spec_normalize(p@) matches Some(c) && walk_at(
                    self@,
                    c,
                ) is MissingEntry && path@ == p@,
                Err(XfsError::NotADirectory { path }) => spec_normalize(p@) matches Some(c)
                    && walk_at(self@, c) is FileInTheWay && path@ == p@,
                Err(XfsError::NotAFile { path }) => spec_normalize(p@) matches Some(c) && (walk_at(
                    self@,
                    c,
                ) matches WalkOutcome::Found(EntryModel::Dir { .. })) && path@ == p@,
                _ => false,
            },
    {
        let data = match self.get(p) {
            Ok(v) => v,
            Err(err) => {
                return Err(err);
            },
        };
        let s = match utf8_to_str(&data) {
            Some(s) => s,
            None => {
                return Err(XfsError::InvalidUtf8 { path: p.to_owned() });
            },
        };
        let n = s.unicode_len();
        let mut out: Vec<String> = Vec::new();
        let mut start: usize = 0;
        let mut i: usize = 0;
        proof {
            assert(s@.skip(0) =~= s@);
            assert(out.deep_view() =~= Seq::<Seq<char>>::empty());
        }
        loop
            invariant
                start <= i <= n,
                n == s@.len(),
                spec_normalize(p@) matches Some(cc) && lookup_at(self@, cc) == Option::Some(
                    (EntryModel::File { data: data@ }),
                ),
                vstd::utf8::valid_utf8(data@),
                s@ == vstd::utf8::decode_utf8(data@),
                forall|j: int| start <= j < i ==> s@[j] != '\n',
                spec_lines(s@) =~= out.deep_view() + spec_lines(s@.skip(start as int)),
            decreases 2 * n - i - start + 1,
        {
            if i == n {
                let ghost rest = s@.skip(start as int);
                if start < n {
                    proof {
                        assert forall|j: int| 0 <= j < rest.len() implies rest[j] != '\n' by {
                            assert(rest[j] == s@[start + j]);
                        }
                        lemma_first_nl(rest, rest.len() as int);
                    }
                    let line = s.substring_char(start, n);
                    let ghost out0 = out.deep_view();
                    out.push(line.to_owned());
                    proof {
                        assert(out.deep_view() =~= out0.push(rest));
                        assert(spec_lines(rest) =~= seq![rest]);
                        assert(s@.skip(n as int).len() == 0);
                        assert(spec_lines(s@) =~= out.deep_view() + spec_lines(s@.skip(n as int)));
                    }
                } else {
                    proof {
                        assert(rest.len() == 0);
                    }
                }
                proof {
                    assert(spec_lines(s@.skip(n as int)) =~= Seq::<Seq<char>>::empty());
                    assert(out.deep_view() =~~= spec_lines(s@));
                    assert(out.deep_view() == spec_lines(s@));
                }
                return Ok(out);
            }
            if s.get_char(i) == '\n' {
                let ghost rest = s@.skip(start as int);
                proof {
                    assert forall|j: int| 0 <= j < i - start implies rest[j] != '\n' by {
                        assert(rest[j] == s@[start + j]);
                    }
                    assert(rest[i - start] == s@[i as int]);
                    lemma_first_nl(rest, i - start);
                }
                let endpos = if i > start && s.get_char(i - 1) == '\r' {
                    i - 1
                } else {
                    i
                };
                let line = s.substring_char(start, endpos);
                let ghost out0 = out.deep_view();
                out.push(line.to_owned());
                proof {
                    assert(rest.take(i - start) =~= s@.subrange(start as int, i as int));
                    assert(strip_cr(rest.take(i - start)) =~= s@.subrange(
                        start as int,
                        endpos as int,
                    )) by {
                        if i > start && s@[i - 1] == '\r' {
                            assert(rest.take(i - start).last() == s@[i - 1]);
                            assert(rest.take(i - start).drop_last() =~= s@.subrange(
                                start as int,
                                i - 1,
                            ));
                        } else {
                            if rest.take(i - start).len() > 0 {
                                assert(rest.take(i - start).last() == s@[i - 1]);
                            }
                        }
                    }
                    assert(out.deep_view() =~= out0.push(s@.subrange(start as int, endpos as int)));
                    assert(rest.skip(i - start + 1) =~= s@.skip(i + 1));
                    assert(spec_lines(rest) =~= seq![strip_cr(rest.take(i - start))] + spec_lines(
                        s@.skip(i + 1),
                    ));
                    assert(spec_lines(s@) =~= out.deep_view() + spec_lines(s@.skip(i + 1)));
                }
                start = i + 1;
                i = i + 1;
            } else {
                i = i + 1;
            }
        }
    }

    /// Creates a brand-new file at the path holding the given bytes, with
    /// exactly the rules of [`MockFS::writer`]: the parent must exist, and
    /// nothing may already be bound at the path.
    pub fn write_file(&mut self, p: &str, contents: &[u8]) -> (r: Result<(), XfsError>)
        requires
            old(self).wf(),
        ensures
            final(self).wf(),
            match r {
                Ok(()) => ({
                    let c = spec_normalize(p@)->Some_0;
                    &&& spec_normalize(p@) is Some
                    &&& c.len() > 0
                    &&& walk_at(old(self)@, c.drop_last()) matches WalkOutcome::Found(
                        EntryModel::Dir { .. },
                    )
                    &&& lookup_at(old(self)@, c) is None
                    &&& final(self)@ == tree_put(
                        old(self)@,
                        c,
                        (EntryModel::File { data: contents@ }),
                    )
                }),
                Err(XfsError::PathOutsideSandbox { path }) => spec_normalize(p@) is None && path@
                    == p@ && final(self)@ == old(self)@,
                Err(XfsError::NotAFile { path }) => spec_normalize(p@) matches Some(c) && (c.len()
                    == 0 || is_dir_at(old(self)@, c)) && path@ == p@ && final(self)@ == old(self)@,
                Err(XfsError::AlreadyExists { path }) => spec_normalize(p@) matches Some(c)
                    && is_file_at(old(self)@, c) && path@ == p@ && final(self)@ == old(self)@,
                Err(XfsError::NotFound { path }) => spec_normalize(p@) matches Some(c) && c.len()
                    > 0 && walk_at(old(self)@, c.drop_last()) is MissingEntry && path@ == p@
                    && final(self)@ == old(self)@,
                Err(XfsError::NotADirectory { path }) => spec_normalize(p@) matches Some(c)
                    && c.len() > 0 && (walk_at(old(self)@, c.drop_last()) is FileInTheWay || (
                walk_at(old(self)@, c.drop_last()) matches WalkOutcome::Found(
                    EntryModel::File { .. },
                ))) && path@ == p@ && final(self)@ == old(self)@,
                _ => false,
            },
    {
        let comps = match normalize_path(p) {
            Ok(c) => c,
            Err(err) => {
                return Err(err);
            },
        };
        let ghost c = comps.deep_view();
        if comps.len() == 0 {
            return Err(XfsError::NotAFile { path: p.to_owned() });
        }
        proof {
            assert(c.skip(0) =~= c);
        }
        let mut bytes: Vec<u8> = Vec::new();
        let mut j: usize = 0;
        while j < contents.len()
            invariant
                j <= contents@.len(),
                bytes@ =~= contents@.take(j as int),
            decreases contents@.len() - j,
        {
            bytes.push(contents[j]);
            proof {
                assert(contents@.take(j + 1) =~= contents@.take(j as int).push(
                    contents@[j as int],
                ));
            }
            j = j + 1;
        }
        proof {
            assert(contents@.take(contents@.len() as int) =~= contents@);
        }
        let node = MockFSEntry::File(MockFSFileEntry { contents: bytes });
        let ghost m = self@;
        let rr = bind_at(&mut self.root, &comps, 0, node, false);
        match rr {
            Ok(()) => {
                proof {
                    lemma_tree_put_wf(m, c, EntryModel::File { data: contents@ });
                }
                Ok(())
            },
            Err(BindErr::MissingPath) => Err(XfsError::NotFound { path: p.to_owned() }),
            Err(BindErr::FileInPath) => Err(XfsError::NotADirectory { path: p.to_owned() }),
            Err(BindErr::BoundDir) => Err(XfsError::NotAFile { path: p.to_owned() }),
            Err(BindErr::BoundFile) => Err(XfsError::AlreadyExists { path: p.to_owned() }),
        }
    }
}

/// The effect of binding a brand-new file, exactly as `write_file` has it:
/// the state afterwards, paired with whether the binding succeeded (the
/// path is non-empty, its parent walks to a directory, and nothing is
/// bound at it yet).
pub open spec fn put_new_file(dst: EntryModel, c: Seq<Seq<char>>, data: Seq<u8>) -> (
    EntryModel,
    bool,
) {
    if c.len() > 0 && (walk_at(dst, c.drop_last()) matches WalkOutcome::Found(
        EntryModel::Dir { .. },
    )) && lookup_at(dst, c) is None {
        (tree_put(dst, c, (EntryModel::File { data })), true)
    } else {
        (dst, false)
    }
}

/// The effect of binding a brand-new empty directory, exactly as
/// `create_dir` has it.
pub open spec fn put_new_dir(dst: EntryModel, c: Seq<Seq<char>>) -> (EntryModel, bool) {
    if c.len() > 0 && (walk_at(dst, c.drop_last()) matches WalkOutcome::Found(
        EntryModel::Dir { .. },
    )) && lookup_at(dst, c) is None {
        (tree_put(dst, c, empty_dir()), true)
    } else {
        (dst, false)
    }
}

/// The destination tree after recursively copying the source entry `src`
/// (whose own final path component is `name`) to the components `sc`,
/// paired with whether the whole copy succeeded. A file aimed at an
/// existing directory lands beneath it under `name`; aimed at an existing
/// file it fails; a directory merges into an existing directory, is
/// created when absent, and fails on an existing file. Children are copied
/// in listing order, and a failure keeps the partial state: the copy does
/// not roll back.
pub open spec fn copy_model(
    dst: EntryModel,
    sc: Seq<Seq<char>>,
    name: Seq<char>,
    src: EntryModel,
) -> (EntryModel, bool)
    decreases src,
{
    match src {
        EntryModel::File { data } => {
            if is_dir_at(dst, sc) {
                put_new_file(dst, sc.push(name), data)
            } else if is_file_at(dst, sc) {
                (dst, false)
            } else {
                put_new_file(dst, sc, data)
            }
        },
        EntryModel::Dir { children } => {
            if is_file_at(dst, sc) {
                (dst, false)
            } else {
                let step = if is_dir_at(dst, sc) {
                    (dst, true)
                } else {
                    put_new_dir(dst, sc)
                };
                if !step.1 {
                    (step.0, false)
                } else {
                    copy_children(step.0, sc, children)
                }
            }
        },
    }
}

/// Copies the source children one by one, in order, stopping at the first
/// failure and keeping what was copied before it.
pub open spec fn copy_children(
    dst: EntryModel,
    sc: Seq<Seq<char>>,
    kids: Seq<(Seq<char>, EntryModel)>,
) -> (EntryModel, bool)
    decreases kids,
{
    if kids.len() == 0 {
        (dst, true)
    } else {
        let step = copy_model(dst, sc.push(kids[0].0), kids[0].0, kids[0].1);
        if !step.1 {
            (step.0, false)
        } else {
            copy_children(step.0, sc, kids.drop_first())
        }
    }
}

/// Copying into an absent destination beneath an existing directory
/// succeeds, and its whole effect is to bind the source subtree there: the
/// destination afterwards mirrors the source exactly.
pub proof fn lemma_copy_model_fresh(
    dst: EntryModel,
    sc: Seq<Seq<char>>,
    name: Seq<char>,
    src: EntryModel,
)
    requires
        entry_wf(dst),
        entry_wf(src),
        valid_comps(sc),
        sc.len() > 0,
        walk_at(dst, sc.drop_last()) matches WalkOutcome::Found(EntryModel::Dir { .. }),
        lookup_at(dst, sc) is None,
    ensures
        copy_model(dst, sc, name, src).1,
        copy_model(dst, sc, name, src).0 == tree_put(dst, sc, src),
    decreases src,
{
    match src {
        EntryModel::File { data } => {
            assert(src == (EntryModel::File { data }));
        },
        EntryModel::Dir { children } => {
            let d1 = tree_put(dst, sc, empty_dir());
            assert(put_new_dir(dst, sc) == (d1, true));
            assert(entry_wf(empty_dir())) by {
                assert(children_wf(Seq::<(Seq<char>, EntryModel)>::empty()));
            }
            lemma_tree_put_wf(dst, sc, empty_dir());
            lemma_tree_put_same(dst, sc, empty_dir());
            if sc.drop_last().len() == 0 {
                assert(walk_at(d1, sc.drop_last()) == WalkOutcome::Found(d1));
                assert(d1 matches EntryModel::Dir { .. }) by {
                    assert(dst matches EntryModel::Dir { .. });
                }
            } else {
                lemma_tree_put_prefix_dir(dst, sc, empty_dir(), sc.drop_last());
            }
            assert(sorted_names(children) && children_wf(children));
            lemma_copy_children_fresh(d1, sc, Seq::empty(), children);
            assert(Seq::<(Seq<char>, EntryModel)>::empty() + children =~= children);
            lemma_tree_put_twice(dst, sc, empty_dir(), EntryModel::Dir { children });
            assert(copy_model(dst, sc, name, src).0 == tree_put(dst, sc, src));
        },
    }
}

/// Copying source children one by one into a destination directory that
/// already holds `done` (all of it named before every remaining child)
/// appends exactly those children.
pub proof fn lemma_copy_children_fresh(
    d: EntryModel,
    sc: Seq<Seq<char>>,
    done: Seq<(Seq<char>, EntryModel)>,
    kids: Seq<(Seq<char>, EntryModel)>,
)
    requires
        entry_wf(d),
        valid_comps(sc),
        sc.len() > 0,
        walk_at(d, sc.drop_last()) matches WalkOutcome::Found(EntryModel::Dir { .. }),
        lookup_at(d, sc) == Option::Some((EntryModel::Dir { children: done })),
        sorted_names(kids),
        children_wf(kids),
        forall|i: int, j: int|
            0 <= i < done.len() && 0 <= j < kids.len() ==> lex_lt(
                #[trigger] done[i].0,
                #[trigger] kids[j].0,
            ),
    ensures
        copy_children(d, sc, kids).1,
        copy_children(d, sc, kids).0 == tree_put(d, sc, (EntryModel::Dir { children: done + kids })),
    decreases kids,
{
    lemma_lookup_wf(d, sc);
    assert(sorted_names(done) && children_wf(done));
    if kids.len() == 0 {
        assert(done + kids =~= done);
        lemma_tree_put_self(d, sc);
    } else {
        let n0 = kids[0].0;
        let k0 = kids[0].1;
        lemma_children_wf_index(kids, 0);
        // The first child's name is fresh beneath the destination.
        assert(child_at(done, n0) is None) by {
            lemma_child_at_index(done, n0);
            if child_at(done, n0) is Some {
                let j = choose|j: int| 0 <= j < done.len() && (#[trigger] done[j].0) == n0;
                lemma_lex_lt_irrefl(n0);
            }
        }
        let scn = sc.push(n0);
        assert(scn =~= sc + seq![n0]);
        lemma_walk_append(d, sc, seq![n0]);
        assert(seq![n0][0] == n0);
        assert(lookup_at(d, scn) is None) by {
            assert(walk_at(d, sc) == WalkOutcome::Found((EntryModel::Dir { children: done })));
            assert(walk_at((EntryModel::Dir { children: done }), seq![n0]) is MissingEntry);
        }
        assert(scn.drop_last() =~= sc);
        assert(walk_at(d, scn.drop_last()) matches WalkOutcome::Found(EntryModel::Dir { .. })) by {
            assert(walk_at(d, sc) == WalkOutcome::Found((EntryModel::Dir { children: done })));
        }
        assert(valid_comps(scn)) by {
            assert(forall|i: int| 0 <= i < sc.len() ==> #[trigger] scn[i] == sc[i]);
            assert(scn[sc.len() as int] == n0);
        }
        lemma_copy_model_fresh(d, scn, n0, k0);
        let d2 = tree_put(d, scn, k0);
        assert(copy_model(d, scn, n0, k0) == (d2, true));
        // One child step rebinds the destination with the child appended.
        lemma_tree_put_child(d, sc, n0, k0);
        lemma_child_put_append(done, n0, k0);
        let done2 = done.push((n0, k0));
        assert(d2 == tree_put(d, sc, (EntryModel::Dir { children: done2 })));
        // The new destination children are well-formed and still precede
        // every remaining child.
        assert(sorted_names(done2)) by {
            assert forall|i: int, j: int| 0 <= i < j < done2.len() implies lex_lt(
                #[trigger] done2[i].0,
                #[trigger] done2[j].0,
            ) by {
                if j < done.len() {
                } else {
                    assert(done2[j] == (n0, k0));
                }
            }
        }
        lemma_children_wf_push(done, (n0, k0));
        assert(entry_wf((EntryModel::Dir { children: done2 })));
        lemma_tree_put_wf(d, sc, EntryModel::Dir { children: done2 });
        lemma_tree_put_same(d, sc, EntryModel::Dir { children: done2 });
        if sc.drop_last().len() == 0 {
            assert(walk_at(d2, sc.drop_last()) == WalkOutcome::Found(d2));
            assert(d2 matches EntryModel::Dir { .. }) by {
                assert(d matches EntryModel::Dir { .. });
            }
        } else {
            lemma_tree_put_prefix_dir(d, sc, EntryModel::Dir { children: done2 }, sc.drop_last());
        }
        assert(sorted_names(kids.drop_first()) && children_wf(kids.drop_first())) by {
            lemma_sorted_drop_first(kids);
        }
        assert forall|i: int, j: int|
            0 <= i < done2.len() && 0 <= j < kids.drop_first().len() implies lex_lt(
            #[trigger] done2[i].0,
            #[trigger] kids.drop_first()[j].0,
        ) by {
            assert(kids.drop_first()[j] == kids[j + 1]);
            if i < done.len() {
            } else {
                assert(done2[i] == (n0, k0));
                assert(lex_lt(kids[0].0, kids[j + 1].0));
            }
        }
        lemma_copy_children_fresh(d2, sc, done2, kids.drop_first());
        assert(copy_children(d, sc, kids).0 == copy_children(d2, sc, kids.drop_first()).0);
        lemma_tree_put_twice(
            d,
            sc,
            EntryModel::Dir { children: done2 },
            EntryModel::Dir { children: done2 + kids.drop_first() },
        );
        assert(done2 + kids.drop_first() =~= done + kids);
    }
}

impl MockFS {
    /// Recursively copies the entry at `other_path` of any read-only source
    /// into this filesystem at `self_path`. A source file aimed at an
    /// existing directory lands beneath it under the source's name; aimed at
    /// an existing file it is refused. A source directory merges into an
    /// existing destination directory, is created when absent, and is
    /// refused where the destination exists as a file. Failures propagate
    /// at once and leave whatever was already copied.
    pub fn copy_recursive<F: crate::XfsReadOnly>(
        &mut self,
        other_fs: &F,
        other_path: &str,
        self_path: &str,
    ) -> (r: Result<(), XfsError>)
        requires
            old(self).wf(),
            entry_wf(other_fs.model()),
            other_fs.model() matches EntryModel::Dir { .. },
        ensures
            final(self).wf(),
            forall|q: Seq<Seq<char>>|
                #[trigger] is_dir_at(old(self)@, q) ==> is_dir_at(final(self)@, q),
            ({
                let oc = spec_normalize(other_path@)->Some_0;
                let sc = spec_normalize(self_path@)->Some_0;
                let src = lookup_at(other_fs.model(), oc);
                &&& (spec_normalize(other_path@) is None ==> r is Err && final(self)@ == old(
                    self,
                )@)
                &&& (spec_normalize(other_path@) is Some && src is None ==> r is Err && final(self)@ == old(self)@)
                &&& (spec_normalize(other_path@) is Some && src is Some && spec_normalize(
                    self_path@,
                ) is None ==> r is Err && final(self)@ == old(self)@)
                &&& (spec_normalize(other_path@) is Some && src is Some && spec_normalize(
                    self_path@,
                ) is Some ==> ({
                    let cm = copy_model(old(self)@, sc, oc.last(), src->Some_0);
                    &&& final(self)@ == cm.0
                    &&& (r is Ok <==> cm.1)
                }))
                &&& (spec_normalize(other_path@) is Some && spec_normalize(self_path@) is Some
                    && is_file_at(other_fs.model(), oc) && is_file_at(old(self)@, sc) ==> (
                r matches Err(XfsError::AlreadyExists { path }) && path@ == self_path@))
                &&& (spec_normalize(other_path@) is Some && spec_normalize(self_path@) is Some
                    && is_dir_at(other_fs.model(), oc) && is_file_at(old(self)@, sc)
                    ==> r matches Err(XfsError::GeneralError { .. }))
                &&& (r is Ok && spec_normalize(other_path@) is Some && spec_normalize(self_path@)
                    is Some && is_dir_at(other_fs.model(), oc) ==> is_dir_at(final(self)@, sc))
            }),
        decreases eheight(lookup_at(other_fs.model(), spec_normalize(other_path@)->Some_0)->Some_0),
    {
        let ghost om = other_fs.model();
        let md = match other_fs.metadata(other_path) {
            Ok(md) => md,
            Err(e) => {
                return Err(e);
            },
        };
        let ghost oc = spec_normalize(other_path@)->Some_0;
        let ghost src = lookup_at(om, oc)->Some_0;
        if md.is_file {
            assert(src matches EntryModel::File { .. });
            let ghost cm = copy_model(old(self)@, spec_normalize(self_path@)->Some_0, oc.last(), src);
            let self_md = self.metadata(self_path);
            let dest_owned: String;
            match self_md {
                Ok(smd) => {
                    if smd.is_dir {
                        // Retarget the write beneath the existing directory,
                        // under the source's final name.
                        let ocomps = match normalize_path(other_path) {
                            Ok(cc) => cc,
                            Err(e) => {
                                proof {
                                    assert(false);
                                }
                                return Err(e);
                            },
                        };
                        if ocomps.len() == 0 {
                            // A file source always has a final name: only
                            // the root has none, and the root is a
                            // directory.
                            proof {
                                assert(false);
                            }
                            return Err(XfsError::GeneralError {
                                message: "copy source has no name".to_owned(),
                            });
                        }
                        let name = &ocomps[ocomps.len() - 1];
                        proof {
                            assert(ocomps.deep_view() == oc);
                            assert(ocomps.deep_view()[ocomps@.len() - 1] == name@);
                            assert(name@ == oc.last());
                            lemma_normalize_join(self_path@, oc.last());
                        }
                        dest_owned = join_path(self_path, name.as_str());
                    } else {
                        // The destination already exists as a file.
                        return Err(XfsError::AlreadyExists { path: self_path.to_owned() });
                    }
                },
                Err(e2) => {
                    dest_owned = self_path.to_owned();
                },
            }
            let mut rd = match other_fs.reader(other_path) {
                Ok(rd) => rd,
                Err(e) => {
                    proof {
                        assert(false);
                    }
                    return Err(e);
                },
            };
            let bytes = rd.read_to_end();
            proof {
                assert(rd.data@.skip(0) =~= rd.data@);
                assert(bytes@ == src->File_data);
            }
            let ghost pre = self@;
            let rr = self.write_file(dest_owned.as_str(), bytes.as_slice());
            proof {
                let sc = spec_normalize(self_path@)->Some_0;
                let dc = spec_normalize(dest_owned@)->Some_0;
                if spec_normalize(self_path@) is Some {
                    // The write step is exactly the model's file step.
                    if is_dir_at(pre, sc) {
                        assert(dc == sc.push(oc.last()));
                        assert(cm == put_new_file(pre, sc.push(oc.last()), src->File_data));
                    } else {
                        assert(dest_owned@ == self_path@);
                        assert(cm == put_new_file(pre, sc, src->File_data));
                    }
                    if rr is Ok {
                        assert(self@ == cm.0 && cm.1);
                    } else {
                        assert(self@ == pre);
                        assert(!(put_new_file(pre, dc, src->File_data).1));
                        assert(!cm.1);
                    }
                }
                if rr is Ok {
                    assert forall|q: Seq<Seq<char>>| #[trigger] is_dir_at(pre, q) implies is_dir_at(
                        self@,
                        q,
                    ) by {
                        lemma_tree_put_preserves_dirs(
                            pre,
                            spec_normalize(dest_owned@)->Some_0,
                            EntryModel::File { data: bytes@ },
                            q,
                        );
                    }
                }
            }
            match rr {
                Ok(()) => Ok(()),
                Err(e) => Err(e),
            }
        } else {
            assert(src matches EntryModel::Dir { .. });
            let ghost cm = copy_model(old(self)@, spec_normalize(self_path@)->Some_0, oc.last(), src);
            let self_md = self.metadata(self_path);
            match self_md {
                Ok(smd) => {
                    if !smd.is_dir {
                        // The destination already exists as a file; a
                        // directory cannot replace it.
                        assert(spec_normalize(self_path@) is Some && !cm.1 && cm.0 == self@);
                        return Err(XfsError::GeneralError {
                            message: "copy target exists as a file".to_owned(),
                        });
                    }
                },
                Err(e2) => {
                    let ghost pre = self@;
                    match self.create_dir(self_path) {
                        Ok(()) => {
                            proof {
                                let sc = spec_normalize(self_path@)->Some_0;
                                lemma_tree_put_same(pre, sc, empty_dir());
                                assert(put_new_dir(pre, sc) == (self@, true));
                                assert forall|q: Seq<Seq<char>>| #[trigger] is_dir_at(
                                    pre,
                                    q,
                                ) implies is_dir_at(self@, q) by {
                                    lemma_tree_put_preserves_dirs(pre, sc, empty_dir(), q);
                                }
                            }
                        },
                        Err(e) => {
                            proof {
                                if spec_normalize(self_path@) is Some {
                                    let sc = spec_normalize(self_path@)->Some_0;
                                    assert(!(put_new_dir(pre, sc).1));
                                    assert(!cm.1 && cm.0 == self@);
                                }
                            }
                            return Err(e);
                        },
                    }
                },
            }
            let ghost d1m = self@;
            let entries = match other_fs.read_dir(other_path) {
                Ok(v) => v,
                Err(e) => {
                    proof {
                        assert(false);
                    }
                    return Err(e);
                },
            };
            let ghost dirm = lookup_at(om, oc)->Some_0;
            let ghost kids = dirm->Dir_children;
            proof {
                let sc = spec_normalize(self_path@)->Some_0;
                assert(cm == copy_children(d1m, sc, kids));
                assert(kids.skip(0) =~= kids);
            }
            let n = entries.len();
            let mut i: usize = 0;
            while i < n
                invariant
                    i <= n,
                    self.wf(),
                    entry_wf(om),
                    om matches EntryModel::Dir { .. },
                    om == other_fs.model(),
                    spec_normalize(other_path@) == Option::Some(oc),
                    lookup_at(om, oc) == Option::Some(dirm),
                    dirm matches EntryModel::Dir { .. },
                    kids == dirm->Dir_children,
                    n == entries@.len(),
                    n == kids.len(),
                    forall|j: int| 0 <= j < n ==> (#[trigger] entries@[j].name)@ == kids[j].0,
                    spec_normalize(self_path@) is Some,
                    is_dir_at(self@, spec_normalize(self_path@)->Some_0),
                    forall|q: Seq<Seq<char>>|
                        #[trigger] is_dir_at(old(self)@, q) ==> is_dir_at(self@, q),
                    cm == copy_model(
                        old(self)@,
                        spec_normalize(self_path@)->Some_0,
                        oc.last(),
                        EntryModel::Dir { children: kids },
                    ),
                    cm.0 == copy_children(
                        self@,
                        spec_normalize(self_path@)->Some_0,
                        kids.skip(i as int),
                    ).0,
                    cm.1 == copy_children(
                        self@,
                        spec_normalize(self_path@)->Some_0,
                        kids.skip(i as int),
                    ).1,
                decreases n - i,
            {
                let name = &entries[i].name;
                let child_src = join_path(other_path, name.as_str());
                let child_dst = join_path(self_path, name.as_str());
                let ghost sc = spec_normalize(self_path@)->Some_0;
                proof {
                    lemma_lookup_wf(om, oc);
                    lemma_children_wf_index(kids, i as int);
                    lemma_normalize_join(other_path@, kids[i as int].0);
                    lemma_normalize_join(self_path@, kids[i as int].0);
                    assert(oc.push(kids[i as int].0) =~= oc + seq![kids[i as int].0]);
                    lemma_walk_append(om, oc, seq![kids[i as int].0]);
                    assert(seq![kids[i as int].0][0] == kids[i as int].0);
                    assert(seq![kids[i as int].0].drop_first() =~= Seq::<Seq<char>>::empty());
                    assert forall|j: int| 0 <= j < i implies (#[trigger] kids[j].0) != kids[
                        i as int
                    ].0 by {
                        lemma_lex_lt_irrefl(kids[i as int].0);
                    }
                    lemma_child_at_from_index(kids, kids[i as int].0, i as int);
                    assert(dirm == (EntryModel::Dir { children: kids }));
                    assert(walk_at(om, oc) == WalkOutcome::Found(dirm));
                    assert(walk_at(kids[i as int].1, seq![kids[i as int].0].drop_first())
                        == WalkOutcome::Found(kids[i as int].1));
                    assert(walk_at(dirm, seq![kids[i as int].0]) == WalkOutcome::Found(
                        kids[i as int].1,
                    ));
                    assert(lookup_at(om, oc.push(kids[i as int].0)) == Option::Some(
                        kids[i as int].1,
                    ));
                    assert(oc.push(kids[i as int].0).last() == kids[i as int].0);
                    lemma_child_height(kids, i as int);
                    assert(eheight(kids[i as int].1) < eheight(dirm));
                    assert(kids.skip(i as int)[0] == kids[i as int]);
                }
                let ghost pre = self@;
                let step = self.copy_recursive(other_fs, child_src.as_str(), child_dst.as_str());
                proof {
                    // The recursive call is exactly one child step of the
                    // model's fold.
                    let kid_cm = copy_model(
                        pre,
                        sc.push(kids[i as int].0),
                        kids[i as int].0,
                        kids[i as int].1,
                    );
                    assert(self@ == kid_cm.0);
                    assert(step is Ok <==> kid_cm.1);
                    assert(is_dir_at(self@, sc)) by {
                        assert(is_dir_at(pre, sc));
                    }
                    assert forall|q: Seq<Seq<char>>| #[trigger] is_dir_at(
                        old(self)@,
                        q,
                    ) implies is_dir_at(self@, q) by {
                        assert(is_dir_at(pre, q));
                    }
                    assert(kids.skip(i as int).drop_first() =~= kids.skip(i + 1));
                }
                match step {
                    Ok(()) => {},
                    Err(e) => {
                        assert(!cm.1 && cm.0 == self@);
                        return Err(e);
                    },
                }
                i = i + 1;
            }
            proof {
                assert(kids.skip(n as int).len() == 0);
                assert(cm.0 == self@ && cm.1);
            }
            Ok(())
        }
    }
}

/// The rendering of one entry in the tree listing: the prefix, the name,
/// then either a directory marker and the children one level deeper, or
/// the file's text (or a marker for non-UTF-8 contents).
pub open spec fn render_entry(name: Seq<char>, m: EntryModel, prefix: Seq<char>) -> Seq<char>
    decreases m,
{
    match m {
        EntryModel::Dir { children } => prefix + name + ("/\n")@ + render_children(
            children,
            ("  ")@ + prefix,
        ),
        EntryModel::File { data } => prefix + name + (" => ")@ + (if vstd::utf8::valid_utf8(data) {
            vstd::utf8::decode_utf8(data)
        } else {
            ("(binary)")@
        }) + ("\n")@,
    }
}

/// The renderings of a directory's children, in order.
pub open spec fn render_children(cs: Seq<(Seq<char>, EntryModel)>, prefix: Seq<char>) -> Seq<char>
    decreases cs,
{
    if cs.len() == 0 {
        Seq::empty()
    } else {
        render_children(cs.drop_last(), prefix) + render_entry(cs.last().0, cs.last().1, prefix)
    }
}

/// Renders one subtree.
fn tree_(name: &str, e: &MockFSEntry, prefix: &str) -> (r: String)
    ensures
        r@ == render_entry(name@, e@, prefix@),
    decreases eheight(e@),
{
    match e {
        MockFSEntry::File(f) => {
            let mut s = prefix.to_owned();
            s.append(name);
            s.append(" => ");
            match utf8_to_str(&f.contents) {
                Some(t) => s.append(t),
                None => s.append("(binary)"),
            }
            s.append("\n");
            s
        },
        MockFSEntry::Directory(d) => {
            let ghost csm = children_model(d.entries@);
            let mut s = prefix.to_owned();
            s.append(name);
            s.append("/\n");
            let ghost base = s@;
            let mut child_prefix = "  ".to_owned();
            child_prefix.append(prefix);
            proof {
                lemma_children_model_len(d.entries@);
                assert(csm.take(0) =~= Seq::<(Seq<char>, EntryModel)>::empty());
                assert(base + render_children(csm.take(0), child_prefix@) =~= base);
            }
            let n = d.entries.len();
            let mut i: usize = 0;
            while i < n
                invariant
                    i <= n,
                    n == d.entries@.len(),
                    csm == children_model(d.entries@),
                    csm.len() == n,
                    e@ == (EntryModel::Dir { children: csm }),
                    child_prefix@ == ("  ")@ + prefix@,
                    s@ == base + render_children(csm.take(i as int), child_prefix@),
                decreases n - i,
            {
                proof {
                    lemma_children_model_index(d.entries@, i as int);
                    lemma_child_height(csm, i as int);
                }
                let sub = tree_(d.entries[i].0.as_str(), &d.entries[i].1, child_prefix.as_str());
                let ghost s0 = s@;
                s.append(sub.as_str());
                proof {
                    assert(csm.take(i + 1).drop_last() =~= csm.take(i as int));
                    assert(csm.take(i + 1).last() == csm[i as int]);
                    assert(render_children(csm.take(i + 1), child_prefix@) == render_children(
                        csm.take(i as int),
                        child_prefix@,
                    ) + render_entry(csm[i as int].0, csm[i as int].1, child_prefix@));
                    assert(s@ =~= base + render_children(csm.take(i + 1), child_prefix@));
                }
                i = i + 1;
            }
            proof {
                assert(csm.take(n as int) =~= csm);
            }
            s
        },
    }
}

impl MockFS {
    /// Renders the whole tree as an indented listing, for inspection: one
    /// line per entry, directories marked with a trailing separator, file
    /// contents shown as text where they decode.
    pub fn tree(&self) -> (r: String)
        requires
            self.wf(),
        ensures
            r@ == render_entry(Seq::empty(), self@, Seq::empty()),
    {
        proof {
            assert(("")@ =~= Seq::<char>::empty()) by {
                reveal_strlit("");
            }
        }
        tree_("", &self.root, "")
    }
}

impl crate::XfsMetadata for MockMetadata {
    open spec fn spec_is_dir(&self) -> bool {
        self.is_dir
    }

    open spec fn spec_is_file(&self) -> bool {
        self.is_file
    }

    fn is_dir(&self) -> (r: bool) {
        self.is_dir
    }

    fn is_file(&self) -> (r: bool) {
        self.is_file
    }
}

impl crate::XfsDirEntry for MockDirEntry {
    open spec fn spec_path(&self) -> Seq<char> {
        self.path@
    }

    fn path(&self) -> (r: String) {
        self.path.clone()
    }

    fn metadata(&self) -> Result<MockMetadata, XfsError> {
        Ok(self.metadata)
    }
}

impl crate::XfsReadOnly for MockFS {
    open spec fn model(&self) -> EntryModel {
        self@
    }

    fn metadata(&self, p: &str) -> (r: Result<MockMetadata, XfsError>) {
        MockFS::metadata(self, p)
    }

    fn path_exists(&self, p: &str) -> (r: bool) {
        MockFS::path_exists(self, p)
    }

    fn is_dir(&self, p: &str) -> (r: bool) {
        MockFS::is_dir(self, p)
    }

    fn is_file(&self, p: &str) -> (r: bool) {
        MockFS::is_file(self, p)
    }

    fn read_dir(&self, p: &str) -> (r: Result<Vec<MockDirEntry>, XfsError>) {
        MockFS::read_dir(self, p)
    }

    fn read_all_lines(&self, p: &str) -> (r: Result<Vec<String>, XfsError>) {
        MockFS::read_all_lines(self, p)
    }

    fn reader(&self, p: &str) -> (r: Result<MockReader, XfsError>) {
        MockFS::reader(self, p)
    }
}

impl crate::Xfs for MockFS {
    fn write_file(&mut self, p: &str, contents: &[u8]) -> (r: Result<(), XfsError>) {
        MockFS::write_file(self, p, contents)
    }

    fn create_dir(&mut self, p: &str) -> (r: Result<(), XfsError>) {
        MockFS::create_dir(self, p)
    }

    fn create_dir_all(&mut self, p: &str) -> (r: Result<(), XfsError>) {
        MockFS::create_dir_all(self, p)
    }

    fn remove_file(&mut self, p: &str) -> (r: Result<(), XfsError>) {
        MockFS::remove_file(self, p)
    }

    fn remove_dir_all(&mut self, p: &str) -> (r: Result<(), XfsError>) {
        MockFS::remove_dir_all(self, p)
    }

    fn rename(&mut self, from: &str, to: &str) -> (r: Result<(), XfsError>) {
        MockFS::rename(self, from, to)
    }
}

impl Default for MockFS {
    /// An empty filesystem.
    fn default() -> (r: Self)
        ensures
            r@ == empty_dir(),
            r.wf(),
    {
        MockFS::new()
    }
}

} // verus!
