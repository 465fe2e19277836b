//! The laws the engine obeys, stated over the same ghost model that the
//! operations' contracts use, and proved from the lemmas in `crate::model`.
//!
//! The idempotence of path normalization is stated beside the normalizer,
//! in `crate::path::lemma_normalize_idempotent`.

use crate::model::{
    dirs_make, dirs_ok, entry_wf, is_dir_at, is_prefix_of, lemma_dirs_make_is_dir,
    lemma_lookup_none_extends, lemma_lookup_wf, lemma_tree_del_frame, lemma_tree_del_prefix_dir,
    lemma_tree_del_same, lemma_tree_del_wf, lemma_tree_put_frame, lemma_tree_put_prefix_dir, lemma_tree_put_same,
    lemma_tree_put_wf, lookup_at, tree_del, tree_put, valid_comps, walk_at, EntryModel,
    WalkOutcome,
};
use vstd::prelude::*;

verus! {

/// After a successful `create_dir_all`, the path and every ancestor of it
/// denote directories: `is_dir` holds of each prefix of the created path.
pub proof fn law_create_dir_all_ancestors(m: EntryModel, c: Seq<Seq<char>>, k: int)
    requires
        entry_wf(m),
        m matches EntryModel::Dir { .. },
        dirs_ok(m, c),
        0 <= k <= c.len(),
    ensures
        is_dir_at(dirs_make(m, c), c.take(k)),
{
    lemma_dirs_make_is_dir(m, c, k);
}

/// Opening a writer (which binds a fresh empty file) and then writing the
/// bytes `b` leaves exactly `b` readable at that path: what `reader` or
/// `get` then sees is `b`.
pub proof fn law_write_read_round_trip(m: EntryModel, c: Seq<Seq<char>>, b: Seq<u8>)
    requires
        entry_wf(m),
        valid_comps(c),
        c.len() > 0,
        walk_at(m, c.drop_last()) matches WalkOutcome::Found(EntryModel::Dir { .. }),
    ensures
        ({
            let opened = tree_put(m, c, (EntryModel::File { data: Seq::empty() }));
            let written = tree_put(opened, c, (EntryModel::File { data: Seq::empty() + b }));
            lookup_at(written, c) == Option::Some((EntryModel::File { data: b }))
        }),
{
    let empty_file = EntryModel::File { data: Seq::empty() };
    let opened = tree_put(m, c, empty_file);
    lemma_tree_put_wf(m, c, empty_file);
    if c.len() == 1 {
        assert(c.drop_last() =~= Seq::<Seq<char>>::empty());
        assert(walk_at(opened, c.drop_last()) == WalkOutcome::Found(opened));
        assert(opened matches EntryModel::Dir { .. }) by {
            assert(m matches EntryModel::Dir { .. });
        }
    } else {
        lemma_tree_put_prefix_dir(m, c, empty_file, c.drop_last());
    }
    lemma_tree_put_same(opened, c, EntryModel::File { data: Seq::empty() + b });
    assert(Seq::empty() + b =~= b);
}

/// After `rename(a, b)` on distinct, non-nested paths, `a` no longer
/// resolves and `b` denotes exactly the entry that was at `a`, contents
/// included.
pub proof fn law_rename_moves(m: EntryModel, fc: Seq<Seq<char>>, tc: Seq<Seq<char>>)
    requires
        entry_wf(m),
        fc.len() > 0,
        tc.len() > 0,
        lookup_at(m, fc) is Some,
        is_dir_at(m, tc.drop_last()),
        !is_prefix_of(fc, tc),
        !is_prefix_of(tc, fc),
    ensures
        ({
            let x = lookup_at(m, fc)->Some_0;
            let moved = tree_put(tree_del(m, fc), tc, x);
            &&& lookup_at(moved, fc) is None
            &&& lookup_at(moved, tc) == Option::Some(x)
        }),
{
    let x = lookup_at(m, fc)->Some_0;
    let m1 = tree_del(m, fc);
    lemma_tree_del_wf(m, fc);
    lemma_lookup_wf(m, fc);
    lemma_tree_del_same(m, fc);
    let tp = tc.drop_last();
    if is_prefix_of(tp, fc) {
        if tp.len() == fc.len() {
            assert(tp =~= fc.take(tp.len() as int));
            assert(tp =~= fc);
            assert(is_prefix_of(fc, tc)) by {
                assert(fc =~= tc.take(fc.len() as int));
            }
            assert(false);
        } else {
            lemma_tree_del_prefix_dir(m, fc, tp);
        }
    } else {
        if is_prefix_of(fc, tp) {
            assert(fc =~= tp.take(fc.len() as int));
            assert(tp =~= tc.take(tp.len() as int));
            assert(is_prefix_of(fc, tc)) by {
                assert(fc =~= tc.take(fc.len() as int));
            }
            assert(false);
        }
        lemma_tree_del_frame(m, fc, tp);
    }
    assert(is_dir_at(m1, tp));
    lemma_tree_put_same(m1, tc, x);
    lemma_tree_put_frame(m1, tc, x, fc);
}

/// After `remove_dir_all(d)`, neither `d` nor any path beneath it
/// resolves: `exists` is false for the directory and its whole subtree.
pub proof fn law_remove_dir_all_subtree(m: EntryModel, c: Seq<Seq<char>>, q: Seq<Seq<char>>)
    requires
        entry_wf(m),
        c.len() > 0,
        is_prefix_of(c, q),
    ensures
        lookup_at(tree_del(m, c), q) is None,
{
    lemma_tree_del_same(m, c);
    lemma_lookup_none_extends(tree_del(m, c), c, q);
}

/// `copy_recursive` into an absent destination beneath an existing
/// directory succeeds and mirrors the source exactly: the destination then
/// denotes the source entry itself, and every relative path beneath the
/// destination resolves to whatever it resolves to beneath the source,
/// file contents included.
pub proof fn law_copy_mirrors_source(
    dst: EntryModel,
    sc: Seq<Seq<char>>,
    name: Seq<char>,
    src: EntryModel,
)
    requires
        entry_wf(dst),
        entry_wf(src),
        valid_comps(sc),
        sc.len() > 0,
        walk_at(dst, sc.drop_last()) matches WalkOutcome::Found(EntryModel::Dir { .. }),
        lookup_at(dst, sc) is None,
    ensures
        crate::mockfs::copy_model(dst, sc, name, src).1,
        lookup_at(crate::mockfs::copy_model(dst, sc, name, src).0, sc) == Option::Some(src),
        forall|q: Seq<Seq<char>>|
            #[trigger] lookup_at(crate::mockfs::copy_model(dst, sc, name, src).0, sc + q)
                == lookup_at(src, q),
{
    crate::mockfs::lemma_copy_model_fresh(dst, sc, name, src);
    lemma_tree_put_same(dst, sc, src);
    assert forall|q: Seq<Seq<char>>|
        #[trigger] lookup_at(crate::mockfs::copy_model(dst, sc, name, src).0, sc + q) == lookup_at(
        src,
        q,
    ) by {
        crate::model::lemma_tree_put_extend(dst, sc, src, q);
    }
}

/// A directory never contains two children with the same name: in any
/// well-formed directory, distinct child indices carry distinct names.
pub proof fn law_child_names_unique(cs: Seq<(Seq<char>, EntryModel)>, i: int, j: int)
    requires
        crate::model::sorted_names(cs),
        0 <= i < cs.len(),
        0 <= j < cs.len(),
        i != j,
    ensures
        cs[i].0 != cs[j].0,
{
    if i < j {
        crate::model::lemma_lex_lt_irrefl(cs[i].0);
    } else {
        crate::model::lemma_lex_lt_irrefl(cs[j].0);
    }
}

} // verus!
