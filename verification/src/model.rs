//! The ghost model of the filesystem tree, and the specification-level
//! operations and lemmas that every executable operation is verified against.
//!
//! A tree is an [`EntryModel`]: a directory with a name-sorted sequence of
//! child entries, or a file holding bytes. Paths act on the tree as sequences
//! of name components (see `crate::path` for how strings become components).

use vstd::prelude::*;

verus! {

/// Ghost model of one entry of the tree: a directory with named children,
/// kept in strictly ascending name order, or a file holding a byte buffer.
pub enum EntryModel {
    Dir { children: Seq<(Seq<char>, EntryModel)> },
    File { data: Seq<u8> },
}

/// The model of a freshly created, empty directory.
pub open spec fn empty_dir() -> EntryModel {
    EntryModel::Dir { children: Seq::empty() }
}

/// Strict lexicographic order on names by Unicode code point, which for
/// UTF-8 encoded names coincides with bytewise order.
pub open spec fn lex_lt(a: Seq<char>, b: Seq<char>) -> bool
    decreases a.len(),
{
    if b.len() == 0 {
        false
    } else if a.len() == 0 {
        true
    } else if a[0] == b[0] {
        lex_lt(a.drop_first(), b.drop_first())
    } else {
        (a[0] as u32) < (b[0] as u32)
    }
}

/// A name that may be bound in a directory: non-empty, not `.` or `..`,
/// and free of path separators.
pub open spec fn valid_name(n: Seq<char>) -> bool {
    &&& n.len() > 0
    &&& !(n.len() == 1 && n[0] == '.')
    &&& !(n.len() == 2 && n[0] == '.' && n[1] == '.')
    &&& forall|i: int| 0 <= i < n.len() ==> n[i] != '/'
}

/// The children of a directory are strictly sorted by name; in particular
/// no name is bound twice.
pub open spec fn sorted_names(cs: Seq<(Seq<char>, EntryModel)>) -> bool {
    forall|i: int, j: int| 0 <= i < j < cs.len() ==> lex_lt(#[trigger] cs[i].0, #[trigger] cs[j].0)
}

/// Looks a name up among the children of a directory.
pub open spec fn child_at(cs: Seq<(Seq<char>, EntryModel)>, n: Seq<char>) -> Option<EntryModel>
    decreases cs.len(),
{
    if cs.len() == 0 {
        Option::None
    } else if cs[0].0 == n {
        Option::Some(cs[0].1)
    } else {
        child_at(cs.drop_first(), n)
    }
}

/// Binds a name among the children of a directory, replacing any existing
/// binding and keeping the children sorted.
pub open spec fn child_put(
    cs: Seq<(Seq<char>, EntryModel)>,
    n: Seq<char>,
    v: EntryModel,
) -> Seq<(Seq<char>, EntryModel)>
    decreases cs.len(),
{
    if cs.len() == 0 {
        seq![(n, v)]
    } else if lex_lt(n, cs[0].0) {
        seq![(n, v)] + cs
    } else if cs[0].0 == n {
        seq![(n, v)] + cs.drop_first()
    } else {
        seq![cs[0]] + child_put(cs.drop_first(), n, v)
    }
}

/// Unbinds a name among the children of a directory.
pub open spec fn child_del(
    cs: Seq<(Seq<char>, EntryModel)>,
    n: Seq<char>,
) -> Seq<(Seq<char>, EntryModel)>
    decreases cs.len(),
{
    if cs.len() == 0 {
        cs
    } else if cs[0].0 == n {
        cs.drop_first()
    } else {
        seq![cs[0]] + child_del(cs.drop_first(), n)
    }
}

/// Well-formedness of a tree: every directory has sorted, valid child names,
/// and every child is itself well-formed.
pub open spec fn entry_wf(m: EntryModel) -> bool
    decreases m,
{
    match m {
        EntryModel::Dir { children } => {
            &&& sorted_names(children)
            &&& children_wf(children)
        },
        EntryModel::File { data } => true,
    }
}

/// Well-formedness of a child sequence: valid names, well-formed subtrees.
pub open spec fn children_wf(cs: Seq<(Seq<char>, EntryModel)>) -> bool
    decreases cs,
{
    if cs.len() == 0 {
        true
    } else {
        valid_name(cs[0].0) && entry_wf(cs[0].1) && children_wf(cs.drop_first())
    }
}

// ---------------------------------------------------------------------------
// Path-level resolution
// ---------------------------------------------------------------------------

/// The outcome of walking a component sequence down a tree.
pub enum WalkOutcome {
    /// Every component resolved; the payload is the entry denoted.
    Found(EntryModel),
    /// Some component was not bound in the directory reached.
    MissingEntry,
    /// A non-final step reached a file instead of a directory.
    FileInTheWay,
}

/// Walks a component sequence down a tree, distinguishing the two ways a
/// walk can fail.
pub open spec fn walk_at(m: EntryModel, c: Seq<Seq<char>>) -> WalkOutcome
    decreases c.len(),
{
    if c.len() == 0 {
        WalkOutcome::Found(m)
    } else {
        match m {
            EntryModel::File { data } => WalkOutcome::FileInTheWay,
            EntryModel::Dir { children } => match child_at(children, c[0]) {
                Option::None => WalkOutcome::MissingEntry,
                Option::Some(e) => walk_at(e, c.drop_first()),
            },
        }
    }
}

/// The entry a component sequence denotes, if it resolves.
pub open spec fn lookup_at(m: EntryModel, c: Seq<Seq<char>>) -> Option<EntryModel> {
    match walk_at(m, c) {
        WalkOutcome::Found(e) => Option::Some(e),
        _ => Option::None,
    }
}

/// True when the components denote an entry.
pub open spec fn exists_at(m: EntryModel, c: Seq<Seq<char>>) -> bool {
    lookup_at(m, c) is Some
}

/// True when the components denote a directory.
pub open spec fn is_dir_at(m: EntryModel, c: Seq<Seq<char>>) -> bool {
    lookup_at(m, c) matches Option::Some(EntryModel::Dir { .. })
}

/// True when the components denote a file.
pub open spec fn is_file_at(m: EntryModel, c: Seq<Seq<char>>) -> bool {
    lookup_at(m, c) matches Option::Some(EntryModel::File { .. })
}

/// True when the components name an entry whose parent exists as a
/// directory; such a path can be bound or unbound in one step.
pub open spec fn parent_is_dir_at(m: EntryModel, c: Seq<Seq<char>>) -> bool {
    c.len() > 0 && is_dir_at(m, c.drop_last())
}

/// One component sequence is a (not necessarily proper) prefix of another.
pub open spec fn is_prefix_of(a: Seq<Seq<char>>, b: Seq<Seq<char>>) -> bool {
    a.len() <= b.len() && a =~= b.take(a.len() as int)
}

// ---------------------------------------------------------------------------
// Path-level mutation
// ---------------------------------------------------------------------------

/// Binds `v` at the components `c`, replacing any entry already there.
/// Leaves the tree unchanged when the parent path does not resolve to a
/// directory, and when `c` is empty (the root cannot be replaced).
pub open spec fn tree_put(m: EntryModel, c: Seq<Seq<char>>, v: EntryModel) -> EntryModel
    decreases c.len(),
{
    if c.len() == 0 {
        m
    } else {
        match m {
            EntryModel::File { data } => m,
            EntryModel::Dir { children } => {
                if c.len() == 1 {
                    EntryModel::Dir { children: child_put(children, c[0], v) }
                } else {
                    match child_at(children, c[0]) {
                        Option::None => m,
                        Option::Some(e) => EntryModel::Dir {
                            children: child_put(children, c[0], tree_put(e, c.drop_first(), v)),
                        },
                    }
                }
            },
        }
    }
}

/// Unbinds the entry at the components `c`. Leaves the tree unchanged when
/// the path does not reach into an existing directory, and when `c` is empty
/// (the root cannot be removed).
pub open spec fn tree_del(m: EntryModel, c: Seq<Seq<char>>) -> EntryModel
    decreases c.len(),
{
    if c.len() == 0 {
        m
    } else {
        match m {
            EntryModel::File { data } => m,
            EntryModel::Dir { children } => {
                if c.len() == 1 {
                    EntryModel::Dir { children: child_del(children, c[0]) }
                } else {
                    match child_at(children, c[0]) {
                        Option::None => m,
                        Option::Some(e) => EntryModel::Dir {
                            children: child_put(children, c[0], tree_del(e, c.drop_first())),
                        },
                    }
                }
            },
        }
    }
}

/// The tree after idempotently creating every missing directory along `c`,
/// stopping (and leaving the partial state) where a component exists as a
/// file.
pub open spec fn dirs_make(m: EntryModel, c: Seq<Seq<char>>) -> EntryModel
    decreases c.len(),
{
    if c.len() == 0 {
        m
    } else {
        match m {
            EntryModel::File { data } => m,
            EntryModel::Dir { children } => match child_at(children, c[0]) {
                Option::Some(EntryModel::File { data }) => m,
                Option::Some(EntryModel::Dir { children: sub }) => EntryModel::Dir {
                    children: child_put(
                        children,
                        c[0],
                        dirs_make(EntryModel::Dir { children: sub }, c.drop_first()),
                    ),
                },
                Option::None => EntryModel::Dir {
                    children: child_put(children, c[0], dirs_make(empty_dir(), c.drop_first())),
                },
            },
        }
    }
}

/// True when idempotent directory creation along `c` succeeds: no component
/// of `c` is already bound to a file.
pub open spec fn dirs_ok(m: EntryModel, c: Seq<Seq<char>>) -> bool
    decreases c.len(),
{
    if c.len() == 0 {
        true
    } else {
        match m {
            EntryModel::File { data } => false,
            EntryModel::Dir { children } => match child_at(children, c[0]) {
                Option::Some(EntryModel::File { data }) => false,
                Option::Some(EntryModel::Dir { children: sub }) => dirs_ok(
                    EntryModel::Dir { children: sub },
                    c.drop_first(),
                ),
                Option::None => true,
            },
        }
    }
}

/// Every component of a sequence is a valid name.
pub open spec fn valid_comps(c: Seq<Seq<char>>) -> bool {
    forall|i: int| 0 <= i < c.len() ==> valid_name(#[trigger] c[i])
}

/// Directory creation inside a fresh, empty directory always succeeds.
pub proof fn lemma_dirs_ok_empty(c: Seq<Seq<char>>)
    ensures
        dirs_ok(empty_dir(), c),
    decreases c.len(),
{
    if c.len() > 0 {
        assert(child_at(Seq::<(Seq<char>, EntryModel)>::empty(), c[0]) is None);
    }
}

/// The final name of a path whose ancestors were just created inside a
/// fresh, empty directory is still unbound.
pub proof fn lemma_dirs_make_fresh_unbound(c: Seq<Seq<char>>)
    requires
        c.len() > 0,
    ensures
        lookup_at(dirs_make(empty_dir(), c.drop_last()), c) is None,
    decreases c.len(),
{
    let p = c.drop_last();
    if c.len() == 1 {
        assert(p.len() == 0);
        assert(dirs_make(empty_dir(), p) == empty_dir());
        assert(child_at(Seq::<(Seq<char>, EntryModel)>::empty(), c[0]) is None);
    } else {
        assert(p.len() > 0);
        assert(p[0] == c[0]);
        let sub = dirs_make(empty_dir(), p.drop_first());
        assert(child_at(Seq::<(Seq<char>, EntryModel)>::empty(), p[0]) is None);
        assert(dirs_make(empty_dir(), p) == EntryModel::Dir {
            children: child_put(Seq::empty(), p[0], sub),
        });
        lemma_child_put_at(Seq::empty(), p[0], sub, c[0]);
        assert(c.drop_first().drop_last() =~= p.drop_first());
        lemma_dirs_make_fresh_unbound(c.drop_first());
    }
}

// ---------------------------------------------------------------------------
// Heights, for termination of tree recursion
// ---------------------------------------------------------------------------

/// The height of a tree: 1 for a file or an empty directory, one more than
/// the tallest child otherwise.
pub open spec fn eheight(m: EntryModel) -> nat
    decreases m,
{
    match m {
        EntryModel::Dir { children } => 1nat + child_heights_max(children),
        EntryModel::File { data } => 1nat,
    }
}

/// The tallest height among a sequence of children.
pub open spec fn child_heights_max(cs: Seq<(Seq<char>, EntryModel)>) -> nat
    decreases cs,
{
    if cs.len() == 0 {
        0nat
    } else {
        let h0 = eheight(cs[0].1);
        let hr = child_heights_max(cs.drop_first());
        if h0 > hr {
            h0
        } else {
            hr
        }
    }
}

// ---------------------------------------------------------------------------
// Order lemmas
// ---------------------------------------------------------------------------

/// The name order is irreflexive.
pub proof fn lemma_lex_lt_irrefl(a: Seq<char>)
    ensures
        !lex_lt(a, a),
    decreases a.len(),
{
    if a.len() > 0 {
        lemma_lex_lt_irrefl(a.drop_first());
    }
}

/// The name order is transitive.
pub proof fn lemma_lex_lt_trans(a: Seq<char>, b: Seq<char>, c: Seq<char>)
    requires
        lex_lt(a, b),
        lex_lt(b, c),
    ensures
        lex_lt(a, c),
    decreases a.len(),
{
    if a.len() > 0 && b.len() > 0 && c.len() > 0 && a[0] == b[0] && b[0] == c[0] {
        lemma_lex_lt_trans(a.drop_first(), b.drop_first(), c.drop_first());
    }
}

/// Two names neither of which precedes the other are equal.
pub proof fn lemma_lex_lt_connected(a: Seq<char>, b: Seq<char>)
    requires
        !lex_lt(a, b),
        !lex_lt(b, a),
    ensures
        a == b,
    decreases a.len(),
{
    if a.len() == 0 {
        assert(b.len() == 0);
        assert(a =~= b);
    } else {
        assert(b.len() > 0);
        if a[0] == b[0] {
            lemma_lex_lt_connected(a.drop_first(), b.drop_first());
            assert(a =~= seq![a[0]] + a.drop_first());
            assert(b =~= seq![b[0]] + b.drop_first());
        } else {
            assert((a[0] as u32) >= (b[0] as u32) && (b[0] as u32) >= (a[0] as u32));
            assert(a[0] == b[0]) by {
                vstd::utf8::char_u32_cast(a[0], a[0] as u32);
                vstd::utf8::char_u32_cast(b[0], a[0] as u32);
            }
        }
    }
}

// ---------------------------------------------------------------------------
// Child-sequence lemmas
// ---------------------------------------------------------------------------

/// Characterizes lookup among children by index: a hit names the first
/// matching index, a miss means no index matches.
pub proof fn lemma_child_at_index(cs: Seq<(Seq<char>, EntryModel)>, n: Seq<char>)
    ensures
        match child_at(cs, n) {
            Option::None => forall|i: int| 0 <= i < cs.len() ==> (#[trigger] cs[i].0) != n,
            Option::Some(v) => exists|i: int|
                0 <= i < cs.len() && (#[trigger] cs[i].0) == n && cs[i].1 == v,
        },
    decreases cs.len(),
{
    if cs.len() == 0 {
    } else if cs[0].0 == n {
        assert(cs[0].0 == n && cs[0].1 == child_at(cs, n)->Some_0);
    } else {
        lemma_child_at_index(cs.drop_first(), n);
        if child_at(cs, n) is Some {
            let i = choose|i: int|
                0 <= i < cs.drop_first().len() && (#[trigger] cs.drop_first()[i].0) == n
                    && cs.drop_first()[i].1 == child_at(cs.drop_first(), n)->Some_0;
            assert(cs[i + 1].0 == n && cs[i + 1].1 == child_at(cs, n)->Some_0);
        } else {
            assert forall|i: int| 0 <= i < cs.len() implies (#[trigger] cs[i].0) != n by {
                if i > 0 {
                    assert(cs.drop_first()[i - 1] == cs[i]);
                }
            }
        }
    }
}

/// Binding a name and then looking one up: the bound name answers with the
/// new entry, every other name is untouched.
pub proof fn lemma_child_put_at(
    cs: Seq<(Seq<char>, EntryModel)>,
    n: Seq<char>,
    v: EntryModel,
    m: Seq<char>,
)
    ensures
        child_at(child_put(cs, n, v), m) == if m == n {
            Option::Some(v)
        } else {
            child_at(cs, m)
        },
    decreases cs.len(),
{
    let r = child_put(cs, n, v);
    if cs.len() == 0 {
        assert(r == seq![(n, v)]);
        assert(r[0].0 == n && r[0].1 == v);
        assert(r.drop_first() =~= Seq::<(Seq<char>, EntryModel)>::empty());
        if m == n {
            assert(child_at(r, m) == Option::Some(v));
        } else {
            assert(child_at(r, m) == child_at(r.drop_first(), m));
            assert(child_at(r, m) is None);
        }
    } else if lex_lt(n, cs[0].0) {
        assert(r == seq![(n, v)] + cs);
        assert(r[0].0 == n && r[0].1 == v);
        assert(r.drop_first() =~= cs);
        if m == n {
            assert(child_at(r, m) == Option::Some(v));
        } else {
            assert(child_at(r, m) == child_at(cs, m));
        }
    } else if cs[0].0 == n {
        assert(r == seq![(n, v)] + cs.drop_first());
        assert(r[0].0 == n && r[0].1 == v);
        assert(r.drop_first() =~= cs.drop_first());
        if m == n {
            assert(child_at(r, m) == Option::Some(v));
        } else {
            assert(child_at(r, m) == child_at(cs.drop_first(), m));
            assert(child_at(cs, m) == child_at(cs.drop_first(), m));
        }
    } else {
        assert(r == seq![cs[0]] + child_put(cs.drop_first(), n, v));
        assert(r[0].0 == cs[0].0 && r[0].1 == cs[0].1);
        assert(r.drop_first() =~= child_put(cs.drop_first(), n, v));
        lemma_child_put_at(cs.drop_first(), n, v, m);
        if m == cs[0].0 {
            assert(child_at(r, m) == Option::Some(cs[0].1));
            assert(child_at(cs, m) == Option::Some(cs[0].1));
        } else {
            assert(child_at(r, m) == child_at(child_put(cs.drop_first(), n, v), m));
            assert(child_at(cs, m) == child_at(cs.drop_first(), m));
        }
    }
}

/// Unbinding a name and then looking one up, among sorted children: the
/// unbound name misses, every other name is untouched.
pub proof fn lemma_child_del_at(cs: Seq<(Seq<char>, EntryModel)>, n: Seq<char>, m: Seq<char>)
    requires
        sorted_names(cs),
    ensures
        child_at(child_del(cs, n), m) == if m == n {
            Option::None
        } else {
            child_at(cs, m)
        },
    decreases cs.len(),
{
    let r = child_del(cs, n);
    if cs.len() == 0 {
    } else if cs[0].0 == n {
        assert(r =~= cs.drop_first());
        if m == n {
            lemma_child_at_index(cs.drop_first(), n);
            assert forall|i: int|
                0 <= i < cs.drop_first().len() implies (#[trigger] cs.drop_first()[i].0) != n by {
                assert(cs.drop_first()[i] == cs[i + 1]);
                assert(lex_lt(cs[0].0, cs[i + 1].0));
                lemma_lex_lt_irrefl(n);
            }
        }
    } else {
        assert(r == seq![cs[0]] + child_del(cs.drop_first(), n));
        assert(r[0] == cs[0]);
        assert(r.drop_first() =~= child_del(cs.drop_first(), n));
        assert(sorted_names(cs.drop_first())) by {
            assert forall|i: int, j: int|
                0 <= i < j < cs.drop_first().len() implies lex_lt(
                #[trigger] cs.drop_first()[i].0,
                #[trigger] cs.drop_first()[j].0,
            ) by {
                assert(cs.drop_first()[i] == cs[i + 1]);
                assert(cs.drop_first()[j] == cs[j + 1]);
            }
        }
        lemma_child_del_at(cs.drop_first(), n, m);
    }
}

/// The tail of a sorted child sequence is sorted.
pub proof fn lemma_sorted_drop_first(cs: Seq<(Seq<char>, EntryModel)>)
    requires
        sorted_names(cs),
        cs.len() > 0,
    ensures
        sorted_names(cs.drop_first()),
{
    assert forall|i: int, j: int| 0 <= i < j < cs.drop_first().len() implies lex_lt(
        #[trigger] cs.drop_first()[i].0,
        #[trigger] cs.drop_first()[j].0,
    ) by {
        assert(cs.drop_first()[i] == cs[i + 1]);
        assert(cs.drop_first()[j] == cs[j + 1]);
    }
}

/// Every name bound after a put was either the put name or already bound.
pub proof fn lemma_child_put_names(cs: Seq<(Seq<char>, EntryModel)>, n: Seq<char>, v: EntryModel)
    ensures
        child_put(cs, n, v).len() <= cs.len() + 1,
        forall|k: int|
            0 <= k < child_put(cs, n, v).len() ==> (#[trigger] child_put(cs, n, v)[k].0) == n
                || exists|j: int| 0 <= j < cs.len() && (#[trigger] cs[j].0) == child_put(
                cs,
                n,
                v,
            )[k].0,
    decreases cs.len(),
{
    let r = child_put(cs, n, v);
    if cs.len() == 0 {
    } else if lex_lt(n, cs[0].0) {
        assert forall|k: int| 0 <= k < r.len() implies (#[trigger] r[k].0) == n || exists|j: int|
            0 <= j < cs.len() && (#[trigger] cs[j].0) == r[k].0 by {
            if k > 0 {
                assert(r[k] == cs[k - 1]);
            }
        }
    } else if cs[0].0 == n {
        assert forall|k: int| 0 <= k < r.len() implies (#[trigger] r[k].0) == n || exists|j: int|
            0 <= j < cs.len() && (#[trigger] cs[j].0) == r[k].0 by {
            if k > 0 {
                assert(r[k] == cs.drop_first()[k - 1]);
                assert(cs[k] == cs.drop_first()[k - 1]);
            }
        }
    } else {
        lemma_child_put_names(cs.drop_first(), n, v);
        let rr = child_put(cs.drop_first(), n, v);
        assert forall|k: int| 0 <= k < r.len() implies (#[trigger] r[k].0) == n || exists|j: int|
            0 <= j < cs.len() && (#[trigger] cs[j].0) == r[k].0 by {
            if k == 0 {
                assert(r[0] == cs[0]);
                assert(cs[0].0 == r[0].0);
            } else {
                assert(r[k] == rr[k - 1]);
                if rr[k - 1].0 != n {
                    let j = choose|j: int|
                        0 <= j < cs.drop_first().len() && (#[trigger] cs.drop_first()[j].0) == rr[k
                            - 1].0;
                    assert(cs[j + 1].0 == r[k].0);
                }
            }
        }
    }
}

/// Every name bound after a delete was already bound.
pub proof fn lemma_child_del_names(cs: Seq<(Seq<char>, EntryModel)>, n: Seq<char>)
    ensures
        child_del(cs, n).len() <= cs.len(),
        forall|k: int|
            0 <= k < child_del(cs, n).len() ==> exists|j: int|
                0 <= j < cs.len() && (#[trigger] cs[j].0) == (#[trigger] child_del(cs, n)[k].0),
    decreases cs.len(),
{
    let r = child_del(cs, n);
    if cs.len() == 0 {
    } else if cs[0].0 == n {
        assert forall|k: int| 0 <= k < r.len() implies exists|j: int|
            0 <= j < cs.len() && (#[trigger] cs[j].0) == (#[trigger] r[k].0) by {
            assert(r[k] == cs[k + 1]);
            assert(cs[k + 1].0 == r[k].0);
        }
    } else {
        lemma_child_del_names(cs.drop_first(), n);
        let rr = child_del(cs.drop_first(), n);
        assert forall|k: int| 0 <= k < r.len() implies exists|j: int|
            0 <= j < cs.len() && (#[trigger] cs[j].0) == (#[trigger] r[k].0) by {
            if k == 0 {
                assert(r[0] == cs[0]);
                assert(cs[0].0 == r[0].0);
            } else {
                assert(r[k] == rr[k - 1]);
                let j = choose|j: int|
                    0 <= j < cs.drop_first().len() && (#[trigger] cs.drop_first()[j].0) == rr[k
                        - 1].0;
                assert(cs[j + 1].0 == r[k].0);
            }
        }
    }
}

/// A put keeps sorted children sorted.
pub proof fn lemma_child_put_sorted(cs: Seq<(Seq<char>, EntryModel)>, n: Seq<char>, v: EntryModel)
    requires
        sorted_names(cs),
    ensures
        sorted_names(child_put(cs, n, v)),
    decreases cs.len(),
{
    let r = child_put(cs, n, v);
    if cs.len() == 0 {
    } else if lex_lt(n, cs[0].0) {
        assert forall|i: int, j: int| 0 <= i < j < r.len() implies lex_lt(
            #[trigger] r[i].0,
            #[trigger] r[j].0,
        ) by {
            if i == 0 {
                assert(r[j] == cs[j - 1]);
                if j > 1 {
                    lemma_lex_lt_trans(n, cs[0].0, cs[j - 1].0);
                }
            } else {
                assert(r[i] == cs[i - 1]);
                assert(r[j] == cs[j - 1]);
            }
        }
    } else if cs[0].0 == n {
        assert forall|i: int, j: int| 0 <= i < j < r.len() implies lex_lt(
            #[trigger] r[i].0,
            #[trigger] r[j].0,
        ) by {
            if i == 0 {
                assert(r[j] == cs.drop_first()[j - 1]);
                assert(cs[j] == cs.drop_first()[j - 1]);
            } else {
                assert(r[i] == cs[i]);
                assert(r[j] == cs[j]);
            }
        }
    } else {
        if !lex_lt(cs[0].0, n) {
            lemma_lex_lt_connected(n, cs[0].0);
        }
        assert(lex_lt(cs[0].0, n));
        lemma_sorted_drop_first(cs);
        lemma_child_put_sorted(cs.drop_first(), n, v);
        lemma_child_put_names(cs.drop_first(), n, v);
        let rr = child_put(cs.drop_first(), n, v);
        assert forall|i: int, j: int| 0 <= i < j < r.len() implies lex_lt(
            #[trigger] r[i].0,
            #[trigger] r[j].0,
        ) by {
            if i == 0 {
                assert(r[j] == rr[j - 1]);
                if rr[j - 1].0 == n {
                } else {
                    let jj = choose|jj: int|
                        0 <= jj < cs.drop_first().len() && (#[trigger] cs.drop_first()[jj].0) == rr[
                            j - 1].0;
                    assert(cs[jj + 1] == cs.drop_first()[jj]);
                    assert(lex_lt(cs[0].0, cs[jj + 1].0));
                }
            } else {
                assert(r[i] == rr[i - 1]);
                assert(r[j] == rr[j - 1]);
            }
        }
    }
}

/// A delete keeps sorted children sorted.
pub proof fn lemma_child_del_sorted(cs: Seq<(Seq<char>, EntryModel)>, n: Seq<char>)
    requires
        sorted_names(cs),
    ensures
        sorted_names(child_del(cs, n)),
    decreases cs.len(),
{
    let r = child_del(cs, n);
    if cs.len() == 0 {
    } else if cs[0].0 == n {
        lemma_sorted_drop_first(cs);
    } else {
        lemma_sorted_drop_first(cs);
        lemma_child_del_sorted(cs.drop_first(), n);
        lemma_child_del_names(cs.drop_first(), n);
        let rr = child_del(cs.drop_first(), n);
        assert forall|i: int, j: int| 0 <= i < j < r.len() implies lex_lt(
            #[trigger] r[i].0,
            #[trigger] r[j].0,
        ) by {
            if i == 0 {
                assert(r[j] == rr[j - 1]);
                let jj = choose|jj: int|
                    0 <= jj < cs.drop_first().len() && (#[trigger] cs.drop_first()[jj].0) == rr[j
                        - 1].0;
                assert(cs[jj + 1] == cs.drop_first()[jj]);
                assert(lex_lt(cs[0].0, cs[jj + 1].0));
            } else {
                assert(r[i] == rr[i - 1]);
                assert(r[j] == rr[j - 1]);
            }
        }
    }
}

/// Index access into the recursive well-formedness of children.
pub proof fn lemma_children_wf_index(cs: Seq<(Seq<char>, EntryModel)>, i: int)
    requires
        children_wf(cs),
        0 <= i < cs.len(),
    ensures
        valid_name(cs[i].0),
        entry_wf(cs[i].1),
    decreases cs.len(),
{
    if i > 0 {
        lemma_children_wf_index(cs.drop_first(), i - 1);
        assert(cs.drop_first()[i - 1] == cs[i]);
    }
}

/// A put keeps children well-formed when the new name and entry are.
pub proof fn lemma_child_put_wf(cs: Seq<(Seq<char>, EntryModel)>, n: Seq<char>, v: EntryModel)
    requires
        children_wf(cs),
        valid_name(n),
        entry_wf(v),
    ensures
        children_wf(child_put(cs, n, v)),
    decreases cs.len(),
{
    let r = child_put(cs, n, v);
    if cs.len() == 0 {
        assert(r.drop_first() =~= Seq::<(Seq<char>, EntryModel)>::empty());
        assert(children_wf(Seq::<(Seq<char>, EntryModel)>::empty()));
        assert(r[0].0 == n && r[0].1 == v);
        assert(children_wf(r));
    } else if lex_lt(n, cs[0].0) {
        assert(r.drop_first() =~= cs);
        assert(r[0].0 == n && r[0].1 == v);
        assert(children_wf(r));
    } else if cs[0].0 == n {
        assert(r.drop_first() =~= cs.drop_first());
        assert(r[0].0 == n && r[0].1 == v);
        assert(children_wf(r));
    } else {
        lemma_child_put_wf(cs.drop_first(), n, v);
        assert(r.drop_first() =~= child_put(cs.drop_first(), n, v));
        assert(r[0].0 == cs[0].0 && r[0].1 == cs[0].1);
        assert(children_wf(r));
    }
}

/// A delete keeps children well-formed.
pub proof fn lemma_child_del_wf(cs: Seq<(Seq<char>, EntryModel)>, n: Seq<char>)
    requires
        children_wf(cs),
    ensures
        children_wf(child_del(cs, n)),
    decreases cs.len(),
{
    let r = child_del(cs, n);
    if cs.len() == 0 {
    } else if cs[0].0 == n {
    } else {
        lemma_child_del_wf(cs.drop_first(), n);
        assert(r.drop_first() =~= child_del(cs.drop_first(), n));
        assert(r[0] == cs[0]);
    }
}

/// The name order is decided by the first differing position.
pub proof fn lemma_lex_lt_skip(a: Seq<char>, b: Seq<char>, i: int)
    requires
        0 <= i <= a.len(),
        i <= b.len(),
        forall|j: int| 0 <= j < i ==> a[j] == b[j],
    ensures
        lex_lt(a, b) == lex_lt(a.skip(i), b.skip(i)),
    decreases i,
{
    if i == 0 {
        assert(a.skip(0) =~= a);
        assert(b.skip(0) =~= b);
    } else {
        assert(a.len() > 0 && b.len() > 0 && a[0] == b[0]);
        lemma_lex_lt_skip(a.drop_first(), b.drop_first(), i - 1);
        assert(a.drop_first().skip(i - 1) =~= a.skip(i));
        assert(b.drop_first().skip(i - 1) =~= b.skip(i));
    }
}

/// The first index at which a name matches decides the lookup.
pub proof fn lemma_child_at_from_index(cs: Seq<(Seq<char>, EntryModel)>, n: Seq<char>, i: int)
    requires
        0 <= i < cs.len(),
        cs[i].0 == n,
        forall|j: int| 0 <= j < i ==> (#[trigger] cs[j].0) != n,
    ensures
        child_at(cs, n) == Option::Some(cs[i].1),
    decreases i,
{
    if i > 0 {
        lemma_child_at_from_index(cs.drop_first(), n, i - 1);
    }
}

/// Among sorted children, a put is an update at the matching index, or an
/// insertion at the slot where the ordered scan first stops.
pub proof fn lemma_child_put_as_insert(
    cs: Seq<(Seq<char>, EntryModel)>,
    n: Seq<char>,
    v: EntryModel,
    k: int,
)
    requires
        sorted_names(cs),
        0 <= k <= cs.len(),
        forall|j: int| 0 <= j < k ==> lex_lt(#[trigger] cs[j].0, n),
        k < cs.len() ==> !lex_lt(cs[k].0, n),
    ensures
        k < cs.len() && cs[k].0 == n ==> child_put(cs, n, v) == cs.update(k, (n, v)),
        !(k < cs.len() && cs[k].0 == n) ==> child_put(cs, n, v) == cs.insert(k, (n, v)),
    decreases cs.len(),
{
    let r = child_put(cs, n, v);
    if cs.len() == 0 {
        assert(r =~= cs.insert(0, (n, v)));
    } else if k == 0 {
        if cs[0].0 == n {
            lemma_lex_lt_irrefl(n);
            assert(r == seq![(n, v)] + cs.drop_first());
            assert(r =~= cs.update(0, (n, v)));
        } else {
            if !lex_lt(n, cs[0].0) {
                lemma_lex_lt_connected(n, cs[0].0);
            }
            assert(lex_lt(n, cs[0].0));
            assert(r =~= cs.insert(0, (n, v)));
        }
    } else {
        assert(lex_lt(cs[0].0, n));
        lemma_lex_lt_asym(cs[0].0, n);
        lemma_lex_lt_irrefl(n);
        assert(cs[0].0 != n);
        assert(r == seq![cs[0]] + child_put(cs.drop_first(), n, v));
        lemma_sorted_drop_first(cs);
        assert(forall|j: int|
            0 <= j < k - 1 ==> lex_lt(#[trigger] cs.drop_first()[j].0, n)) by {
            assert(forall|j: int|
                0 <= j < k - 1 ==> #[trigger] cs.drop_first()[j] == cs[j + 1]);
        }
        assert(k - 1 < cs.drop_first().len() ==> !lex_lt(cs.drop_first()[k - 1].0, n));
        lemma_child_put_as_insert(cs.drop_first(), n, v, k - 1);
        if k < cs.len() && cs[k].0 == n {
            assert(cs.drop_first()[k - 1] == cs[k]);
            assert(r =~= cs.update(k, (n, v)));
        } else {
            cs.insert_ensures(k, (n, v));
            cs.drop_first().insert_ensures(k - 1, (n, v));
            assert(r =~= cs.insert(k, (n, v)));
        }
    }
}

/// Among sorted children, unbinding a bound name removes its index.
pub proof fn lemma_child_del_as_remove(cs: Seq<(Seq<char>, EntryModel)>, n: Seq<char>, k: int)
    requires
        sorted_names(cs),
        0 <= k < cs.len(),
        cs[k].0 == n,
        forall|j: int| 0 <= j < k ==> (#[trigger] cs[j].0) != n,
    ensures
        child_del(cs, n) == cs.remove(k),
    decreases cs.len(),
{
    let r = child_del(cs, n);
    if k == 0 {
        assert(r =~= cs.remove(0));
    } else {
        assert(cs[0].0 != n);
        assert(r == seq![cs[0]] + child_del(cs.drop_first(), n));
        lemma_sorted_drop_first(cs);
        assert(cs.drop_first()[k - 1] == cs[k]);
        assert(forall|j: int|
            0 <= j < k - 1 ==> #[trigger] cs.drop_first()[j] == cs[j + 1]);
        lemma_child_del_as_remove(cs.drop_first(), n, k - 1);
        cs.remove_ensures(k);
        cs.drop_first().remove_ensures(k - 1);
        assert(r =~= cs.remove(k));
    }
}

/// The name order is asymmetric.
pub proof fn lemma_lex_lt_asym(a: Seq<char>, b: Seq<char>)
    requires
        lex_lt(a, b),
    ensures
        !lex_lt(b, a),
{
    if lex_lt(b, a) {
        lemma_lex_lt_trans(a, b, a);
        lemma_lex_lt_irrefl(a);
    }
}

/// A name bound among well-formed children is valid and bound to a
/// well-formed entry.
pub proof fn lemma_child_at_wf(cs: Seq<(Seq<char>, EntryModel)>, n: Seq<char>)
    requires
        children_wf(cs),
        child_at(cs, n) is Some,
    ensures
        valid_name(n),
        entry_wf(child_at(cs, n)->Some_0),
    decreases cs.len(),
{
    if cs.len() > 0 && cs[0].0 != n {
        lemma_child_at_wf(cs.drop_first(), n);
    }
}

/// Binding a name twice keeps only the second binding.
pub proof fn lemma_child_put_absorb(
    cs: Seq<(Seq<char>, EntryModel)>,
    n: Seq<char>,
    x: EntryModel,
    y: EntryModel,
)
    ensures
        child_put(child_put(cs, n, x), n, y) == child_put(cs, n, y),
    decreases cs.len(),
{
    let r1 = child_put(cs, n, x);
    if cs.len() == 0 {
        lemma_lex_lt_irrefl(n);
        assert(r1[0].0 == n);
        assert(child_put(r1, n, y) =~= seq![(n, y)] + r1.drop_first());
        assert(r1.drop_first() =~= Seq::<(Seq<char>, EntryModel)>::empty());
        assert(child_put(child_put(cs, n, x), n, y) =~= child_put(cs, n, y));
    } else if lex_lt(n, cs[0].0) {
        lemma_lex_lt_irrefl(n);
        assert(r1[0].0 == n);
        assert(child_put(r1, n, y) =~= seq![(n, y)] + r1.drop_first());
        assert(r1.drop_first() =~= cs);
        assert(child_put(child_put(cs, n, x), n, y) =~= child_put(cs, n, y));
    } else if cs[0].0 == n {
        lemma_lex_lt_irrefl(n);
        assert(r1[0].0 == n);
        assert(child_put(r1, n, y) =~= seq![(n, y)] + r1.drop_first());
        assert(r1.drop_first() =~= cs.drop_first());
        assert(child_put(child_put(cs, n, x), n, y) =~= child_put(cs, n, y));
    } else {
        lemma_child_put_absorb(cs.drop_first(), n, x, y);
        assert(r1[0] == cs[0]);
        assert(r1.drop_first() =~= child_put(cs.drop_first(), n, x));
        assert(child_put(r1, n, y) =~= seq![cs[0]] + child_put(
            child_put(cs.drop_first(), n, x),
            n,
            y,
        ));
        assert(child_put(child_put(cs, n, x), n, y) =~= child_put(cs, n, y));
    }
}

// ---------------------------------------------------------------------------
// Walk lemmas
// ---------------------------------------------------------------------------

/// Walking a concatenation walks the first part, then the second.
pub proof fn lemma_walk_append(m: EntryModel, a: Seq<Seq<char>>, b: Seq<Seq<char>>)
    ensures
        walk_at(m, a + b) == (match walk_at(m, a) {
            WalkOutcome::Found(e) => walk_at(e, b),
            WalkOutcome::MissingEntry => WalkOutcome::MissingEntry,
            WalkOutcome::FileInTheWay => WalkOutcome::FileInTheWay,
        }),
    decreases a.len(),
{
    if a.len() == 0 {
        assert(a + b =~= b);
    } else {
        assert((a + b)[0] == a[0]);
        assert((a + b).len() > 0);
        match m {
            EntryModel::File { data } => {},
            EntryModel::Dir { children } => {
                match child_at(children, a[0]) {
                    Option::None => {},
                    Option::Some(e) => {
                        assert((a + b).drop_first() =~= a.drop_first() + b);
                        lemma_walk_append(e, a.drop_first(), b);
                    },
                }
            },
        }
    }
}

/// Resolution decomposed at the last component: the parent must walk to a
/// directory, and the final name is looked up among its children.
pub proof fn lemma_lookup_last(m: EntryModel, c: Seq<Seq<char>>)
    requires
        c.len() > 0,
    ensures
        lookup_at(m, c) == (match walk_at(m, c.drop_last()) {
            WalkOutcome::Found(EntryModel::Dir { children }) => child_at(children, c.last()),
            _ => Option::<EntryModel>::None,
        }),
{
    let tail: Seq<Seq<char>> = seq![c.last()];
    assert(c =~= c.drop_last() + tail);
    lemma_walk_append(m, c.drop_last(), tail);
    assert(tail[0] == c.last());
    assert(tail.drop_first() =~= Seq::<Seq<char>>::empty());
    match walk_at(m, c.drop_last()) {
        WalkOutcome::Found(e) => {
            assert(walk_at(m, c) == walk_at(e, tail));
            match e {
                EntryModel::Dir { children } => {
                    match child_at(children, c.last()) {
                        Option::Some(x) => {
                            assert(walk_at(x, tail.drop_first()) == WalkOutcome::Found(x));
                            assert(walk_at(e, tail) == WalkOutcome::Found(x));
                        },
                        Option::None => {
                            assert(walk_at(e, tail) == WalkOutcome::MissingEntry);
                        },
                    }
                },
                EntryModel::File { data } => {
                    assert(walk_at(e, tail) == WalkOutcome::FileInTheWay);
                },
            }
        },
        _ => {
            assert(lookup_at(m, c) is None);
        },
    }
}

/// Nothing resolves beneath a path that does not resolve.
pub proof fn lemma_lookup_none_extends(m: EntryModel, q: Seq<Seq<char>>, q2: Seq<Seq<char>>)
    requires
        lookup_at(m, q) is None,
        is_prefix_of(q, q2),
    ensures
        lookup_at(m, q2) is None,
{
    assert(q2 =~= q + q2.skip(q.len() as int));
    lemma_walk_append(m, q, q2.skip(q.len() as int));
}

/// Extending a prefix by one equal head keeps it a prefix.
pub proof fn lemma_prefix_uncons(c: Seq<Seq<char>>, q: Seq<Seq<char>>)
    requires
        c.len() > 0,
        q.len() > 0,
        c[0] == q[0],
        is_prefix_of(c.drop_first(), q.drop_first()),
    ensures
        is_prefix_of(c, q),
{
    assert(c =~= q.take(c.len() as int)) by {
        assert forall|i: int| 0 <= i < c.len() implies c[i] == q.take(c.len() as int)[i] by {
            if i > 0 {
                assert(c.drop_first()[i - 1] == q.drop_first().take(c.len() - 1)[i - 1]);
            }
        }
    }
}

// ---------------------------------------------------------------------------
// Effect of tree_put on resolution
// ---------------------------------------------------------------------------

/// After binding `v` at `c`, paths that extend `c` resolve inside `v`.
pub proof fn lemma_tree_put_extend(m: EntryModel, c: Seq<Seq<char>>, v: EntryModel, r: Seq<Seq<char>>)
    requires
        entry_wf(m),
        c.len() > 0,
        walk_at(m, c.drop_last()) matches WalkOutcome::Found(EntryModel::Dir { .. }),
    ensures
        lookup_at(tree_put(m, c, v), c + r) == lookup_at(v, r),
    decreases c.len(),
{
    match m {
        EntryModel::File { data } => {
            assert(c.drop_last().len() >= 0);
            if c.drop_last().len() == 0 {
                assert(walk_at(m, c.drop_last()) == WalkOutcome::Found(m));
                assert(false);
            } else {
                assert(false);
            }
        },
        EntryModel::Dir { children } => {
            if c.len() == 1 {
                let cs2 = child_put(children, c[0], v);
                lemma_child_put_at(children, c[0], v, c[0]);
                assert((c + r)[0] == c[0]);
                assert((c + r).drop_first() =~= r);
            } else {
                assert(c.drop_last().len() > 0);
                assert(c.drop_last()[0] == c[0]);
                match child_at(children, c[0]) {
                    Option::None => {
                        assert(walk_at(m, c.drop_last()) is MissingEntry);
                        assert(false);
                    },
                    Option::Some(e) => {
                        lemma_child_at_wf(children, c[0]);
                        assert(c.drop_last().drop_first() =~= c.drop_first().drop_last());
                        lemma_tree_put_extend(e, c.drop_first(), v, r);
                        let put_sub = tree_put(e, c.drop_first(), v);
                        lemma_child_put_at(children, c[0], put_sub, c[0]);
                        assert((c + r)[0] == c[0]);
                        assert((c + r).drop_first() =~= c.drop_first() + r);
                    },
                }
            }
        },
    }
}

/// After binding `v` at `c`, the path `c` itself resolves to `v`.
pub proof fn lemma_tree_put_same(m: EntryModel, c: Seq<Seq<char>>, v: EntryModel)
    requires
        entry_wf(m),
        c.len() > 0,
        walk_at(m, c.drop_last()) matches WalkOutcome::Found(EntryModel::Dir { .. }),
    ensures
        lookup_at(tree_put(m, c, v), c) == Option::Some(v),
{
    lemma_tree_put_extend(m, c, v, Seq::empty());
    assert(c + Seq::<Seq<char>>::empty() =~= c);
}

/// Binding at `c` leaves resolution unchanged along every path that neither
/// extends nor is extended by `c`.
pub proof fn lemma_tree_put_frame(m: EntryModel, c: Seq<Seq<char>>, v: EntryModel, q: Seq<Seq<char>>)
    requires
        entry_wf(m),
        c.len() > 0,
        !is_prefix_of(c, q),
        !is_prefix_of(q, c),
    ensures
        lookup_at(tree_put(m, c, v), q) == lookup_at(m, q),
    decreases c.len(),
{
    assert(q.len() > 0) by {
        if q.len() == 0 {
            assert(q =~= c.take(0));
        }
    }
    match m {
        EntryModel::File { data } => {},
        EntryModel::Dir { children } => {
            if c[0] != q[0] {
                if c.len() == 1 {
                    lemma_child_put_at(children, c[0], v, q[0]);
                } else {
                    match child_at(children, c[0]) {
                        Option::None => {},
                        Option::Some(e) => {
                            lemma_child_put_at(
                                children,
                                c[0],
                                tree_put(e, c.drop_first(), v),
                                q[0],
                            );
                        },
                    }
                }
            } else {
                // Heads agree, so the paths diverge strictly deeper.
                assert(c.len() > 1) by {
                    if c.len() == 1 {
                        assert(c =~= q.take(1));
                    }
                }
                if is_prefix_of(c.drop_first(), q.drop_first()) {
                    lemma_prefix_uncons(c, q);
                }
                if is_prefix_of(q.drop_first(), c.drop_first()) {
                    lemma_prefix_uncons(q, c);
                }
                match child_at(children, c[0]) {
                    Option::None => {},
                    Option::Some(e) => {
                        lemma_child_at_wf(children, c[0]);
                        lemma_tree_put_frame(e, c.drop_first(), v, q.drop_first());
                        lemma_child_put_at(children, c[0], tree_put(e, c.drop_first(), v), q[0]);
                    },
                }
            }
        },
    }
}

/// Binding a well-formed entry at a valid path keeps the tree well-formed.
pub proof fn lemma_tree_put_wf(m: EntryModel, c: Seq<Seq<char>>, v: EntryModel)
    requires
        entry_wf(m),
        entry_wf(v),
        valid_comps(c),
    ensures
        entry_wf(tree_put(m, c, v)),
    decreases c.len(),
{
    if c.len() == 0 {
    } else {
        match m {
            EntryModel::File { data } => {},
            EntryModel::Dir { children } => {
                assert(valid_name(c[0]));
                if c.len() == 1 {
                    lemma_child_put_sorted(children, c[0], v);
                    lemma_child_put_wf(children, c[0], v);
                } else {
                    match child_at(children, c[0]) {
                        Option::None => {},
                        Option::Some(e) => {
                            lemma_child_at_wf(children, c[0]);
                            assert(valid_comps(c.drop_first())) by {
                                assert forall|i: int|
                                    0 <= i < c.drop_first().len() implies valid_name(
                                    #[trigger] c.drop_first()[i],
                                ) by {
                                    assert(c.drop_first()[i] == c[i + 1]);
                                }
                            }
                            lemma_tree_put_wf(e, c.drop_first(), v);
                            lemma_child_put_sorted(children, c[0], tree_put(e, c.drop_first(), v));
                            lemma_child_put_wf(children, c[0], tree_put(e, c.drop_first(), v));
                        },
                    }
                }
            },
        }
    }
}

// ---------------------------------------------------------------------------
// Effect of tree_del on resolution
// ---------------------------------------------------------------------------

/// After unbinding `c`, the path `c` no longer resolves.
pub proof fn lemma_tree_del_same(m: EntryModel, c: Seq<Seq<char>>)
    requires
        entry_wf(m),
        c.len() > 0,
    ensures
        lookup_at(tree_del(m, c), c) is None,
    decreases c.len(),
{
    match m {
        EntryModel::File { data } => {},
        EntryModel::Dir { children } => {
            if c.len() == 1 {
                lemma_child_del_at(children, c[0], c[0]);
            } else {
                match child_at(children, c[0]) {
                    Option::None => {
                        lemma_child_at_index(children, c[0]);
                    },
                    Option::Some(e) => {
                        lemma_child_at_wf(children, c[0]);
                        lemma_tree_del_same(e, c.drop_first());
                        lemma_child_put_at(children, c[0], tree_del(e, c.drop_first()), c[0]);
                    },
                }
            }
        },
    }
}

/// Unbinding at `c` leaves resolution unchanged along every path that
/// neither extends nor is extended by `c`.
pub proof fn lemma_tree_del_frame(m: EntryModel, c: Seq<Seq<char>>, q: Seq<Seq<char>>)
    requires
        entry_wf(m),
        c.len() > 0,
        !is_prefix_of(c, q),
        !is_prefix_of(q, c),
    ensures
        lookup_at(tree_del(m, c), q) == lookup_at(m, q),
    decreases c.len(),
{
    assert(q.len() > 0) by {
        if q.len() == 0 {
            assert(q =~= c.take(0));
        }
    }
    match m {
        EntryModel::File { data } => {},
        EntryModel::Dir { children } => {
            if c[0] != q[0] {
                if c.len() == 1 {
                    lemma_child_del_at(children, c[0], q[0]);
                } else {
                    match child_at(children, c[0]) {
                        Option::None => {},
                        Option::Some(e) => {
                            lemma_child_put_at(
                                children,
                                c[0],
                                tree_del(e, c.drop_first()),
                                q[0],
                            );
                        },
                    }
                }
            } else {
                assert(c.len() > 1) by {
                    if c.len() == 1 {
                        assert(c =~= q.take(1));
                    }
                }
                if is_prefix_of(c.drop_first(), q.drop_first()) {
                    lemma_prefix_uncons(c, q);
                }
                if is_prefix_of(q.drop_first(), c.drop_first()) {
                    lemma_prefix_uncons(q, c);
                }
                match child_at(children, c[0]) {
                    Option::None => {},
                    Option::Some(e) => {
                        lemma_child_at_wf(children, c[0]);
                        lemma_tree_del_frame(e, c.drop_first(), q.drop_first());
                        lemma_child_put_at(children, c[0], tree_del(e, c.drop_first()), q[0]);
                    },
                }
            }
        },
    }
}

/// Unbinding keeps the tree well-formed.
pub proof fn lemma_tree_del_wf(m: EntryModel, c: Seq<Seq<char>>)
    requires
        entry_wf(m),
    ensures
        entry_wf(tree_del(m, c)),
    decreases c.len(),
{
    if c.len() == 0 {
    } else {
        match m {
            EntryModel::File { data } => {},
            EntryModel::Dir { children } => {
                if c.len() == 1 {
                    lemma_child_del_sorted(children, c[0]);
                    lemma_child_del_wf(children, c[0]);
                } else {
                    match child_at(children, c[0]) {
                        Option::None => {},
                        Option::Some(e) => {
                            lemma_child_at_wf(children, c[0]);
                            lemma_tree_del_wf(e, c.drop_first());
                            lemma_child_put_sorted(children, c[0], tree_del(e, c.drop_first()));
                            lemma_child_put_wf(children, c[0], tree_del(e, c.drop_first()));
                        },
                    }
                }
            },
        }
    }
}

/// A proper prefix of an unbound path that was a directory stays one.
pub proof fn lemma_tree_del_prefix_dir(m: EntryModel, c: Seq<Seq<char>>, q: Seq<Seq<char>>)
    requires
        entry_wf(m),
        c.len() > 0,
        is_prefix_of(q, c),
        q.len() < c.len(),
        is_dir_at(m, q),
    ensures
        is_dir_at(tree_del(m, c), q),
    decreases c.len(),
{
    if q.len() == 0 {
        match m {
            EntryModel::File { data } => {},
            EntryModel::Dir { children } => {},
        }
    } else {
        assert(q[0] == c[0]) by {
            assert(q[0] == c.take(q.len() as int)[0]);
        }
        match m {
            EntryModel::File { data } => {},
            EntryModel::Dir { children } => {
                assert(c.len() > 1);
                match child_at(children, c[0]) {
                    Option::None => {},
                    Option::Some(e) => {
                        lemma_child_at_wf(children, c[0]);
                        assert(is_prefix_of(q.drop_first(), c.drop_first())) by {
                            assert(q.drop_first() =~= c.drop_first().take(q.len() - 1)) by {
                                assert forall|i: int| 0 <= i < q.len() - 1 implies q.drop_first()[i]
                                    == c.drop_first().take(q.len() - 1)[i] by {
                                    assert(q[i + 1] == c.take(q.len() as int)[i + 1]);
                                }
                            }
                        }
                        lemma_tree_del_prefix_dir(e, c.drop_first(), q.drop_first());
                        lemma_child_put_at(children, c[0], tree_del(e, c.drop_first()), q[0]);
                    },
                }
            },
        }
    }
}

// ---------------------------------------------------------------------------
// Effect of dirs_make on resolution
// ---------------------------------------------------------------------------

/// Idempotent directory creation keeps the tree well-formed.
pub proof fn lemma_dirs_make_wf(m: EntryModel, c: Seq<Seq<char>>)
    requires
        entry_wf(m),
        valid_comps(c),
    ensures
        entry_wf(dirs_make(m, c)),
    decreases c.len(),
{
    if c.len() == 0 {
    } else {
        match m {
            EntryModel::File { data } => {},
            EntryModel::Dir { children } => {
                assert(valid_name(c[0]));
                assert(valid_comps(c.drop_first())) by {
                    assert forall|i: int|
                        0 <= i < c.drop_first().len() implies valid_name(
                        #[trigger] c.drop_first()[i],
                    ) by {
                        assert(c.drop_first()[i] == c[i + 1]);
                    }
                }
                match child_at(children, c[0]) {
                    Option::Some(EntryModel::File { data }) => {},
                    Option::Some(EntryModel::Dir { children: sub }) => {
                        lemma_child_at_wf(children, c[0]);
                        lemma_dirs_make_wf(EntryModel::Dir { children: sub }, c.drop_first());
                        let made = dirs_make(EntryModel::Dir { children: sub }, c.drop_first());
                        lemma_child_put_sorted(children, c[0], made);
                        lemma_child_put_wf(children, c[0], made);
                    },
                    Option::None => {
                        assert(entry_wf(empty_dir())) by {
                            assert(children_wf(Seq::<(Seq<char>, EntryModel)>::empty()));
                        }
                        lemma_dirs_make_wf(empty_dir(), c.drop_first());
                        let made = dirs_make(empty_dir(), c.drop_first());
                        lemma_child_put_sorted(children, c[0], made);
                        lemma_child_put_wf(children, c[0], made);
                    },
                }
            },
        }
    }
}

/// After successful directory creation along `c`, every prefix of `c`
/// (including `c` itself) denotes a directory.
pub proof fn lemma_dirs_make_is_dir(m: EntryModel, c: Seq<Seq<char>>, k: int)
    requires
        entry_wf(m),
        m matches EntryModel::Dir { .. },
        dirs_ok(m, c),
        0 <= k <= c.len(),
    ensures
        is_dir_at(dirs_make(m, c), c.take(k)),
    decreases c.len(),
{
    let r = dirs_make(m, c);
    if c.len() == 0 {
        assert(c.take(k) =~= Seq::<Seq<char>>::empty());
    } else {
        match m {
            EntryModel::File { data } => {},
            EntryModel::Dir { children } => {
                if k == 0 {
                    assert(c.take(0) =~= Seq::<Seq<char>>::empty());
                    match child_at(children, c[0]) {
                        Option::Some(EntryModel::File { data }) => {},
                        Option::Some(EntryModel::Dir { children: sub }) => {},
                        Option::None => {},
                    }
                } else {
                    let sub = match child_at(children, c[0]) {
                        Option::Some(e) => e,
                        Option::None => empty_dir(),
                    };
                    if child_at(children, c[0]) is Some {
                        lemma_child_at_wf(children, c[0]);
                    } else {
                        assert(entry_wf(empty_dir())) by {
                            assert(children_wf(Seq::<(Seq<char>, EntryModel)>::empty()));
                        }
                    }
                    assert(sub matches EntryModel::Dir { .. });
                    assert(dirs_ok(sub, c.drop_first()));
                    lemma_dirs_make_is_dir(sub, c.drop_first(), k - 1);
                    let made = dirs_make(sub, c.drop_first());
                    lemma_child_put_at(children, c[0], made, c[0]);
                    assert(c.take(k)[0] == c[0]);
                    assert(c.take(k).drop_first() =~= c.drop_first().take(k - 1));
                }
            },
        }
    }
}

/// A proper prefix of a bound path that was a directory stays one.
pub proof fn lemma_tree_put_prefix_dir(
    m: EntryModel,
    c: Seq<Seq<char>>,
    v: EntryModel,
    q: Seq<Seq<char>>,
)
    requires
        entry_wf(m),
        c.len() > 0,
        is_prefix_of(q, c),
        q.len() < c.len(),
        is_dir_at(m, q),
    ensures
        is_dir_at(tree_put(m, c, v), q),
    decreases c.len(),
{
    if q.len() == 0 {
        match m {
            EntryModel::File { data } => {},
            EntryModel::Dir { children } => {},
        }
    } else {
        assert(q[0] == c[0]) by {
            assert(q[0] == c.take(q.len() as int)[0]);
        }
        match m {
            EntryModel::File { data } => {},
            EntryModel::Dir { children } => {
                assert(c.len() > 1);
                match child_at(children, c[0]) {
                    Option::None => {},
                    Option::Some(e) => {
                        lemma_child_at_wf(children, c[0]);
                        assert(is_prefix_of(q.drop_first(), c.drop_first())) by {
                            assert(q.drop_first() =~= c.drop_first().take(q.len() - 1)) by {
                                assert forall|i: int| 0 <= i < q.len() - 1 implies q.drop_first()[i]
                                    == c.drop_first().take(q.len() - 1)[i] by {
                                    assert(q[i + 1] == c.take(q.len() as int)[i + 1]);
                                }
                            }
                        }
                        lemma_tree_put_prefix_dir(e, c.drop_first(), v, q.drop_first());
                        lemma_child_put_at(children, c[0], tree_put(e, c.drop_first(), v), q[0]);
                    },
                }
            },
        }
    }
}

/// Appending one child beyond every sorted name binds it at the end.
pub proof fn lemma_child_put_append(cs: Seq<(Seq<char>, EntryModel)>, n: Seq<char>, v: EntryModel)
    requires
        sorted_names(cs),
        forall|i: int| 0 <= i < cs.len() ==> lex_lt(#[trigger] cs[i].0, n),
    ensures
        child_put(cs, n, v) == cs.push((n, v)),
    decreases cs.len(),
{
    if cs.len() == 0 {
        assert(child_put(cs, n, v) =~= cs.push((n, v)));
    } else {
        lemma_lex_lt_asym(cs[0].0, n);
        lemma_lex_lt_irrefl(n);
        assert(cs[0].0 != n);
        lemma_sorted_drop_first(cs);
        lemma_child_put_append(cs.drop_first(), n, v);
        assert(child_put(cs, n, v) =~= cs.push((n, v)));
    }
}

/// Rebinding the entry a path already denotes changes nothing.
pub proof fn lemma_child_put_same(cs: Seq<(Seq<char>, EntryModel)>, n: Seq<char>)
    requires
        sorted_names(cs),
        child_at(cs, n) is Some,
    ensures
        child_put(cs, n, child_at(cs, n)->Some_0) == cs,
{
    lemma_child_at_index(cs, n);
    let k = choose|k: int| 0 <= k < cs.len() && (#[trigger] cs[k].0) == n && cs[k].1 == child_at(
        cs,
        n,
    )->Some_0;
    assert forall|j: int| 0 <= j < k implies lex_lt(#[trigger] cs[j].0, n) by {}
    lemma_lex_lt_irrefl(n);
    lemma_child_put_as_insert(cs, n, child_at(cs, n)->Some_0, k);
    assert(cs.update(k, (n, child_at(cs, n)->Some_0)) =~= cs) by {
        assert(cs[k].0 == n && cs[k].1 == child_at(cs, n)->Some_0);
    }
}

/// Rebinding the entry a path already denotes changes nothing.
pub proof fn lemma_tree_put_self(m: EntryModel, c: Seq<Seq<char>>)
    requires
        entry_wf(m),
        c.len() > 0,
        lookup_at(m, c) is Some,
    ensures
        tree_put(m, c, lookup_at(m, c)->Some_0) == m,
    decreases c.len(),
{
    match m {
        EntryModel::File { data } => {},
        EntryModel::Dir { children } => {
            match child_at(children, c[0]) {
                Option::None => {},
                Option::Some(e) => {
                    if c.len() == 1 {
                        assert(lookup_at(m, c) == Option::Some(e)) by {
                            assert(c.drop_first() =~= Seq::<Seq<char>>::empty());
                        }
                        lemma_child_put_same(children, c[0]);
                        assert(tree_put(m, c, e) =~= m);
                    } else {
                        lemma_child_at_wf(children, c[0]);
                        assert(lookup_at(m, c) == lookup_at(e, c.drop_first()));
                        lemma_tree_put_self(e, c.drop_first());
                        lemma_child_put_same(children, c[0]);
                        assert(tree_put(m, c, lookup_at(m, c)->Some_0) =~= m);
                    }
                },
            }
        },
    }
}

/// Binding at a path twice keeps only the second binding.
pub proof fn lemma_tree_put_twice(m: EntryModel, c: Seq<Seq<char>>, x: EntryModel, y: EntryModel)
    requires
        entry_wf(m),
        c.len() > 0,
        walk_at(m, c.drop_last()) matches WalkOutcome::Found(EntryModel::Dir { .. }),
    ensures
        tree_put(tree_put(m, c, x), c, y) == tree_put(m, c, y),
    decreases c.len(),
{
    match m {
        EntryModel::File { data } => {
            assert(c.drop_last().len() >= 0);
            if c.drop_last().len() == 0 {
                assert(walk_at(m, c.drop_last()) == WalkOutcome::Found(m));
                assert(false);
            } else {
                assert(false);
            }
        },
        EntryModel::Dir { children } => {
            if c.len() == 1 {
                lemma_child_put_absorb(children, c[0], x, y);
            } else {
                assert(c.drop_last().len() > 0);
                assert(c.drop_last()[0] == c[0]);
                match child_at(children, c[0]) {
                    Option::None => {
                        assert(walk_at(m, c.drop_last()) is MissingEntry);
                        assert(false);
                    },
                    Option::Some(e) => {
                        lemma_child_at_wf(children, c[0]);
                        assert(c.drop_last().drop_first() =~= c.drop_first().drop_last());
                        let ex = tree_put(e, c.drop_first(), x);
                        lemma_child_put_at(children, c[0], ex, c[0]);
                        lemma_tree_put_twice(e, c.drop_first(), x, y);
                        lemma_child_put_absorb(
                            children,
                            c[0],
                            ex,
                            tree_put(e, c.drop_first(), y),
                        );
                    },
                }
            }
        },
    }
}

/// Binding one step beneath a directory rebinds that directory with the
/// child bound among its children.
pub proof fn lemma_tree_put_child(m: EntryModel, c: Seq<Seq<char>>, n: Seq<char>, v: EntryModel)
    requires
        entry_wf(m),
        c.len() > 0,
        lookup_at(m, c) matches Option::Some(EntryModel::Dir { .. }),
    ensures
        tree_put(m, c + seq![n], v) == tree_put(
            m,
            c,
            (EntryModel::Dir {
                children: child_put(lookup_at(m, c)->Some_0->Dir_children, n, v),
            }),
        ),
    decreases c.len(),
{
    let cn = c + seq![n];
    assert(cn.len() == c.len() + 1);
    assert(cn[0] == c[0]);
    match m {
        EntryModel::File { data } => {},
        EntryModel::Dir { children } => {
            match child_at(children, c[0]) {
                Option::None => {},
                Option::Some(e) => {
                    lemma_child_at_wf(children, c[0]);
                    if c.len() == 1 {
                        assert(c.drop_first() =~= Seq::<Seq<char>>::empty());
                        assert(lookup_at(m, c) == Option::Some(e));
                        let cs = e->Dir_children;
                        assert(cn.drop_first() =~= seq![n]);
                        assert(tree_put(e, seq![n], v) == (EntryModel::Dir {
                            children: child_put(cs, n, v),
                        }));
                        assert(tree_put(m, cn, v) =~= tree_put(
                            m,
                            c,
                            (EntryModel::Dir { children: child_put(cs, n, v) }),
                        ));
                    } else {
                        assert(lookup_at(m, c) == lookup_at(e, c.drop_first()));
                        assert(cn.drop_first() =~= c.drop_first() + seq![n]);
                        lemma_tree_put_child(e, c.drop_first(), n, v);
                        assert(tree_put(m, cn, v) =~= tree_put(
                            m,
                            c,
                            (EntryModel::Dir {
                                children: child_put(lookup_at(m, c)->Some_0->Dir_children, n, v),
                            }),
                        ));
                    }
                },
            }
        },
    }
}

/// Well-formed children stay well-formed under one appended child.
pub proof fn lemma_children_wf_push(cs: Seq<(Seq<char>, EntryModel)>, x: (Seq<char>, EntryModel))
    requires
        children_wf(cs),
        valid_name(x.0),
        entry_wf(x.1),
    ensures
        children_wf(cs.push(x)),
    decreases cs.len(),
{
    if cs.len() == 0 {
        assert(cs.push(x).drop_first() =~= Seq::<(Seq<char>, EntryModel)>::empty());
        assert(children_wf(Seq::<(Seq<char>, EntryModel)>::empty()));
        assert(cs.push(x)[0] == x);
    } else {
        lemma_children_wf_push(cs.drop_first(), x);
        assert(cs.push(x).drop_first() =~= cs.drop_first().push(x));
        assert(cs.push(x)[0] == cs[0]);
    }
}

/// Binding a fresh path never unmakes a directory: every path that denoted
/// a directory still does.
pub proof fn lemma_tree_put_preserves_dirs(
    m: EntryModel,
    c: Seq<Seq<char>>,
    v: EntryModel,
    q: Seq<Seq<char>>,
)
    requires
        entry_wf(m),
        c.len() > 0,
        lookup_at(m, c) is None,
        is_dir_at(m, q),
    ensures
        is_dir_at(tree_put(m, c, v), q),
{
    if is_prefix_of(q, c) {
        if q.len() == c.len() {
            assert(q =~= c.take(q.len() as int));
            assert(q =~= c);
            assert(false);
        } else {
            lemma_tree_put_prefix_dir(m, c, v, q);
        }
    } else if is_prefix_of(c, q) {
        lemma_lookup_none_extends(m, c, q);
        assert(false);
    } else {
        lemma_tree_put_frame(m, c, v, q);
    }
}

/// Whatever resolves inside a well-formed tree is well-formed.
pub proof fn lemma_lookup_wf(m: EntryModel, c: Seq<Seq<char>>)
    requires
        entry_wf(m),
        lookup_at(m, c) is Some,
    ensures
        entry_wf(lookup_at(m, c)->Some_0),
    decreases c.len(),
{
    if c.len() > 0 {
        match m {
            EntryModel::File { data } => {},
            EntryModel::Dir { children } => {
                match child_at(children, c[0]) {
                    Option::None => {},
                    Option::Some(e) => {
                        lemma_child_at_wf(children, c[0]);
                        lemma_lookup_wf(e, c.drop_first());
                    },
                }
            },
        }
    }
}

/// No child is taller than the tallest child.
pub proof fn lemma_child_height(cs: Seq<(Seq<char>, EntryModel)>, i: int)
    requires
        0 <= i < cs.len(),
    ensures
        eheight(cs[i].1) <= child_heights_max(cs),
    decreases cs.len(),
{
    if i > 0 {
        lemma_child_height(cs.drop_first(), i - 1);
        assert(cs.drop_first()[i - 1] == cs[i]);
    }
}

} // verus!
