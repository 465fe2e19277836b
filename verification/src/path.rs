//! The path normalizer: a pure function turning a path string into a
//! canonical sequence of name components.
//!
//! Separators split the string into segments. Empty segments (including a
//! leading one from an absolute path, since resolution is always anchored at
//! the sandbox root) and `.` are dropped; `..` pops the last accumulated
//! component and fails once the sequence is empty, so no path can step above
//! the root; every other segment is appended verbatim.

use crate::model::{valid_comps, valid_name};
use crate::XfsError;
use vstd::prelude::*;

verus! {

/// Folds one finished segment into the accumulated components: empty and `.`
/// are dropped, `..` pops (and fails on an empty accumulator), anything else
/// is appended.
pub open spec fn norm_seg(acc: Option<Seq<Seq<char>>>, seg: Seq<char>) -> Option<Seq<Seq<char>>> {
    match acc {
        Option::None => Option::None,
        Option::Some(a) => {
            if seg.len() == 0 || (seg.len() == 1 && seg[0] == '.') {
                Option::Some(a)
            } else if seg.len() == 2 && seg[0] == '.' && seg[1] == '.' {
                if a.len() == 0 {
                    Option::None
                } else {
                    Option::Some(a.drop_last())
                }
            } else {
                Option::Some(a.push(seg))
            }
        },
    }
}

/// Processes the remaining characters of a path, given the components
/// accumulated so far and the segment currently being read.
pub open spec fn norm_from(
    s: Seq<char>,
    acc: Option<Seq<Seq<char>>>,
    cur: Seq<char>,
) -> Option<Seq<Seq<char>>>
    decreases s.len(),
{
    if s.len() == 0 {
        norm_seg(acc, cur)
    } else if s[0] == '/' {
        norm_from(s.drop_first(), norm_seg(acc, cur), Seq::empty())
    } else {
        norm_from(s.drop_first(), acc, cur.push(s[0]))
    }
}

/// The canonical component sequence of a path, or `None` when a `..` steps
/// above the sandbox root.
pub open spec fn spec_normalize(s: Seq<char>) -> Option<Seq<Seq<char>>> {
    norm_from(s, Option::Some(Seq::empty()), Seq::empty())
}

/// A failed accumulator never recovers.
pub proof fn lemma_norm_from_none(s: Seq<char>, cur: Seq<char>)
    ensures
        norm_from(s, Option::None, cur) is None,
    decreases s.len(),
{
    if s.len() > 0 {
        if s[0] == '/' {
            lemma_norm_from_none(s.drop_first(), Seq::empty());
        } else {
            lemma_norm_from_none(s.drop_first(), cur.push(s[0]));
        }
    }
}

/// Normalization only produces valid components: non-empty, free of `/`,
/// and never `.` or `..`.
pub proof fn lemma_norm_from_valid(s: Seq<char>, a: Seq<Seq<char>>, cur: Seq<char>)
    requires
        valid_comps(a),
        forall|i: int| 0 <= i < cur.len() ==> cur[i] != '/',
        norm_from(s, Option::Some(a), cur) is Some,
    ensures
        valid_comps(norm_from(s, Option::Some(a), cur)->Some_0),
    decreases s.len(),
{
    if s.len() == 0 {
        lemma_norm_seg_valid(a, cur);
    } else if s[0] == '/' {
        match norm_seg(Option::Some(a), cur) {
            Option::None => {
                lemma_norm_from_none(s.drop_first(), Seq::empty());
            },
            Option::Some(a2) => {
                lemma_norm_seg_valid(a, cur);
                lemma_norm_from_valid(s.drop_first(), a2, Seq::empty());
            },
        }
    } else {
        assert(forall|i: int| 0 <= i < cur.push(s[0]).len() ==> cur.push(s[0])[i] != '/');
        lemma_norm_from_valid(s.drop_first(), a, cur.push(s[0]));
    }
}

/// Folding one separator-free segment into valid components keeps them valid.
pub proof fn lemma_norm_seg_valid(a: Seq<Seq<char>>, cur: Seq<char>)
    requires
        valid_comps(a),
        forall|i: int| 0 <= i < cur.len() ==> cur[i] != '/',
        norm_seg(Option::Some(a), cur) is Some,
    ensures
        valid_comps(norm_seg(Option::Some(a), cur)->Some_0),
{
    let r = norm_seg(Option::Some(a), cur)->Some_0;
    if cur.len() == 0 || (cur.len() == 1 && cur[0] == '.') {
    } else if cur.len() == 2 && cur[0] == '.' && cur[1] == '.' {
        assert(forall|i: int| 0 <= i < a.drop_last().len() ==> a.drop_last()[i] == a[i]);
    } else {
        assert(valid_name(cur));
        assert(forall|i: int| 0 <= i < a.len() ==> r[i] == a[i]);
    }
}

/// Renders a component sequence back into a path string, with `/` between
/// components.
pub open spec fn join_comps(c: Seq<Seq<char>>) -> Seq<char>
    decreases c.len(),
{
    if c.len() == 0 {
        Seq::empty()
    } else if c.len() == 1 {
        c[0]
    } else {
        c[0] + seq!['/'] + join_comps(c.drop_first())
    }
}

/// Reading a separator-free stretch of characters only grows the current
/// segment.
pub proof fn lemma_norm_from_seg(
    seg: Seq<char>,
    rest: Seq<char>,
    acc: Option<Seq<Seq<char>>>,
    cur: Seq<char>,
)
    requires
        forall|i: int| 0 <= i < seg.len() ==> seg[i] != '/',
    ensures
        norm_from(seg + rest, acc, cur) == norm_from(rest, acc, cur + seg),
    decreases seg.len(),
{
    if seg.len() == 0 {
        assert(seg + rest =~= rest);
        assert(cur + seg =~= cur);
    } else {
        assert((seg + rest)[0] == seg[0]);
        assert((seg + rest).drop_first() =~= seg.drop_first() + rest);
        lemma_norm_from_seg(seg.drop_first(), rest, acc, cur.push(seg[0]));
        assert(cur.push(seg[0]) + seg.drop_first() =~= cur + seg);
    }
}

/// Normalizing the rendering of valid components appends them to whatever
/// was already accumulated.
pub proof fn lemma_norm_join(c: Seq<Seq<char>>, a: Seq<Seq<char>>)
    requires
        valid_comps(c),
    ensures
        norm_from(join_comps(c), Option::Some(a), Seq::empty()) == Option::Some(a + c),
    decreases c.len(),
{
    if c.len() == 0 {
        assert(a + c =~= a);
    } else if c.len() == 1 {
        assert(valid_name(c[0]));
        lemma_norm_from_seg(c[0], Seq::empty(), Option::Some(a), Seq::empty());
        assert(c[0] + Seq::<char>::empty() =~= c[0]);
        assert(Seq::<char>::empty() + c[0] =~= c[0]);
        assert(norm_seg(Option::Some(a), c[0]) == Option::Some(a.push(c[0])));
        assert(a.push(c[0]) =~= a + c);
    } else {
        assert(valid_name(c[0]));
        let tail: Seq<char> = seq!['/'] + join_comps(c.drop_first());
        assert(join_comps(c) =~= c[0] + tail);
        lemma_norm_from_seg(c[0], tail, Option::Some(a), Seq::empty());
        assert(Seq::<char>::empty() + c[0] =~= c[0]);
        assert(tail[0] == '/');
        assert(tail.drop_first() =~= join_comps(c.drop_first()));
        assert(norm_seg(Option::Some(a), c[0]) == Option::Some(a.push(c[0])));
        assert(valid_comps(c.drop_first())) by {
            assert(forall|i: int|
                0 <= i < c.drop_first().len() ==> #[trigger] c.drop_first()[i] == c[i + 1]);
        }
        lemma_norm_join(c.drop_first(), a.push(c[0]));
        assert(a.push(c[0]) + c.drop_first() =~= a + c);
    }
}

/// Appending a separator and a valid name appends one component.
pub proof fn lemma_norm_join_insert(
    s: Seq<char>,
    acc: Option<Seq<Seq<char>>>,
    cur: Seq<char>,
    n: Seq<char>,
)
    requires
        valid_name(n),
    ensures
        norm_from(s + (seq!['/'] + n), acc, cur) == (match norm_from(s, acc, cur) {
            Option::Some(c) => Option::Some(c.push(n)),
            Option::None => Option::<Seq<Seq<char>>>::None,
        }),
    decreases s.len(),
{
    let tail: Seq<char> = seq!['/'] + n;
    if s.len() == 0 {
        assert(s + tail =~= tail);
        assert(tail[0] == '/');
        assert(tail.drop_first() =~= n);
        lemma_norm_from_seg(n, Seq::empty(), norm_seg(acc, cur), Seq::empty());
        assert(n + Seq::<char>::empty() =~= n);
        assert(Seq::<char>::empty() + n =~= n);
        match norm_seg(acc, cur) {
            Option::None => {},
            Option::Some(c) => {
                assert(norm_seg(Option::Some(c), n) == Option::Some(c.push(n)));
            },
        }
    } else {
        assert((s + tail)[0] == s[0]);
        assert((s + tail).drop_first() =~= s.drop_first() + tail);
        if s[0] == '/' {
            lemma_norm_join_insert(s.drop_first(), norm_seg(acc, cur), Seq::empty(), n);
        } else {
            lemma_norm_join_insert(s.drop_first(), acc, cur.push(s[0]), n);
        }
    }
}

/// Appending a valid name to a path that ends in a separator appends one
/// component.
pub proof fn lemma_norm_join_slash(
    s: Seq<char>,
    acc: Option<Seq<Seq<char>>>,
    cur: Seq<char>,
    n: Seq<char>,
)
    requires
        s.len() > 0,
        s.last() == '/',
        valid_name(n),
    ensures
        norm_from(s + n, acc, cur) == (match norm_from(s, acc, cur) {
            Option::Some(c) => Option::Some(c.push(n)),
            Option::None => Option::<Seq<Seq<char>>>::None,
        }),
    decreases s.len(),
{
    if s.len() == 1 {
        assert(s[0] == '/');
        assert((s + n)[0] == '/');
        assert((s + n).drop_first() =~= n);
        lemma_norm_from_seg(n, Seq::empty(), norm_seg(acc, cur), Seq::empty());
        assert(n + Seq::<char>::empty() =~= n);
        assert(Seq::<char>::empty() + n =~= n);
        assert(s.drop_first() =~= Seq::<char>::empty());
        match norm_seg(acc, cur) {
            Option::None => {},
            Option::Some(c) => {
                assert(norm_seg(Option::Some(c), n) == Option::Some(c.push(n)));
                assert(norm_seg(Option::Some(c), Seq::empty()) == Option::Some(c));
            },
        }
    } else {
        assert((s + n)[0] == s[0]);
        assert((s + n).drop_first() =~= s.drop_first() + n);
        assert(s.drop_first().len() > 0);
        assert(s.drop_first().last() == s.last());
        if s[0] == '/' {
            lemma_norm_join_slash(s.drop_first(), norm_seg(acc, cur), Seq::empty(), n);
        } else {
            lemma_norm_join_slash(s.drop_first(), acc, cur.push(s[0]), n);
        }
    }
}

/// Joining a valid name beneath a path appends exactly one component to the
/// path's normalization.
pub proof fn lemma_normalize_join(p: Seq<char>, n: Seq<char>)
    requires
        spec_normalize(p) is Some,
        valid_name(n),
    ensures
        spec_normalize(crate::mockfs::spec_join(p, n)) == Option::Some(
            spec_normalize(p)->Some_0.push(n),
        ),
{
    if p.len() == 0 {
        lemma_norm_from_seg(n, Seq::empty(), Option::Some(Seq::empty()), Seq::empty());
        assert(n + Seq::<char>::empty() =~= n);
        assert(Seq::<char>::empty() + n =~= n);
        assert(crate::mockfs::spec_join(p, n) == n);
        assert(spec_normalize(p) == Option::Some(Seq::<Seq<char>>::empty()));
        assert(norm_seg(Option::Some(Seq::<Seq<char>>::empty()), n) == Option::Some(
            Seq::<Seq<char>>::empty().push(n),
        ));
    } else if p.last() == '/' {
        lemma_norm_join_slash(p, Option::Some(Seq::empty()), Seq::empty(), n);
        assert(crate::mockfs::spec_join(p, n) == p + n);
    } else {
        lemma_norm_join_insert(p, Option::Some(Seq::empty()), Seq::empty(), n);
        assert(crate::mockfs::spec_join(p, n) =~= p + (seq!['/'] + n));
    }
}

/// Normalization is idempotent: rendering the components a path normalizes
/// to and normalizing again gives the same components. This holds for every
/// path the normalizer accepts, that is, for every component sequence that
/// does not step past the root.
pub proof fn lemma_normalize_idempotent(s: Seq<char>)
    requires
        spec_normalize(s) is Some,
    ensures
        spec_normalize(join_comps(spec_normalize(s)->Some_0)) == spec_normalize(s),
{
    let c = spec_normalize(s)->Some_0;
    lemma_norm_from_valid(s, Seq::empty(), Seq::empty());
    lemma_norm_join(c, Seq::empty());
    assert(Seq::<Seq<char>>::empty() + c =~= c);
}

/// Turns a path string into its canonical component sequence, resolving `.`
/// and `..` purely syntactically and rejecting any path that would step
/// above the sandbox root.
pub fn normalize_path(p: &str) -> (r: Result<Vec<String>, XfsError>)
    ensures
        match r {
            Ok(c) => {
                &&& spec_normalize(p@) == Option::Some(c.deep_view())
                &&& valid_comps(c.deep_view())
            },
            Err(e) => {
                &&& spec_normalize(p@) is None
                &&& e matches XfsError::PathOutsideSandbox { path } && path@ == p@
            },
        },
{
    let n = p.unicode_len();
    let mut result: Vec<String> = Vec::new();
    let mut start: usize = 0;
    let mut i: usize = 0;
    proof {
        assert(p@.skip(0) =~= p@);
        assert(p@.subrange(0, 0) =~= Seq::<char>::empty());
        assert(result.deep_view() =~= Seq::<Seq<char>>::empty());
    }
    loop
        invariant
            start <= i <= n,
            n == p@.len(),
            forall|j: int| start <= j < i ==> p@[j] != '/',
            valid_comps(result.deep_view()),
            spec_normalize(p@) == norm_from(
                p@.skip(i as int),
                Option::Some(result.deep_view()),
                p@.subrange(start as int, i as int),
            ),
        decreases 2 * n - i - start + 1,
    {
        if i == n || p.get_char(i) == '/' {
            let ghost acc0 = result.deep_view();
            let ghost cur = p@.subrange(start as int, i as int);
            // Fold the finished segment [start, i) into the result.
            if i == start {
                // Empty segment: a leading, doubled, or trailing separator.
            } else if i - start == 1 && p.get_char(start) == '.' {
                assert(cur.len() == 1 && cur[0] == '.');
            } else if i - start == 2 && p.get_char(start) == '.' && p.get_char(start + 1) == '.' {
                assert(cur.len() == 2 && cur[0] == '.' && cur[1] == '.');
                if result.len() == 0 {
                    assert(norm_seg(Option::Some(acc0), cur) is None);
                    proof {
                        if i < n {
                            lemma_norm_from_none(p@.skip(i as int).drop_first(), Seq::empty());
                            assert(p@.skip(i as int).drop_first() =~= p@.skip(i + 1));
                        }
                    }
                    return Err(XfsError::PathOutsideSandbox { path: p.to_owned() });
                } else {
                    result.pop();
                    assert(result.deep_view() =~= acc0.drop_last());
                }
            } else {
                let seg = p.substring_char(start, i).to_owned();
                assert(seg@ == cur);
                result.push(seg);
                assert(result.deep_view() =~= acc0.push(cur));
                assert(valid_name(cur));
                assert(valid_comps(result.deep_view()));
            }
            assert(norm_seg(Option::Some(acc0), cur) == Option::Some(result.deep_view()));
            if i == n {
                assert(p@.skip(i as int).len() == 0);
                assert(spec_normalize(p@) == Option::Some(result.deep_view()));
                return Ok(result);
            }
            proof {
                assert(p@.skip(i as int)[0] == p@[i as int]);
                assert(p@.skip(i as int).drop_first() =~= p@.skip(i + 1));
                assert(p@.subrange(i + 1, i + 1) =~= Seq::<char>::empty());
            }
            start = i + 1;
            i = i + 1;
        } else {
            proof {
                assert(p@.skip(i as int)[0] == p@[i as int]);
                assert(p@.skip(i as int).drop_first() =~= p@.skip(i + 1));
                assert(p@.subrange(start as int, i + 1) =~= p@.subrange(start as int, i as int).push(
                    p@[i as int],
                ));
            }
            i = i + 1;
        }
    }
}

} // verus!
