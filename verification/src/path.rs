//! Paths as sequences of segments, and the relations between them that the
//! tree index is built on.

use vstd::prelude::*;

verus! {

/// The parent of a path: the path without its last segment. The empty path has
/// no parent.
pub open spec fn parent_of(path: Seq<Seq<char>>) -> Option<Seq<Seq<char>>> {
    if path.len() == 0 {
        None
    } else {
        Some(path.drop_last())
    }
}

/// `a` lies strictly above `d`: `a` is a proper prefix of `d`, segment by segment.
pub open spec fn is_ancestor(a: Seq<Seq<char>>, d: Seq<Seq<char>>) -> bool {
    a.len() < d.len() && d.take(a.len() as int) == a
}

/// `a` is `d` itself or lies above it.
pub open spec fn is_prefix(a: Seq<Seq<char>>, d: Seq<Seq<char>>) -> bool {
    a.len() <= d.len() && d.take(a.len() as int) == a
}

/// The path `steps` levels above `path`: `path` without its last `steps`
/// segments. There is none where `path` has fewer segments.
pub open spec fn ancestor_at(path: Seq<Seq<char>>, steps: nat) -> Option<Seq<Seq<char>>> {
    if steps <= path.len() {
        Some(path.take(path.len() - steps))
    } else {
        None
    }
}

/// A prefix of a prefix is a prefix.
pub proof fn lemma_prefix_transitive(a: Seq<Seq<char>>, b: Seq<Seq<char>>, c: Seq<Seq<char>>)
    requires
        is_prefix(a, b),
        is_prefix(b, c),
    ensures
        is_prefix(a, c),
{
    assert forall|k: int| 0 <= k < a.len() implies c.take(a.len() as int)[k] == a[k] by {
        assert(b.take(a.len() as int)[k] == a[k]);
        assert(c.take(b.len() as int)[k] == b[k]);
    }
    assert(c.take(a.len() as int) =~= a);
}

/// A prefix as long as the path is the path itself.
pub proof fn lemma_prefix_of_same_length(a: Seq<Seq<char>>, b: Seq<Seq<char>>)
    requires
        is_prefix(a, b),
        a.len() == b.len(),
    ensures
        a == b,
{
    assert(b.take(b.len() as int) =~= b);
}

/// What lies above a path is its parent or lies above its parent, and the
/// parent lies above the path.
pub proof fn lemma_ancestor_reaches_parent(a: Seq<Seq<char>>, d: Seq<Seq<char>>)
    requires
        d.len() > 0,
    ensures
        is_ancestor(d.drop_last(), d),
        is_ancestor(a, d) <==> is_prefix(a, d.drop_last()),
{
    let parent = d.drop_last();
    assert(d.take(parent.len() as int) =~= parent);
    if is_ancestor(a, d) {
        assert(parent.take(a.len() as int) =~= d.take(a.len() as int));
    }
    if is_prefix(a, parent) {
        assert(parent.take(a.len() as int) =~= d.take(a.len() as int));
    }
}

/// Whether the first `len` segments of `a` and of `b` are the same.
pub fn heads_equal(a: &Vec<String>, b: &Vec<String>, len: usize) -> (r: bool)
    requires
        len <= a.len(),
        len <= b.len(),
    ensures
        r == (a.deep_view().take(len as int) == b.deep_view().take(len as int)),
{
    let mut i: usize = 0;
    while i < len
        invariant
            i <= len,
            len <= a.len(),
            len <= b.len(),
            forall|k: int| 0 <= k < i ==> a.deep_view()[k] == b.deep_view()[k],
        decreases len - i,
    {
        if a[i] != b[i] {
            assert(a.deep_view().take(len as int)[i as int] != b.deep_view().take(len as int)[i as int]);
            return false;
        }
        i += 1;
    }
    assert(a.deep_view().take(len as int) =~= b.deep_view().take(len as int));
    true
}

/// Whether the path `a_steps` levels above `a` is the path `b_steps` levels
/// above `b`. Where neither has such a path, they count as the same.
pub fn same_ancestor(a: &Vec<String>, a_steps: usize, b: &Vec<String>, b_steps: usize) -> (r: bool)
    ensures
        r == (ancestor_at(a.deep_view(), a_steps as nat) == ancestor_at(
            b.deep_view(),
            b_steps as nat,
        )),
{
    let a_has = a_steps <= a.len();
    let b_has = b_steps <= b.len();
    if !a_has || !b_has {
        return a_has == b_has;
    }
    let a_len = a.len() - a_steps;
    let b_len = b.len() - b_steps;
    if a_len != b_len {
        assert(a.deep_view().take(a_len as int).len() != b.deep_view().take(b_len as int).len());
        return false;
    }
    heads_equal(a, b, a_len)
}

/// Whether two paths have the same parent. Two paths without a parent count
/// as sharing it.
pub fn same_parent(a: &Vec<String>, b: &Vec<String>) -> (r: bool)
    ensures
        r == (parent_of(a.deep_view()) == parent_of(b.deep_view())),
{
    let n = a.len();
    if n != b.len() {
        assert(a.deep_view().len() != b.deep_view().len());
        assert(a.deep_view().drop_last().len() != b.deep_view().drop_last().len() || n == 0
            || b.len() == 0);
        return false;
    }
    if n == 0 {
        return true;
    }
    let r = heads_equal(a, b, n - 1);
    assert(a.deep_view().drop_last() == a.deep_view().take(n - 1));
    assert(b.deep_view().drop_last() == b.deep_view().take(n - 1));
    r
}

} // verus!
