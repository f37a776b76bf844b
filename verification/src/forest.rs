//! The mathematical model: a parent sequence read as a forest.

use vstd::prelude::*;

verus! {

/// No element points above itself, so every chain of parent links descends
/// until it stops at a self-parented element.
pub open spec fn is_forest(parents: Seq<usize>) -> bool {
    forall|i: int| 0 <= i < parents.len() ==> #[trigger] parents[i] <= i
}

/// `x` is a valid index that is its own parent.
pub open spec fn is_root(parents: Seq<usize>, x: int) -> bool {
    0 <= x < parents.len() && parents[x] == x
}

/// The element reached from `x` by following parent links for as long as they
/// descend. An index outside the sequence stands for itself.
pub open spec fn root_of(parents: Seq<usize>, x: int) -> int
    decreases x,
{
    if 0 <= x < parents.len() && parents[x] < x {
        root_of(parents, parents[x] as int)
    } else {
        x
    }
}

/// `x` and `y` are valid indices of the same component.
pub open spec fn same_component(parents: Seq<usize>, x: int, y: int) -> bool {
    &&& 0 <= x < parents.len()
    &&& 0 <= y < parents.len()
    &&& root_of(parents, x) == root_of(parents, y)
}

/// The parent sequence after `x` has been pointed straight at its root.
pub open spec fn compress(parents: Seq<usize>, x: int) -> Seq<usize> {
    parents.update(x, root_of(parents, x) as usize)
}

/// The parent sequence after the larger of `a` and `b` has been hung under the
/// smaller one.
pub open spec fn link(parents: Seq<usize>, a: int, b: int) -> Seq<usize> {
    if a > b {
        parents.update(a, b as usize)
    } else {
        parents.update(b, a as usize)
    }
}

/// The parent sequence after the components of `x` and `y` have been merged:
/// both endpoints are compressed, then the two roots are linked. Merging an
/// element with itself changes nothing.
pub open spec fn merge(parents: Seq<usize>, x: int, y: int) -> Seq<usize> {
    if x == y {
        parents
    } else {
        link(
            parents.update(x, root_of(parents, x) as usize).update(
                y,
                root_of(parents, y) as usize,
            ),
            root_of(parents, x),
            root_of(parents, y),
        )
    }
}

/// The root of `i` once the components of `x` and `y` are one: the smaller of
/// the two roots for the elements of either component, the old root for the
/// rest.
pub open spec fn merged_root(parents: Seq<usize>, x: int, y: int, i: int) -> int {
    let rx = root_of(parents, x);
    let ry = root_of(parents, y);
    let ri = root_of(parents, i);
    if ri == rx || ri == ry {
        if rx <= ry {
            rx
        } else {
            ry
        }
    } else {
        ri
    }
}

/// The root of a valid element is a valid root, not above the element.
pub proof fn lemma_root_of_is_root(parents: Seq<usize>, x: int)
    requires
        is_forest(parents),
        0 <= x < parents.len(),
    ensures
        0 <= root_of(parents, x) <= x,
        is_root(parents, root_of(parents, x)),
        root_of(parents, root_of(parents, x)) == root_of(parents, x),
    decreases x,
{
    if parents[x] < x {
        lemma_root_of_is_root(parents, parents[x] as int);
    }
}

/// Compressing `x` keeps the forest shape and the root of every element.
pub proof fn lemma_compress_keeps_roots(parents: Seq<usize>, x: int)
    requires
        is_forest(parents),
        0 <= x < parents.len(),
    ensures
        is_forest(compress(parents, x)),
        forall|i: int| #[trigger] root_of(compress(parents, x), i) == root_of(parents, i),
{
    lemma_root_of_is_root(parents, x);
    assert forall|i: int| #[trigger]
        root_of(compress(parents, x), i) == root_of(parents, i) by {
        lemma_compress_keeps_root(parents, x, i);
    }
}

proof fn lemma_compress_keeps_root(parents: Seq<usize>, x: int, i: int)
    requires
        is_forest(parents),
        0 <= x < parents.len(),
    ensures
        root_of(compress(parents, x), i) == root_of(parents, i),
    decreases i,
{
    let r = root_of(parents, x);
    let after = compress(parents, x);
    lemma_root_of_is_root(parents, x);
    if 0 <= i < parents.len() {
        if i == x {
            if r < x {
                assert(after[r] == r);
                assert(root_of(after, r) == r);
            }
        } else if parents[i] < i {
            lemma_compress_keeps_root(parents, x, parents[i] as int);
        }
    }
}

/// Hanging the root `b` under the root `a <= b` moves the elements of `b`'s
/// component to `a` and leaves every other root alone.
proof fn lemma_link_moves_root(parents: Seq<usize>, a: int, b: int, i: int)
    requires
        is_forest(parents),
        is_root(parents, a),
        is_root(parents, b),
        a <= b,
    ensures
        root_of(parents.update(b, a as usize), i) == if root_of(parents, i) == b {
            a
        } else {
            root_of(parents, i)
        },
    decreases i,
{
    let after = parents.update(b, a as usize);
    if 0 <= i < parents.len() {
        if i == b {
            if a < b {
                assert(after[a] == a);
                assert(root_of(after, a) == a);
            }
        } else if parents[i] < i {
            lemma_link_moves_root(parents, a, b, parents[i] as int);
        }
    }
}

/// Merging `x` and `y` keeps the forest shape and gives every element the
/// root that [`merged_root`] names.
pub proof fn lemma_merge_roots(parents: Seq<usize>, x: int, y: int)
    requires
        is_forest(parents),
        0 <= x < parents.len(),
        0 <= y < parents.len(),
    ensures
        is_forest(merge(parents, x, y)),
        merge(parents, x, y).len() == parents.len(),
        forall|i: int| #[trigger]
            root_of(merge(parents, x, y), i) == merged_root(parents, x, y, i),
{
    let rx = root_of(parents, x);
    let ry = root_of(parents, y);
    lemma_root_of_is_root(parents, x);
    lemma_root_of_is_root(parents, y);
    if x != y {
        let first = compress(parents, x);
        lemma_compress_keeps_roots(parents, x);
        let second = compress(first, y);
        lemma_compress_keeps_roots(first, y);
        assert forall|i: int| root_of(second, i) == root_of(parents, i) by {
            assert(root_of(first, i) == root_of(parents, i));
        }
        lemma_root_of_is_root(second, x);
        lemma_root_of_is_root(second, y);
        let lo = if rx <= ry { rx } else { ry };
        let hi = if rx <= ry { ry } else { rx };
        assert(merge(parents, x, y) == second.update(hi, lo as usize));
        assert forall|i: int| #[trigger]
            root_of(merge(parents, x, y), i) == merged_root(parents, x, y, i) by {
            lemma_link_moves_root(second, lo, hi, i);
        }
    }
}

} // verus!
