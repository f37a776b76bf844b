//! What holds of every forest and of every sequence of operations on it.

use crate::forest::{
    compress, is_forest, is_root, lemma_compress_keeps_roots, lemma_merge_roots,
    lemma_root_of_is_root, merge, root_of, same_component,
};
use crate::paths::{lemma_path_connected_iff_same_root, path_connected};
use vstd::prelude::*;

verus! {

/// The elements whose root is `r`.
pub open spec fn component(parents: Seq<usize>, r: int) -> Set<int> {
    Set::new(|i: int| 0 <= i < parents.len() && root_of(parents, i) == r)
}

/// The root of an element is what following its parents leads to: the element
/// itself where it is its own parent, else the root of its parent.
pub proof fn lemma_root_follows_parents(parents: Seq<usize>, x: int)
    requires
        is_forest(parents),
        0 <= x < parents.len(),
    ensures
        root_of(parents, x) == if parents[x] == x {
            x
        } else {
            root_of(parents, parents[x] as int)
        },
{
}

/// Looking an element up twice gives the same root both times. After the
/// first lookup the element's parent is that root, so the second lookup takes
/// one step and changes nothing.
pub proof fn lemma_find_idempotent(parents: Seq<usize>, x: int)
    requires
        is_forest(parents),
        0 <= x < parents.len(),
    ensures
        root_of(compress(parents, x), x) == root_of(parents, x),
        compress(parents, x)[x] == root_of(parents, x),
        is_root(compress(parents, x), root_of(parents, x)),
        compress(compress(parents, x), x) == compress(parents, x),
{
    lemma_root_of_is_root(parents, x);
    lemma_compress_keeps_roots(parents, x);
    assert(root_of(compress(parents, x), x) == root_of(parents, x));
}

/// After two elements have been merged they have the same root, and a lookup
/// of one of them does not part them again.
pub proof fn lemma_union_joins(parents: Seq<usize>, x: int, y: int)
    requires
        is_forest(parents),
        0 <= x < parents.len(),
        0 <= y < parents.len(),
    ensures
        same_component(merge(parents, x, y), x, y),
        same_component(compress(merge(parents, x, y), x), x, y),
{
    lemma_merge_roots(parents, x, y);
    let merged = merge(parents, x, y);
    assert(root_of(merged, x) == root_of(merged, y));
    lemma_compress_keeps_roots(merged, x);
    assert(root_of(compress(merged, x), x) == root_of(merged, x));
    assert(root_of(compress(merged, x), y) == root_of(merged, y));
}

/// The root of an element is joined to it by parent links, and no element
/// joined to it by parent links is smaller than the root.
pub proof fn lemma_root_is_minimum(parents: Seq<usize>, x: int)
    requires
        is_forest(parents),
        0 <= x < parents.len(),
    ensures
        path_connected(parents, x, root_of(parents, x)),
        forall|j: int| #[trigger] path_connected(parents, x, j) ==> root_of(parents, x) <= j,
{
    lemma_root_of_is_root(parents, x);
    lemma_path_connected_iff_same_root(parents, x, root_of(parents, x));
    assert forall|j: int| #[trigger] path_connected(parents, x, j) implies root_of(parents, x)
        <= j by {
        lemma_path_connected_iff_same_root(parents, x, j);
        lemma_root_of_is_root(parents, j);
    }
}

/// The components of the roots partition the elements: every element lies in
/// the component of its root, which is a root; every root lies in its own
/// component; a component holds valid elements only; and no element lies in
/// the components of two roots.
pub proof fn lemma_components_partition(parents: Seq<usize>)
    requires
        is_forest(parents),
    ensures
        forall|i: int|
            0 <= i < parents.len() ==> is_root(parents, #[trigger] root_of(parents, i))
                && component(parents, root_of(parents, i)).contains(i),
        forall|r: int| #[trigger] is_root(parents, r) ==> component(parents, r).contains(r),
        forall|r: int, i: int| #[trigger]
            component(parents, r).contains(i) ==> 0 <= i < parents.len(),
        forall|r: int, s: int, i: int|
            #[trigger] component(parents, r).contains(i) && #[trigger] component(
                parents,
                s,
            ).contains(i) ==> r == s,
{
    assert forall|i: int| 0 <= i < parents.len() implies is_root(
        parents,
        #[trigger] root_of(parents, i),
    ) && component(parents, root_of(parents, i)).contains(i) by {
        lemma_root_of_is_root(parents, i);
    }
}

/// Merging an element with itself leaves the parent mapping as it was.
pub proof fn lemma_union_self(parents: Seq<usize>, x: int)
    ensures
        merge(parents, x, x) == parents,
{
}

} // verus!
