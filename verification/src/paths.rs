//! Connectivity by walks along parent links, and its agreement with the root
//! function.

use crate::forest::{is_forest, is_root, lemma_root_of_is_root, root_of, same_component};
use vstd::prelude::*;

verus! {

/// One parent link joins `a` and `b`, in either direction.
pub open spec fn adjacent(parents: Seq<usize>, a: int, b: int) -> bool {
    &&& 0 <= a < parents.len()
    &&& 0 <= b < parents.len()
    &&& (parents[a] == b || parents[b] == a)
}

/// `path` is a walk over valid elements in which neighbours are adjacent.
pub open spec fn is_path(parents: Seq<usize>, path: Seq<int>) -> bool {
    &&& path.len() > 0
    &&& forall|k: int| 0 <= k < path.len() ==> 0 <= #[trigger] path[k] < parents.len()
    &&& forall|k: int|
        0 <= k < path.len() - 1 ==> adjacent(parents, #[trigger] path[k], path[k + 1])
}

/// Some walk along parent links leads from `a` to `b`.
pub open spec fn path_connected(parents: Seq<usize>, a: int, b: int) -> bool {
    exists|path: Seq<int>| #[trigger]
        is_path(parents, path) && path[0] == a && path.last() == b
}

/// The walk from `x` up to its root.
pub open spec fn ascent(parents: Seq<usize>, x: int) -> Seq<int>
    decreases x,
{
    if 0 <= x < parents.len() && parents[x] < x {
        seq![x] + ascent(parents, parents[x] as int)
    } else {
        seq![x]
    }
}

/// The same walk taken from its end.
pub open spec fn backwards(path: Seq<int>) -> Seq<int> {
    Seq::new(path.len(), |k: int| path[path.len() - 1 - k])
}

/// Every element of a walk has the root of the walk's first element.
pub proof fn lemma_path_keeps_root(parents: Seq<usize>, path: Seq<int>, k: int)
    requires
        is_forest(parents),
        is_path(parents, path),
        0 <= k < path.len(),
    ensures
        root_of(parents, path[k]) == root_of(parents, path[0]),
    decreases k,
{
    if k > 0 {
        lemma_path_keeps_root(parents, path, k - 1);
        let a = path[k - 1];
        let b = path[k];
        assert(adjacent(parents, a, b));
        assert(parents[a] <= a && parents[b] <= b);
    }
}

/// The ascent of a valid element is a walk from it to its root.
pub proof fn lemma_ascent_is_path(parents: Seq<usize>, x: int)
    requires
        is_forest(parents),
        0 <= x < parents.len(),
    ensures
        is_path(parents, ascent(parents, x)),
        ascent(parents, x)[0] == x,
        ascent(parents, x).last() == root_of(parents, x),
    decreases x,
{
    if parents[x] < x {
        let up = parents[x] as int;
        let rest = ascent(parents, up);
        lemma_ascent_is_path(parents, up);
        let whole = seq![x] + rest;
        assert forall|k: int| 0 <= k < whole.len() - 1 implies adjacent(
            parents,
            #[trigger] whole[k],
            whole[k + 1],
        ) by {
            if k > 0 {
                assert(whole[k] == rest[k - 1]);
                assert(whole[k + 1] == rest[k]);
            }
        }
        assert forall|k: int| 0 <= k < whole.len() implies 0 <= #[trigger] whole[k]
            < parents.len() by {
            if k > 0 {
                assert(whole[k] == rest[k - 1]);
            }
        }
    }
}

/// A walk taken from its end is a walk.
pub proof fn lemma_backwards_is_path(parents: Seq<usize>, path: Seq<int>)
    requires
        is_path(parents, path),
    ensures
        is_path(parents, backwards(path)),
        backwards(path)[0] == path.last(),
        backwards(path).last() == path[0],
{
    let back = backwards(path);
    let n = path.len() as int;
    assert forall|k: int| 0 <= k < back.len() - 1 implies adjacent(
        parents,
        #[trigger] back[k],
        back[k + 1],
    ) by {
        assert(adjacent(parents, path[n - 2 - k], path[n - 2 - k + 1]));
    }
}

/// Two walks that meet at a root make one walk.
pub proof fn lemma_paths_join(parents: Seq<usize>, first: Seq<int>, second: Seq<int>)
    requires
        is_path(parents, first),
        is_path(parents, second),
        first.last() == second[0],
        is_root(parents, second[0]),
    ensures
        is_path(parents, first + second),
        (first + second)[0] == first[0],
        (first + second).last() == second.last(),
{
    let whole = first + second;
    let n = first.len() as int;
    assert forall|k: int| 0 <= k < whole.len() - 1 implies adjacent(
        parents,
        #[trigger] whole[k],
        whole[k + 1],
    ) by {
        if k < n - 1 {
            assert(adjacent(parents, first[k], first[k + 1]));
        } else if k == n - 1 {
            assert(whole[k] == first.last());
            assert(whole[k + 1] == second[0]);
        } else {
            assert(adjacent(parents, second[k - n], second[k - n + 1]));
        }
    }
    assert forall|k: int| 0 <= k < whole.len() implies 0 <= #[trigger] whole[k]
        < parents.len() by {
        if k < n {
            assert(whole[k] == first[k]);
        } else {
            assert(whole[k] == second[k - n]);
        }
    }
}

/// Two valid elements are joined by a walk along parent links exactly when
/// they have the same root.
pub proof fn lemma_path_connected_iff_same_root(parents: Seq<usize>, a: int, b: int)
    requires
        is_forest(parents),
    ensures
        path_connected(parents, a, b) <==> same_component(parents, a, b),
{
    if path_connected(parents, a, b) {
        let path = choose|path: Seq<int>| #[trigger]
            is_path(parents, path) && path[0] == a && path.last() == b;
        lemma_path_keeps_root(parents, path, path.len() - 1);
    }
    if same_component(parents, a, b) {
        lemma_root_of_is_root(parents, a);
        lemma_ascent_is_path(parents, a);
        lemma_ascent_is_path(parents, b);
        let up = ascent(parents, a);
        let down = backwards(ascent(parents, b));
        lemma_backwards_is_path(parents, ascent(parents, b));
        lemma_paths_join(parents, up, down);
        assert(is_path(parents, up + down) && (up + down)[0] == a && (up + down).last() == b);
    }
}

} // verus!
