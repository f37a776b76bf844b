//! The executable structure and its operations.

use crate::forest::{
    compress, is_forest, lemma_compress_keeps_roots, lemma_merge_roots, lemma_root_of_is_root,
    merge, merged_root, root_of,
};
use vstd::prelude::*;

verus! {

/// The error for an index that is not below the element count.
#[derive(Debug, Clone, Copy, PartialEq, Eq)]
pub struct IndexOutOfRange {
    /// The offending index.
    pub index: usize,
    /// The element count of the structure.
    pub length: usize,
}

/// A partition of `0..length` into components, kept as parent links.
pub struct UnionFind {
    /// `parents[i]` is the parent of `i`; a root is its own parent.
    pub parents: Vec<usize>,
    /// The fixed element count.
    pub length: usize,
}

impl View for UnionFind {
    type V = Seq<usize>;

    /// The parent mapping.
    open spec fn view(&self) -> Seq<usize> {
        self.parents@
    }
}

impl UnionFind {
    /// There is one parent per element, and no parent lies above its child.
    pub open spec fn wf(&self) -> bool {
        &&& self.parents@.len() == self.length
        &&& is_forest(self.parents@)
    }

    /// Creates `length` singleton components.
    pub fn new(length: usize) -> (uf: Self)
        ensures
            uf.wf(),
            uf.length == length,
            uf@ == Seq::new(length as nat, |i: int| i as usize),
            forall|i: int| root_of(uf@, i) == i,
    {
        let mut parents: Vec<usize> = Vec::new();
        let mut i: usize = 0;
        while i < length
            invariant
                i <= length,
                parents@ == Seq::new(i as nat, |k: int| k as usize),
            decreases length - i,
        {
            parents.push(i);
            i += 1;
            assert(parents@ =~= Seq::new(i as nat, |k: int| k as usize));
        }
        UnionFind { parents, length }
    }

    /// Returns the root of `x`'s component and points `x` straight at it.
    ///
    /// Only the queried element is compressed; the elements between it and
    /// the root keep their parents. No element changes its component. An index
    /// that is not below `length` is rejected and nothing changes.
    pub fn find(&mut self, x: usize) -> (res: Result<usize, IndexOutOfRange>)
        requires
            old(self).wf(),
        ensures
            final(self).wf(),
            final(self).length == old(self).length,
            match res {
                Ok(root) => {
                    &&& x < old(self).length
                    &&& root == root_of(old(self)@, x as int)
                    &&& final(self)@ == compress(old(self)@, x as int)
                },
                Err(e) => {
                    &&& x >= old(self).length
                    &&& e == (IndexOutOfRange { index: x, length: old(self).length })
                    &&& *final(self) == *old(self)
                },
            },
            forall|i: int| #[trigger] root_of(final(self)@, i) == root_of(old(self)@, i),
    {
        if x >= self.length {
            return Err(IndexOutOfRange { index: x, length: self.length });
        }
        let ghost before = self.parents@;
        let mut p: usize = x;
        while self.parents[p] != p
            invariant
                self.parents@ == before,
                is_forest(before),
                p < before.len(),
                root_of(before, p as int) == root_of(before, x as int),
            decreases p,
        {
            p = self.parents[p];
        }
        self.parents[x] = p;
        proof {
            lemma_compress_keeps_roots(before, x as int);
        }
        Ok(p)
    }

    /// Merges the components of `x` and `y`.
    ///
    /// Both endpoints are compressed, then the larger of the two roots is hung
    /// under the smaller one, so the root of a component is always its
    /// smallest element. Merging an element with itself changes nothing, not
    /// even by compression. An index that is not below `length` is rejected
    /// and nothing changes; where both are out of range, `x` is reported.
    pub fn union(&mut self, x: usize, y: usize) -> (res: Result<(), IndexOutOfRange>)
        requires
            old(self).wf(),
        ensures
            final(self).wf(),
            final(self).length == old(self).length,
            match res {
                Ok(_) => {
                    &&& x < old(self).length
                    &&& y < old(self).length
                    &&& final(self)@ == merge(old(self)@, x as int, y as int)
                },
                Err(e) => {
                    &&& x >= old(self).length || y >= old(self).length
                    &&& e == (IndexOutOfRange {
                        index: if x >= old(self).length { x } else { y },
                        length: old(self).length,
                    })
                    &&& *final(self) == *old(self)
                },
            },
            x == y ==> *final(self) == *old(self),
            res is Ok ==> root_of(final(self)@, x as int) == root_of(final(self)@, y as int),
            res is Ok ==> forall|i: int| #[trigger]
                root_of(final(self)@, i) == merged_root(old(self)@, x as int, y as int, i),
    {
        if x >= self.length {
            return Err(IndexOutOfRange { index: x, length: self.length });
        }
        if y >= self.length {
            return Err(IndexOutOfRange { index: y, length: self.length });
        }
        proof {
            lemma_root_of_is_root(self.parents@, x as int);
            lemma_root_of_is_root(self.parents@, y as int);
            lemma_merge_roots(self.parents@, x as int, y as int);
        }
        if x == y {
            return Ok(());
        }
        let par_x = self.find(x)?;
        let par_y = self.find(y)?;
        // The smaller root becomes the parent of the larger one.
        if par_x > par_y {
            self.parents[par_x] = par_y;
        } else {
            self.parents[par_y] = par_x;
        }
        Ok(())
    }
}

} // verus!
