//! A table of paths, no two of which are the same.

use crate::index;
use crate::index::HashIndex;
use crate::path;
use crate::path::{FilePath, PathView};
use vstd::prelude::*;

verus! {

/// Paths in the order in which they were added. Its view lists them.
pub struct PathTable {
    paths: Vec<FilePath>,
    index: HashIndex,
}

/// The paths in a list.
pub open spec fn path_views(paths: Seq<FilePath>) -> Seq<PathView> {
    paths.map_values(|p: FilePath| p@)
}

/// No two of the paths are the same.
pub open spec fn distinct_paths(paths: Seq<PathView>) -> bool {
    forall|i: int, j: int|
        0 <= i < j < paths.len() ==> !(#[trigger] paths[i]).same(#[trigger] paths[j])
}

/// The path is among those in a list.
pub open spec fn has_path(paths: Seq<PathView>, p: PathView) -> bool {
    exists|i: int| 0 <= i < paths.len() && (#[trigger] paths[i]).same(p)
}

impl View for PathTable {
    type V = Seq<PathView>;

    closed spec fn view(&self) -> Seq<PathView> {
        path_views(self.paths@)
    }
}

impl PathTable {
    /// The paths are distinct and the hashes fit.
    pub closed spec fn well_formed(&self) -> bool {
        &&& self.index.well_formed()
        &&& self.index@.len() == self.paths@.len()
        &&& forall|i: int|
            0 <= i < self.paths@.len() ==> #[trigger] self.index@[i] == path::hash_parts(
                self.paths@[i]@.parts,
            )
        &&& distinct_paths(self@)
    }

    /// A table without paths.
    pub fn new() -> (r: Self)
        ensures
            r.well_formed(),
            r@ == Seq::<PathView>::empty(),
    {
        let r = PathTable { paths: Vec::new(), index: HashIndex::new() };
        assert(r@ =~= Seq::<PathView>::empty());
        r
    }

    /// The paths of a table are distinct.
    pub proof fn lemma_distinct(&self)
        requires
            self.well_formed(),
        ensures
            distinct_paths(self@),
    {
    }

    /// How many paths there are.
    pub fn len(&self) -> (n: usize)
        ensures
            n == self@.len(),
    {
        self.paths.len()
    }

    /// The path at a position.
    pub fn at(&self, i: usize) -> (r: &FilePath)
        requires
            i < self@.len(),
        ensures
            r@ == self@[i as int],
    {
        &self.paths[i]
    }

    /// The position of a path, if it is there.
    pub fn find(&self, p: &FilePath) -> (r: Option<usize>)
        requires
            self.well_formed(),
        ensures
            match r {
                Some(i) => i < self@.len() && self@[i as int].same(p@),
                None => !has_path(self@, p@),
            },
    {
        let h = p.hash();
        let n = self.paths.len();
        match self.index.lookup(h) {
            None => {
                assert forall|i: int| 0 <= i < self@.len() implies !(#[trigger] self@[i]).same(p@) by {
                    assert(self.index@[i] != h);
                }
                None
            },
            Some(found) => {
                let mut k: usize = 0;
                while k < found.len()
                    invariant
                        self.well_formed(),
                        h == path::hash_parts(p@.parts),
                        index::positions_of(self.index@, h, found@),
                        0 <= k <= found@.len(),
                        forall|j: int|
                            0 <= j < k ==> !self@[#[trigger] found@[j] as int].same(p@),
                    decreases found@.len() - k,
                {
                    assert(found@[k as int] < self.index@.len());
                    let i = found[k];
                    if self.paths[i].same(p) {
                        return Some(i);
                    }
                    k = k + 1;
                }
                assert forall|i: int| 0 <= i < n implies !(#[trigger] self@[i]).same(p@) by {
                    if self@[i].same(p@) {
                        assert(self.paths@[i]@.parts == p@.parts);
                        assert(self.index@[i] == h);
                        assert(found@.contains(i as usize));
                        let j = choose|j: int| 0 <= j < found@.len() && found@[j] == i as usize;
                        assert(!self@[found@[j] as int].same(p@));
                    }
                }
                None
            },
        }
    }

    /// Tells whether a path is there.
    pub fn contains(&self, p: &FilePath) -> (r: bool)
        requires
            self.well_formed(),
        ensures
            r == has_path(self@, p@),
    {
        match self.find(p) {
            Some(i) => true,
            None => false,
        }
    }

    /// Adds a path that is not there yet.
    pub fn add(&mut self, p: FilePath)
        requires
            old(self).well_formed(),
            !has_path(old(self)@, p@),
        ensures
            final(self).well_formed(),
            final(self)@ == old(self)@.push(p@),
    {
        let h = p.hash();
        self.index.add(h, self.paths.len());
        self.paths.push(p);
        proof {
            assert(self@ =~= old(self)@.push(p@));
            assert forall|i: int, j: int| 0 <= i < j < self@.len() implies !(
            #[trigger] self@[i]).same(#[trigger] self@[j]) by {
                if j < old(self)@.len() {
                    assert(!old(self)@[i].same(old(self)@[j]));
                } else {
                    assert(!old(self)@[i].same(p@));
                }
            }
        }
    }
}

} // verus!
