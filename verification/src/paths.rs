//! The set of definition-file paths the manager currently tracks.

use vstd::prelude::*;

verus! {

/// A set of file paths, held as a list without duplicates.
pub struct PathSet {
    paths: Vec<String>,
}

impl PathSet {
    /// Paths are pairwise distinct.
    pub closed spec fn wf(&self) -> bool {
        forall|i: int, j: int|
            0 <= i < j < self.paths@.len() ==> self.paths@[i]@ != self.paths@[j]@
    }

    /// Whether the path is in the set.
    pub closed spec fn has(&self, path: Seq<char>) -> bool {
        exists|i: int| 0 <= i < self.paths@.len() && self.paths@[i]@ == path
    }

    /// The number of paths, as a spec value.
    pub closed spec fn count_spec(&self) -> nat {
        self.paths@.len()
    }

    pub fn new() -> (r: PathSet)
        ensures
            r.wf(),
            forall|p: Seq<char>| !r.has(p),
            r.count_spec() == 0,
    {
        PathSet { paths: Vec::new() }
    }

    /// The number of paths.
    pub fn count(&self) -> (r: usize)
        ensures
            r == self.count_spec(),
    {
        self.paths.len()
    }

    /// The path at an index.
    pub fn index(&self, i: usize) -> (r: String)
        requires
            self.wf(),
            i < self.count_spec(),
        ensures
            self.has(r@),
    {
        self.paths[i].clone()
    }

    fn find(&self, path: &String) -> (r: Option<usize>)
        requires
            self.wf(),
        ensures
            match r {
                Some(i) => i < self.paths@.len() && self.paths@[i as int]@ == path@
                    && self.has(path@),
                None => !self.has(path@),
            },
    {
        let n = self.paths.len();
        for i in 0..n
            invariant
                n == self.paths@.len(),
                self.wf(),
                forall|j: int| 0 <= j < i ==> self.paths@[j]@ != path@,
        {
            if self.paths[i] == *path {
                return Some(i);
            }
        }
        None
    }

    /// Whether the path is in the set.
    pub fn contains(&self, path: &String) -> (r: bool)
        requires
            self.wf(),
        ensures
            r == self.has(path@),
    {
        self.find(path).is_some()
    }

    /// Add the path; a no-op if it is already in the set.
    pub fn add(&mut self, path: &String)
        requires
            old(self).wf(),
        ensures
            final(self).wf(),
            final(self).has(path@),
            forall|p: Seq<char>| p != path@ ==> final(self).has(p) == old(self).has(p),
    {
        let ghost pre = *self;
        match self.find(path) {
            Some(_) => {},
            None => {
                self.paths.push(path.clone());
                proof {
                    let last = pre.paths@.len() as int;
                    assert(self.paths@[last]@ == path@);
                    assert forall|k: int| 0 <= k < last implies
                        self.paths@[k] == pre.paths@[k] by {}
                    assert(self.wf());
                    assert(self.has(path@));
                    assert forall|p: Seq<char>| p != path@ implies
                        self.has(p) == pre.has(p) by {
                        if pre.has(p) {
                            let w = choose|k: int|
                                0 <= k < pre.paths@.len() && pre.paths@[k]@ == p;
                            assert(self.paths@[w]@ == p);
                        } else {
                            assert forall|k: int| 0 <= k < self.paths@.len() implies
                                self.paths@[k]@ != p by {
                                if k < last {
                                    assert(pre.paths@[k]@ != p);
                                }
                            }
                        }
                    }
                }
            },
        }
    }

    /// Remove the path, if present.
    pub fn remove(&mut self, path: &String)
        requires
            old(self).wf(),
        ensures
            final(self).wf(),
            !final(self).has(path@),
            forall|p: Seq<char>| p != path@ ==> final(self).has(p) == old(self).has(p),
    {
        let ghost pre = *self;
        match self.find(path) {
            Some(i) => {
                self.paths.remove(i);
                proof {
                    assert forall|p: Seq<char>| p != path@ implies
                        self.has(p) == pre.has(p) by {
                        if pre.has(p) {
                            let w = choose|k: int|
                                0 <= k < pre.paths@.len() && pre.paths@[k]@ == p;
                            assert(w != i);
                            if w < i {
                                assert(self.paths@[w]@ == p);
                            } else {
                                assert(self.paths@[w - 1]@ == p);
                            }
                        } else {
                            assert forall|k: int| 0 <= k < self.paths@.len() implies
                                self.paths@[k]@ != p by {
                                let orig: int = if k < i { k } else { k + 1 };
                                assert(pre.paths@[orig] == self.paths@[k]);
                            }
                        }
                    }
                    assert forall|k: int| 0 <= k < self.paths@.len() implies
                        self.paths@[k]@ != path@ by {
                        let orig: int = if k < i { k } else { k + 1 };
                        assert(pre.paths@[orig] == self.paths@[k]);
                        assert(orig != i);
                    }
                }
            },
            None => {},
        }
    }
}

} // verus!
