//! An association table from variable names to values, used both for the
//! baseline snapshot and as the explicit model of the ambient process
//! environment that the manager mutates.

use vstd::prelude::*;

verus! {

/// A table of environment variables: an association list with pairwise
/// distinct names.
pub struct EnvTable {
    entries: Vec<(String, String)>,
}

impl EnvTable {
    /// Names are pairwise distinct, so a name determines its entry.
    pub closed spec fn wf(&self) -> bool {
        forall|i: int, j: int|
            0 <= i < j < self.entries@.len() ==> self.entries@[i].0@ != self.entries@[j].0@
    }

    /// Whether the table holds a variable of this name.
    pub closed spec fn has(&self, name: Seq<char>) -> bool {
        exists|i: int| 0 <= i < self.entries@.len() && self.entries@[i].0@ == name
    }

    /// The value of the variable of this name (meaningful when `has(name)`).
    pub closed spec fn val(&self, name: Seq<char>) -> Seq<char> {
        self.entries@[choose|i: int| 0 <= i < self.entries@.len() && self.entries@[i].0@ == name].1@
    }

    /// The state of a variable: its value, or `None` when absent.
    pub open spec fn at(&self, name: Seq<char>) -> Option<Seq<char>> {
        if self.has(name) {
            Some(self.val(name))
        } else {
            None
        }
    }

    pub fn new() -> (r: EnvTable)
        ensures
            r.wf(),
            forall|n: Seq<char>| r.at(n) == None::<Seq<char>>,
    {
        EnvTable { entries: Vec::new() }
    }

    /// The number of variables held.
    pub fn len(&self) -> (r: usize)
        ensures
            r == self.count_spec(),
    {
        self.entries.len()
    }

    /// The name and value of the entry at an index, as spec values.
    pub closed spec fn spec_index(&self, i: int) -> (Seq<char>, Seq<char>) {
        (self.entries@[i].0@, self.entries@[i].1@)
    }

    /// The number of entries, as a spec value.
    pub closed spec fn count_spec(&self) -> nat {
        self.entries@.len()
    }

    /// Every variable of the table, as name/value pairs.
    pub fn pairs(&self) -> (r: Vec<(String, String)>)
        requires
            self.wf(),
        ensures
            forall|i: int| 0 <= i < r@.len() ==> self.at(r@[i].0@) == Some(r@[i].1@),
            forall|n: Seq<char>| self.at(n) is Some
                ==> exists|i: int| 0 <= i < r@.len() && r@[i].0@ == n,
    {
        let mut out: Vec<(String, String)> = Vec::new();
        let c = self.entries.len();
        for i in 0..c
            invariant
                c == self.entries@.len(),
                self.wf(),
                out@.len() == i,
                forall|k: int| 0 <= k < out@.len()
                    ==> self.at(out@[k].0@) == Some(out@[k].1@),
                forall|j: int| 0 <= j < i ==> out@[j].0@ == self.entries@[j].0@,
        {
            proof {
                assert(self.has(self.entries@[i as int].0@));
                let w = choose|k: int| 0 <= k < self.entries@.len()
                    && self.entries@[k].0@ == self.entries@[i as int].0@;
                assert(w == i);
            }
            out.push((self.entries[i].0.clone(), self.entries[i].1.clone()));
        }
        proof {
            assert forall|n: Seq<char>| self.at(n) is Some implies
                exists|i: int| 0 <= i < out@.len() && out@[i].0@ == n by {
                let w = choose|k: int| 0 <= k < self.entries@.len()
                    && self.entries@[k].0@ == n;
                assert(out@[w].0@ == n);
            }
        }
        out
    }

    fn find(&self, name: &String) -> (r: Option<usize>)
        requires
            self.wf(),
        ensures
            match r {
                Some(i) => i < self.entries@.len() && self.entries@[i as int].0@ == name@
                    && self.has(name@) && self.val(name@) == self.entries@[i as int].1@,
                None => !self.has(name@),
            },
    {
        let n = self.entries.len();
        for i in 0..n
            invariant
                n == self.entries@.len(),
                self.wf(),
                forall|j: int| 0 <= j < i ==> self.entries@[j].0@ != name@,
        {
            if self.entries[i].0 == *name {
                assert(self.has(name@));
                proof {
                    let w = choose|k: int|
                        0 <= k < self.entries@.len() && self.entries@[k].0@ == name@;
                    assert(w == i);
                }
                return Some(i);
            }
        }
        None
    }

    /// Look the variable up, returning a copy of its value.
    pub fn get(&self, name: &String) -> (r: Option<String>)
        requires
            self.wf(),
        ensures
            match r {
                Some(v) => self.at(name@) == Some(v@),
                None => self.at(name@) == None::<Seq<char>>,
            },
    {
        match self.find(name) {
            Some(i) => Some(self.entries[i].1.clone()),
            None => None,
        }
    }

    /// Set the variable, overwriting any previous value under the same name.
    pub fn set(&mut self, name: &String, value: &String)
        requires
            old(self).wf(),
        ensures
            final(self).wf(),
            final(self).at(name@) == Some(value@),
            forall|n: Seq<char>| n != name@ ==> final(self).at(n) == old(self).at(n),
    {
        let ghost pre = *self;
        match self.find(name) {
            Some(i) => {
                self.entries.set(i, (name.clone(), value.clone()));
                proof {
                    assert(self.entries@[i as int].0@ == name@);
                    assert(self.entries@[i as int].1@ == value@);
                    assert forall|p: int, q: int|
                        0 <= p < q < self.entries@.len() implies
                        self.entries@[p].0@ != self.entries@[q].0@ by {
                        if p != i && q != i {
                            assert(self.entries@[p] == pre.entries@[p]);
                            assert(self.entries@[q] == pre.entries@[q]);
                        } else if p == i {
                            assert(self.entries@[q] == pre.entries@[q]);
                            assert(pre.entries@[q].0@ != pre.entries@[i as int].0@);
                        } else {
                            assert(self.entries@[p] == pre.entries@[p]);
                            assert(pre.entries@[p].0@ != pre.entries@[i as int].0@);
                        }
                    }
                    assert(self.wf());
                    assert(self.has(name@));
                    assert forall|n: Seq<char>| n != name@ implies self.at(n) == pre.at(n) by {
                        assert forall|k: int|
                            0 <= k < pre.entries@.len() && pre.entries@[k].0@ == n implies
                            self.entries@[k].0@ == n && self.entries@[k].1@ == pre.entries@[k].1@ by {
                            assert(k != i);
                        }
                        assert forall|k: int|
                            0 <= k < self.entries@.len() && self.entries@[k].0@ == n implies
                            pre.entries@[k].0@ == n by {
                            assert(k != i);
                        }
                        if pre.has(n) {
                            let w = choose|k: int|
                                0 <= k < pre.entries@.len() && pre.entries@[k].0@ == n;
                            let w2 = choose|k: int|
                                0 <= k < self.entries@.len() && self.entries@[k].0@ == n;
                            assert(w == w2);
                        }
                    }
                    let w = choose|k: int|
                        0 <= k < self.entries@.len() && self.entries@[k].0@ == name@;
                    assert(w == i);
                }
            },
            None => {
                self.entries.push((name.clone(), value.clone()));
                proof {
                    let last = pre.entries@.len() as int;
                    assert(self.entries@[last].0@ == name@);
                    assert forall|k: int| 0 <= k < last implies
                        self.entries@[k] == pre.entries@[k] by {}
                    assert(self.wf());
                    assert forall|n: Seq<char>| n != name@ implies self.at(n) == pre.at(n) by {
                        if pre.has(n) {
                            let w = choose|k: int|
                                0 <= k < pre.entries@.len() && pre.entries@[k].0@ == n;
                            assert(self.entries@[w].0@ == n);
                            assert(self.has(n));
                            let w2 = choose|k: int|
                                0 <= k < self.entries@.len() && self.entries@[k].0@ == n;
                            assert(w2 != last);
                            assert(pre.entries@[w2].0@ == n);
                            assert(w2 == w);
                            assert(self.val(n) == pre.val(n));
                        } else {
                            assert forall|k: int| 0 <= k < self.entries@.len() implies
                                self.entries@[k].0@ != n by {
                                if k < last {
                                    assert(pre.entries@[k].0@ != n);
                                }
                            }
                            assert(!self.has(n));
                        }
                    }
                    let w = choose|k: int|
                        0 <= k < self.entries@.len() && self.entries@[k].0@ == name@;
                    assert(w == last);
                }
            },
        }
    }

    /// Remove the variable of this name, if present.
    pub fn remove(&mut self, name: &String)
        requires
            old(self).wf(),
        ensures
            final(self).wf(),
            final(self).at(name@) == None::<Seq<char>>,
            forall|n: Seq<char>| n != name@ ==> final(self).at(n) == old(self).at(n),
    {
        let ghost pre = *self;
        match self.find(name) {
            Some(i) => {
                self.entries.remove(i);
                proof {
                    assert forall|n: Seq<char>| n != name@ implies self.at(n) == pre.at(n) by {
                        if pre.has(n) {
                            let w = choose|k: int|
                                0 <= k < pre.entries@.len() && pre.entries@[k].0@ == n;
                            assert(w != i);
                            if w < i {
                                assert(self.entries@[w] == pre.entries@[w]);
                            } else {
                                assert(self.entries@[w - 1] == pre.entries@[w]);
                            }
                            assert(self.has(n));
                            let w2 = choose|k: int|
                                0 <= k < self.entries@.len() && self.entries@[k].0@ == n;
                            let orig: int = if w2 < i { w2 } else { w2 + 1 };
                            assert(pre.entries@[orig].0@ == n);
                            assert(orig == w);
                        } else {
                            assert forall|k: int|
                                0 <= k < self.entries@.len() implies self.entries@[k].0@ != n by {
                                let orig: int = if k < i { k } else { k + 1 };
                                assert(pre.entries@[orig] == self.entries@[k]);
                            }
                        }
                    }
                    assert forall|k: int|
                        0 <= k < self.entries@.len() implies self.entries@[k].0@ != name@ by {
                        let orig: int = if k < i { k } else { k + 1 };
                        assert(pre.entries@[orig] == self.entries@[k]);
                        assert(orig != i);
                    }
                }
            },
            None => {},
        }
    }
}

} // verus!
