//! The overlay ledger's variable records: for every variable the manager
//! currently manages, the owning file and the value the manager wrote.

use vstd::prelude::*;

verus! {

/// One managed variable: its name, the path of the file that owns it, and
/// the value the manager last wrote for it.
pub struct VariableRecord {
    pub name: String,
    pub owner: String,
    pub value: String,
}

/// The set of variable records, keyed by variable name: each managed name
/// has exactly one owner at a time.
pub struct Ledger {
    records: Vec<VariableRecord>,
}

impl Ledger {
    /// Names are pairwise distinct, so a name determines its record.
    pub closed spec fn wf(&self) -> bool {
        forall|i: int, j: int|
            0 <= i < j < self.records@.len() ==> self.records@[i].name@ != self.records@[j].name@
    }

    /// Whether this name is currently managed.
    pub closed spec fn owns(&self, name: Seq<char>) -> bool {
        exists|i: int| 0 <= i < self.records@.len() && self.records@[i].name@ == name
    }

    pub closed spec fn record(&self, name: Seq<char>) -> (Seq<char>, Seq<char>) {
        let r = self.records@[choose|i: int|
            0 <= i < self.records@.len() && self.records@[i].name@ == name];
        (r.owner@, r.value@)
    }

    /// The record of a name: `(owning file, value written)`, or `None` when
    /// the name is not managed.
    pub open spec fn at(&self, name: Seq<char>) -> Option<(Seq<char>, Seq<char>)> {
        if self.owns(name) {
            Some(self.record(name))
        } else {
            None
        }
    }

    pub fn new() -> (r: Ledger)
        ensures
            r.wf(),
            forall|n: Seq<char>| r.at(n) == None::<(Seq<char>, Seq<char>)>,
            r.count_spec() == 0,
    {
        Ledger { records: Vec::new() }
    }

    fn find(&self, name: &String) -> (r: Option<usize>)
        requires
            self.wf(),
        ensures
            match r {
                Some(i) => i < self.records@.len() && self.records@[i as int].name@ == name@
                    && self.owns(name@)
                    && self.record(name@) == (self.records@[i as int].owner@,
                        self.records@[i as int].value@),
                None => !self.owns(name@),
            },
    {
        let n = self.records.len();
        for i in 0..n
            invariant
                n == self.records@.len(),
                self.wf(),
                forall|j: int| 0 <= j < i ==> self.records@[j].name@ != name@,
        {
            if self.records[i].name == *name {
                assert(self.owns(name@));
                proof {
                    let w = choose|k: int|
                        0 <= k < self.records@.len() && self.records@[k].name@ == name@;
                    assert(w == i);
                }
                return Some(i);
            }
        }
        None
    }

    /// Look a name up, returning a copy of its owner and written value.
    pub fn get(&self, name: &String) -> (r: Option<(String, String)>)
        requires
            self.wf(),
        ensures
            match r {
                Some(p) => self.at(name@) == Some((p.0@, p.1@)),
                None => self.at(name@) == None::<(Seq<char>, Seq<char>)>,
            },
    {
        match self.find(name) {
            Some(i) => Some((self.records[i].owner.clone(), self.records[i].value.clone())),
            None => None,
        }
    }

    /// Record that `owner` now owns `name` with the written value `value`,
    /// replacing any previous record for `name`.
    pub fn set(&mut self, name: &String, owner: &String, value: &String)
        requires
            old(self).wf(),
        ensures
            final(self).wf(),
            final(self).at(name@) == Some((owner@, value@)),
            forall|n: Seq<char>| n != name@ ==> final(self).at(n) == old(self).at(n),
            final(self).count_spec() == old(self).count_spec()
                + (if old(self).owns(name@) { 0nat } else { 1nat }),
    {
        let ghost pre = *self;
        let rec = VariableRecord {
            name: name.clone(),
            owner: owner.clone(),
            value: value.clone(),
        };
        match self.find(name) {
            Some(i) => {
                self.records.set(i, rec);
                proof {
                    assert(self.records@[i as int].name@ == name@);
                    assert forall|p: int, q: int|
                        0 <= p < q < self.records@.len() implies
                        self.records@[p].name@ != self.records@[q].name@ by {
                        if p != i && q != i {
                            assert(self.records@[p] == pre.records@[p]);
                            assert(self.records@[q] == pre.records@[q]);
                        } else if p == i {
                            assert(self.records@[q] == pre.records@[q]);
                            assert(pre.records@[q].name@ != pre.records@[i as int].name@);
                        } else {
                            assert(self.records@[p] == pre.records@[p]);
                            assert(pre.records@[p].name@ != pre.records@[i as int].name@);
                        }
                    }
                    assert(self.wf());
                    assert(self.owns(name@));
                    assert forall|n: Seq<char>| n != name@ implies self.at(n) == pre.at(n) by {
                        assert forall|k: int|
                            0 <= k < pre.records@.len() && pre.records@[k].name@ == n implies
                            self.records@[k].name@ == n
                                && self.records@[k] == pre.records@[k] by {
                            assert(k != i);
                        }
                        assert forall|k: int|
                            0 <= k < self.records@.len() && self.records@[k].name@ == n implies
                            pre.records@[k].name@ == n by {
                            assert(k != i);
                        }
                        if pre.owns(n) {
                            let w = choose|k: int|
                                0 <= k < pre.records@.len() && pre.records@[k].name@ == n;
                            let w2 = choose|k: int|
                                0 <= k < self.records@.len() && self.records@[k].name@ == n;
                            assert(w == w2);
                        }
                    }
                    let w = choose|k: int|
                        0 <= k < self.records@.len() && self.records@[k].name@ == name@;
                    assert(w == i);
                }
            },
            None => {
                self.records.push(rec);
                proof {
                    let last = pre.records@.len() as int;
                    assert(self.records@[last].name@ == name@);
                    assert forall|k: int| 0 <= k < last implies
                        self.records@[k] == pre.records@[k] by {}
                    assert(self.wf());
                    assert forall|n: Seq<char>| n != name@ implies self.at(n) == pre.at(n) by {
                        if pre.owns(n) {
                            let w = choose|k: int|
                                0 <= k < pre.records@.len() && pre.records@[k].name@ == n;
                            assert(self.records@[w].name@ == n);
                            assert(self.owns(n));
                            let w2 = choose|k: int|
                                0 <= k < self.records@.len() && self.records@[k].name@ == n;
                            assert(w2 != last);
                            assert(pre.records@[w2].name@ == n);
                            assert(w2 == w);
                        } else {
                            assert forall|k: int| 0 <= k < self.records@.len() implies
                                self.records@[k].name@ != n by {
                                if k < last {
                                    assert(pre.records@[k].name@ != n);
                                }
                            }
                            assert(!self.owns(n));
                        }
                    }
                    let w = choose|k: int|
                        0 <= k < self.records@.len() && self.records@[k].name@ == name@;
                    assert(w == last);
                }
            },
        }
    }

    /// Drop the record for this name, if any.
    pub fn remove(&mut self, name: &String)
        requires
            old(self).wf(),
        ensures
            final(self).wf(),
            final(self).at(name@) == None::<(Seq<char>, Seq<char>)>,
            forall|n: Seq<char>| n != name@ ==> final(self).at(n) == old(self).at(n),
            final(self).count_spec() == old(self).count_spec()
                - (if old(self).owns(name@) { 1nat } else { 0nat }),
    {
        let ghost pre = *self;
        match self.find(name) {
            Some(i) => {
                self.records.remove(i);
                proof {
                    assert forall|n: Seq<char>| n != name@ implies self.at(n) == pre.at(n) by {
                        if pre.owns(n) {
                            let w = choose|k: int|
                                0 <= k < pre.records@.len() && pre.records@[k].name@ == n;
                            assert(w != i);
                            if w < i {
                                assert(self.records@[w] == pre.records@[w]);
                            } else {
                                assert(self.records@[w - 1] == pre.records@[w]);
                            }
                            assert(self.owns(n));
                            let w2 = choose|k: int|
                                0 <= k < self.records@.len() && self.records@[k].name@ == n;
                            let orig: int = if w2 < i { w2 } else { w2 + 1 };
                            assert(pre.records@[orig].name@ == n);
                            assert(orig == w);
                        } else {
                            assert forall|k: int|
                                0 <= k < self.records@.len() implies
                                self.records@[k].name@ != n by {
                                let orig: int = if k < i { k } else { k + 1 };
                                assert(pre.records@[orig] == self.records@[k]);
                            }
                        }
                    }
                    assert forall|k: int|
                        0 <= k < self.records@.len() implies
                        self.records@[k].name@ != name@ by {
                        let orig: int = if k < i { k } else { k + 1 };
                        assert(pre.records@[orig] == self.records@[k]);
                        assert(orig != i);
                    }
                }
            },
            None => {},
        }
    }

    /// Find any record whose owner is `path`, returning a copy of its name
    /// and written value.
    pub fn any_owned_by(&self, path: &String) -> (r: Option<(String, String)>)
        requires
            self.wf(),
        ensures
            match r {
                Some(p) => self.at(p.0@) == Some((path@, p.1@)),
                None => forall|n: Seq<char>|
                    self.owns(n) ==> self.record(n).0 != path@,
            },
    {
        let n = self.records.len();
        for i in 0..n
            invariant
                n == self.records@.len(),
                self.wf(),
                forall|j: int| 0 <= j < i ==> self.records@[j].owner@ != path@,
        {
            if self.records[i].owner == *path {
                let name = self.records[i].name.clone();
                let value = self.records[i].value.clone();
                proof {
                    assert(self.owns(name@));
                    let w = choose|k: int|
                        0 <= k < self.records@.len() && self.records@[k].name@ == name@;
                    assert(w == i);
                }
                return Some((name, value));
            }
        }
        proof {
            assert forall|m: Seq<char>| self.owns(m) implies self.record(m).0 != path@ by {
                let w = choose|k: int|
                    0 <= k < self.records@.len() && self.records@[k].name@ == m;
                assert(self.records@[w].owner@ != path@);
            }
        }
        None
    }

    /// Move every record out, leaving the ledger empty; used when a fresh
    /// load cycle supersedes all current ownership.
    pub fn take_all(&mut self) -> (r: Ledger)
        requires
            old(self).wf(),
        ensures
            final(self).wf(),
            forall|n: Seq<char>| final(self).at(n) == None::<(Seq<char>, Seq<char>)>,
            final(self).count_spec() == 0,
            r.wf(),
            forall|n: Seq<char>| r.at(n) == old(self).at(n),
            r.count_spec() == old(self).count_spec(),
    {
        let mut out = Ledger { records: Vec::new() };
        core::mem::swap(&mut out, self);
        out
    }

    /// The name, owner and value of the record at an index, as spec values.
    pub closed spec fn spec_index(&self, i: int) -> (Seq<char>, Seq<char>, Seq<char>) {
        (self.records@[i].name@, self.records@[i].owner@, self.records@[i].value@)
    }

    /// What the indices of a well-formed ledger satisfy: distinct names,
    /// each index's record reachable through `at`, and every managed name
    /// present at some index.
    pub proof fn lemma_index_facts(&self)
        requires
            self.wf(),
        ensures
            forall|j: int, k: int| 0 <= j < k < self.count_spec()
                ==> self.spec_index(j).0 != self.spec_index(k).0,
            forall|j: int| 0 <= j < self.count_spec()
                ==> self.at(self.spec_index(j).0)
                    == Some((self.spec_index(j).1, self.spec_index(j).2)),
            forall|n: Seq<char>| self.at(n) is Some
                ==> exists|j: int| 0 <= j < self.count_spec() && self.spec_index(j).0 == n,
    {
        assert forall|j: int| 0 <= j < self.count_spec() implies
            self.at(self.spec_index(j).0)
                == Some((self.spec_index(j).1, self.spec_index(j).2)) by {
            let n = self.spec_index(j).0;
            assert(self.records@[j].name@ == n);
            assert(self.owns(n));
            let w = choose|k: int|
                0 <= k < self.records@.len() && self.records@[k].name@ == n;
            assert(w == j);
        }
        assert forall|n: Seq<char>| self.at(n) is Some implies
            exists|j: int| 0 <= j < self.count_spec() && self.spec_index(j).0 == n by {
            let w = choose|k: int|
                0 <= k < self.records@.len() && self.records@[k].name@ == n;
            assert(self.spec_index(w).0 == n);
        }
    }

    /// The record at an index, for iterating over a ledger snapshot.
    pub fn index(&self, i: usize) -> (r: (String, String, String))
        requires
            self.wf(),
            i < self.count_spec(),
        ensures
            (r.0@, r.1@, r.2@) == self.spec_index(i as int),
            self.at(r.0@) == Some((r.1@, r.2@)),
    {
        let rec = &self.records[i];
        proof {
            assert(self.owns(rec.name@));
            let w = choose|k: int|
                0 <= k < self.records@.len() && self.records@[k].name@ == rec.name@;
            assert(w == i);
        }
        (rec.name.clone(), rec.owner.clone(), rec.value.clone())
    }

    /// The number of records, as a spec value.
    pub closed spec fn count_spec(&self) -> nat {
        self.records@.len()
    }

    /// The number of records.
    pub fn count(&self) -> (r: usize)
        ensures
            r == self.count_spec(),
    {
        self.records.len()
    }
}

} // verus!
