//! The manager façade: sequences load, unload, reload and cleanup over the
//! baseline snapshot, the overlay ledger and the environment table.

use vstd::prelude::*;
use crate::model::{
    claimed, count_new, cycle_count, cycle_env_at, first_def, load_at_env, load_at_rec,
    restore_result, unload_at_env, unload_at_rec, winner, winners_set, FileLines,
};
use crate::parse::{parse_env_bytes, EnvLine};
use crate::paths::PathSet;
use crate::records::Ledger;
use crate::table::EnvTable;

verus! {

/// What the caller found at a file path: nothing, an unreadable file, or
/// the file's bytes.
pub enum FileStatus {
    /// No file exists at the path.
    Missing,
    /// A file exists but reading it failed.
    Unreadable,
    /// The file's bytes.
    Content(Vec<u8>),
}

/// One file of a load request: its path and what was found there.
pub struct EnvFile {
    pub path: String,
    pub status: FileStatus,
}

/// The critical error of a load: the file exists but could not be read.
#[derive(Debug)]
pub struct EnvLoadError {
    /// The path of the unreadable file.
    pub path: String,
}

/// The environment overlay manager: layers the variables of an ordered
/// list of definition files over a baseline environment snapshot.
///
/// The ambient process environment is handled as an explicit [`EnvTable`]
/// value passed to each operation; the caller keeps it in step with the
/// real environment, so an outside change of a variable shows up here as a
/// table value that differs from the one the manager wrote.
pub struct EnvManager {
    baseline: EnvTable,
    ledger: Ledger,
    files: PathSet,
}

impl EnvManager {
    /// The manager's internal consistency.
    pub closed spec fn wf(&self) -> bool {
        self.baseline.wf() && self.ledger.wf() && self.files.wf()
    }

    /// The baseline state of a name: its value in the environment as it was
    /// before the manager first ran, or `None` if it was absent then.
    pub closed spec fn baseline_at(&self, name: Seq<char>) -> Option<Seq<char>> {
        self.baseline.at(name)
    }

    /// The record of a managed name: `(owning file, value written)`, or
    /// `None` when the manager does not own the name.
    pub closed spec fn record_at(&self, name: Seq<char>) -> Option<(Seq<char>, Seq<char>)> {
        self.ledger.at(name)
    }

    /// Whether the path is currently tracked as a loaded file.
    pub closed spec fn tracks(&self, path: Seq<char>) -> bool {
        self.files.has(path)
    }

    /// The number of managed variables.
    pub closed spec fn var_count(&self) -> nat {
        self.ledger.count_spec()
    }

    /// The number of tracked files.
    pub closed spec fn file_count(&self) -> nat {
        self.files.count_spec()
    }

    /// The names the manager currently owns.
    pub open spec fn owned_set(&self) -> Set<Seq<char>> {
        Set::new(|n: Seq<char>| self.record_at(n) is Some)
    }

    /// The names owned by a file other than `path`.
    pub open spec fn other_owned_set(&self, path: Seq<char>) -> Set<Seq<char>> {
        Set::new(|n: Seq<char>|
            self.record_at(n) is Some && self.record_at(n).unwrap().0 != path)
    }

    /// Create a manager over a baseline snapshot of the environment, with
    /// nothing loaded and nothing owned.
    pub fn new(baseline: EnvTable) -> (r: EnvManager)
        requires
            baseline.wf(),
        ensures
            r.wf(),
            forall|n: Seq<char>| r.baseline_at(n) == baseline.at(n),
            forall|n: Seq<char>| r.record_at(n) == None::<(Seq<char>, Seq<char>)>,
            forall|p: Seq<char>| !r.tracks(p),
            r.var_count() == 0,
            r.file_count() == 0,
    {
        EnvManager {
            baseline,
            ledger: Ledger::new(),
            files: PathSet::new(),
        }
    }

    /// The baseline value of a name, copied out.
    pub fn baseline_value(&self, name: &String) -> (r: Option<String>)
        requires
            self.wf(),
        ensures
            match r {
                Some(v) => self.baseline_at(name@) == Some(v@),
                None => self.baseline_at(name@) == None::<Seq<char>>,
            },
    {
        self.baseline.get(name)
    }

    /// Relinquish one variable: if its current value is still the value the
    /// manager wrote (`written`), put it back to its baseline state; a value
    /// changed since by something outside the manager is left untouched.
    fn restore_variable(&self, env: &mut EnvTable, name: &String, written: &String)
        requires
            self.wf(),
            old(env).wf(),
        ensures
            final(env).wf(),
            final(env).at(name@) == restore_result(
                self.baseline_at(name@), old(env).at(name@), written@),
            forall|n: Seq<char>| n != name@ ==> final(env).at(n) == old(env).at(n),
    {
        match env.get(name) {
            Some(cur) => {
                if cur == *written {
                    match self.baseline.get(name) {
                        Some(orig) => {
                            env.set(name, &orig);
                        },
                        None => {
                            env.remove(name);
                        },
                    }
                }
            },
            None => {},
        }
    }

    /// Remove ownership of every variable `path` owns, restoring each to
    /// its baseline state unless its value was changed from outside since
    /// the manager wrote it; the path stops being tracked. Unloading a path
    /// that owns nothing only untracks it.
    pub fn unload_env_file(&mut self, env: &mut EnvTable, path: &String)
        requires
            old(self).wf(),
            old(env).wf(),
        ensures
            final(self).wf(),
            final(env).wf(),
            forall|n: Seq<char>| final(self).record_at(n)
                == unload_at_rec(old(self).record_at(n), path@),
            forall|n: Seq<char>| final(env).at(n) == unload_at_env(
                old(self).record_at(n), path@, old(self).baseline_at(n), old(env).at(n)),
            forall|n: Seq<char>| final(self).baseline_at(n) == old(self).baseline_at(n),
            !final(self).tracks(path@),
            forall|p: Seq<char>| p != path@ ==> final(self).tracks(p) == old(self).tracks(p),
    {
        let ghost m0 = *self;
        let ghost e0 = *env;
        loop
            invariant
                self.wf(),
                env.wf(),
                self.baseline == m0.baseline,
                self.files == m0.files,
                forall|n: Seq<char>|
                    (self.record_at(n) == m0.record_at(n) && env.at(n) == e0.at(n))
                    || (self.record_at(n) == unload_at_rec(m0.record_at(n), path@)
                        && env.at(n) == unload_at_env(
                            m0.record_at(n), path@, m0.baseline_at(n), e0.at(n))),
            ensures
                self.wf(),
                env.wf(),
                self.baseline == m0.baseline,
                self.files == m0.files,
                forall|n: Seq<char>| self.record_at(n) == unload_at_rec(m0.record_at(n), path@),
                forall|n: Seq<char>| env.at(n) == unload_at_env(
                    m0.record_at(n), path@, m0.baseline_at(n), e0.at(n)),
            decreases self.ledger.count_spec(),
        {
            match self.ledger.any_owned_by(path) {
                Some(pair) => {
                    let (name, written) = pair;
                    proof {
                        assert(self.record_at(name@) == Some((path@, written@)));
                        // the processed branch of the invariant cannot yield a
                        // record owned by `path`, so this name is untouched so far
                        assert(unload_at_rec(m0.record_at(name@), path@)
                            != Some((path@, written@)));
                        assert(m0.record_at(name@) == Some((path@, written@)));
                        assert(env.at(name@) == e0.at(name@));
                    }
                    self.restore_variable(env, &name, &written);
                    self.ledger.remove(&name);
                },
                None => {
                    proof {
                        assert forall|n: Seq<char>|
                            self.record_at(n) == unload_at_rec(m0.record_at(n), path@)
                            && env.at(n) == unload_at_env(
                                m0.record_at(n), path@, m0.baseline_at(n), e0.at(n)) by {
                            if self.record_at(n) == m0.record_at(n) && env.at(n) == e0.at(n) {
                                if m0.record_at(n) matches Some(p) && p.0 == path@ {
                                    // nothing is owned by `path` any more
                                    assert(self.ledger.owns(n)
                                        && self.ledger.record(n).0 == path@);
                                    assert(false);
                                }
                            }
                        }
                    }
                    break;
                },
            }
        }
        self.files.remove(path);
    }

    /// Apply a file's parsed lines: each name first defined by the lines
    /// and not already managed is written to the environment and recorded
    /// as owned by `path`. A name already managed — by another file, or by
    /// an earlier line of this same load — keeps its value and its owner.
    /// Malformed lines are skipped. Returns how many variables were set.
    pub fn apply_file_lines(
        &mut self,
        env: &mut EnvTable,
        path: &String,
        lines: &Vec<EnvLine>,
    ) -> (r: usize)
        requires
            old(self).wf(),
            old(env).wf(),
        ensures
            final(self).wf(),
            final(env).wf(),
            forall|n: Seq<char>| claimed(old(self).owned_set(), lines@, n)
                ==> final(self).record_at(n) == Some((path@, first_def(lines@, n).unwrap()))
                    && final(env).at(n) == first_def(lines@, n),
            forall|n: Seq<char>| !claimed(old(self).owned_set(), lines@, n)
                ==> final(self).record_at(n) == old(self).record_at(n)
                    && final(env).at(n) == old(env).at(n),
            r == count_new(old(self).owned_set(), lines@),
            forall|n: Seq<char>| final(self).baseline_at(n) == old(self).baseline_at(n),
            forall|p: Seq<char>| final(self).tracks(p) == old(self).tracks(p),
            final(self).var_count() == old(self).var_count() + r,
    {
        let ghost m0 = *self;
        let ghost e0 = *env;
        let ghost blocked = m0.owned_set();
        let mut count: usize = 0;
        let n_lines = lines.len();
        for i in 0..n_lines
            invariant
                n_lines == lines@.len(),
                self.wf(),
                env.wf(),
                self.baseline == m0.baseline,
                self.files == m0.files,
                blocked == m0.owned_set(),
                forall|n: Seq<char>| claimed(blocked, lines@.take(i as int), n)
                    ==> self.record_at(n)
                        == Some((path@, first_def(lines@.take(i as int), n).unwrap()))
                        && env.at(n) == first_def(lines@.take(i as int), n),
                forall|n: Seq<char>| !claimed(blocked, lines@.take(i as int), n)
                    ==> self.record_at(n) == m0.record_at(n) && env.at(n) == e0.at(n),
                count == count_new(blocked, lines@.take(i as int)),
                self.ledger.count_spec() == m0.ledger.count_spec() + count,
                count <= i,
        {
            proof {
                assert(lines@.take(i as int + 1).drop_last() =~= lines@.take(i as int));
                assert(lines@.take(i as int + 1).last() == lines@[i as int]);
            }
            match &lines[i] {
                EnvLine::Pair(k, v) => {
                    match self.ledger.get(k) {
                        Some(_) => {
                            proof {
                                assert(self.record_at(k@) is Some);
                                if !claimed(blocked, lines@.take(i as int), k@) {
                                    assert(m0.record_at(k@) is Some);
                                    assert(blocked.contains(k@));
                                }
                            }
                        },
                        None => {
                            proof {
                                assert(self.record_at(k@) is None);
                                assert(!claimed(blocked, lines@.take(i as int), k@));
                                assert(m0.record_at(k@) is None);
                                assert(!blocked.contains(k@));
                                assert(first_def(lines@.take(i as int), k@) is None);
                                assert(first_def(lines@.take(i as int + 1), k@) == Some(v@));
                            }
                            env.set(k, v);
                            self.ledger.set(k, path, v);
                            count = count + 1;
                        },
                    }
                },
                EnvLine::Malformed => {},
            }
        }
        proof {
            assert(lines@.take(n_lines as int) =~= lines@);
        }
        count
    }

    /// Load one file from what the parser reported, replacing any prior
    /// contribution of the same path.
    ///
    /// An absent file contributes nothing and releases whatever the path
    /// owned; an unreadable file is a critical error and changes nothing;
    /// parsed lines first release the path's prior contribution and then
    /// claim every name they define that no other file owns.
    pub fn load_file_lines(
        &mut self,
        env: &mut EnvTable,
        path: &String,
        lines: &FileLines,
    ) -> (r: Result<usize, EnvLoadError>)
        requires
            old(self).wf(),
            old(env).wf(),
        ensures
            final(self).wf(),
            final(env).wf(),
            load_file_post(*old(self), *old(env), *final(self), *final(env), path@, *lines, r),
    {
        match lines {
            FileLines::Absent => {
                self.unload_env_file(env, path);
                Ok(0)
            },
            FileLines::Failed => {
                Err(EnvLoadError { path: path.clone() })
            },
            FileLines::Lines(ls) => {
                let ghost m0 = *self;
                let ghost e0 = *env;
                self.unload_env_file(env, path);
                let ghost mid = *self;
                proof {
                    assert(mid.owned_set() =~= m0.other_owned_set(path@));
                }
                let count = self.apply_file_lines(env, path, ls);
                self.files.add(path);
                proof {
                    let blocked = m0.other_owned_set(path@);
                    assert forall|n: Seq<char>|
                        self.record_at(n) == load_at_rec(
                            m0.record_at(n), path@, first_def(ls@, n))
                        && env.at(n) == load_at_env(
                            m0.record_at(n), path@, first_def(ls@, n),
                            m0.baseline_at(n), e0.at(n)) by {
                        let fd = first_def(ls@, n);
                        if claimed(blocked, ls@, n) {
                            assert(fd is Some);
                        } else {
                            assert(self.record_at(n) == mid.record_at(n));
                            assert(env.at(n) == unload_at_env(
                                m0.record_at(n), path@, m0.baseline_at(n), e0.at(n)));
                        }
                    }
                }
                Ok(count)
            },
        }
    }
}

impl EnvManager {
    /// Load one file into the merged table, replacing any prior
    /// contribution from the same path.
    ///
    /// A missing file is not an error: the path's prior contribution is
    /// released and the count is 0. A file that exists but could not be
    /// read is a critical error, and nothing is changed. Otherwise the
    /// bytes go to the external parser, whose lines are applied as
    /// [`EnvManager::load_file_lines`] states; what the parser returns for
    /// given bytes may depend on the ambient environment, so the parsed
    /// lines are existentially quantified here.
    pub fn load_env_file(
        &mut self,
        env: &mut EnvTable,
        path: &String,
        status: &FileStatus,
    ) -> (r: Result<usize, EnvLoadError>)
        requires
            old(self).wf(),
            old(env).wf(),
        ensures
            final(self).wf(),
            final(env).wf(),
            match *status {
                FileStatus::Missing => load_file_post(
                    *old(self), *old(env), *final(self), *final(env), path@,
                    FileLines::Absent, r),
                FileStatus::Unreadable => load_file_post(
                    *old(self), *old(env), *final(self), *final(env), path@,
                    FileLines::Failed, r),
                FileStatus::Content(_) => exists|ls: Vec<EnvLine>| load_file_post(
                    *old(self), *old(env), *final(self), *final(env), path@,
                    FileLines::Lines(ls), r),
            },
    {
        match status {
            FileStatus::Missing => self.load_file_lines(env, path, &FileLines::Absent),
            FileStatus::Unreadable => self.load_file_lines(env, path, &FileLines::Failed),
            FileStatus::Content(bytes) => {
                let parsed = parse_env_bytes(bytes);
                let ghost w = parsed;
                let fl = FileLines::Lines(parsed);
                let r = self.load_file_lines(env, path, &fl);
                proof {
                    assert(load_file_post(
                        *old(self), *old(env), *self, *env, path@, FileLines::Lines(w), r));
                }
                r
            },
        }
    }

    /// Unload every tracked file: each managed variable is put back to its
    /// baseline state unless its value was changed from outside since the
    /// manager wrote it, and the manager ends up tracking nothing.
    pub fn cleanup(&mut self, env: &mut EnvTable)
        requires
            old(self).wf(),
            old(env).wf(),
        ensures
            final(self).wf(),
            final(env).wf(),
            forall|n: Seq<char>| final(self).record_at(n) == None::<(Seq<char>, Seq<char>)>,
            forall|n: Seq<char>| final(env).at(n) == match old(self).record_at(n) {
                Some(ow) => restore_result(
                    old(self).baseline_at(n), old(env).at(n), ow.1),
                None => old(env).at(n),
            },
            forall|p: Seq<char>| !final(self).tracks(p),
            forall|n: Seq<char>| final(self).baseline_at(n) == old(self).baseline_at(n),
            final(self).var_count() == 0,
            final(self).file_count() == 0,
    {
        let ghost m0 = *self;
        let ghost e0 = *env;
        let pending = self.ledger.take_all();
        self.files = PathSet::new();
        let pn = pending.count();
        for i in 0..pn
            invariant
                pn == pending.count_spec(),
                pending.wf(),
                forall|n: Seq<char>| pending.at(n) == m0.record_at(n),
                self.wf(),
                env.wf(),
                self.baseline == m0.baseline,
                forall|n: Seq<char>| self.record_at(n) == None::<(Seq<char>, Seq<char>)>,
                forall|p: Seq<char>| !self.tracks(p),
                self.var_count() == 0,
                self.file_count() == 0,
                forall|n: Seq<char>| env.at(n) == (
                    if exists|j: int| 0 <= j < i && pending.spec_index(j).0 == n {
                        match pending.at(n) {
                            Some(ow) => restore_result(m0.baseline_at(n), e0.at(n), ow.1),
                            None => e0.at(n),
                        }
                    } else {
                        e0.at(n)
                    }),
        {
            let rec = pending.index(i);
            proof {
                pending.lemma_index_facts();
                assert forall|j: int| 0 <= j < i implies
                    pending.spec_index(j).0 != rec.0@ by {
                    assert(pending.spec_index(i as int).0 == rec.0@);
                }
                assert(env.at(rec.0@) == e0.at(rec.0@));
            }
            let ghost env_pre = *env;
            self.restore_variable(env, &rec.0, &rec.2);
            proof {
                assert(pending.at(rec.0@) == Some((rec.1@, rec.2@)));
                assert(env.at(rec.0@) == restore_result(
                    m0.baseline_at(rec.0@), e0.at(rec.0@), rec.2@));
                assert forall|n: Seq<char>| n != rec.0@ implies env.at(n) == (
                    if exists|j: int| 0 <= j < i + 1 && pending.spec_index(j).0 == n {
                        match pending.at(n) {
                            Some(ow) => restore_result(m0.baseline_at(n), e0.at(n), ow.1),
                            None => e0.at(n),
                        }
                    } else {
                        e0.at(n)
                    }) by {
                    assert(env.at(n) == env_pre.at(n));
                    if exists|j: int| 0 <= j < i + 1 && pending.spec_index(j).0 == n {
                        let j = choose|j: int| 0 <= j < i + 1 && pending.spec_index(j).0 == n;
                        assert(j != i);
                        assert(exists|k: int| 0 <= k < i && pending.spec_index(k).0 == n);
                    }
                }
            }
        }
        proof {
            pending.lemma_index_facts();
            assert forall|n: Seq<char>| env.at(n) == (match m0.record_at(n) {
                Some(ow) => restore_result(m0.baseline_at(n), e0.at(n), ow.1),
                None => e0.at(n),
            }) by {
                if m0.record_at(n) is Some {
                    assert(pending.at(n) is Some);
                    assert(exists|j: int|
                        0 <= j < pending.count_spec() && pending.spec_index(j).0 == n);
                }
            }
        }
    }

    /// Reload one file: semantically an unload of the path followed by a
    /// load of it, exposed as a single operation for callers driven by
    /// file-change notifications. Loading already releases the path's
    /// prior contribution first, so this is the same operation as
    /// [`EnvManager::load_env_file`], under the same contract.
    pub fn reload_env_file(
        &mut self,
        env: &mut EnvTable,
        path: &String,
        status: &FileStatus,
    ) -> (r: Result<usize, EnvLoadError>)
        requires
            old(self).wf(),
            old(env).wf(),
        ensures
            final(self).wf(),
            final(env).wf(),
            match *status {
                FileStatus::Missing => load_file_post(
                    *old(self), *old(env), *final(self), *final(env), path@,
                    FileLines::Absent, r),
                FileStatus::Unreadable => load_file_post(
                    *old(self), *old(env), *final(self), *final(env), path@,
                    FileLines::Failed, r),
                FileStatus::Content(_) => exists|ls: Vec<EnvLine>| load_file_post(
                    *old(self), *old(env), *final(self), *final(env), path@,
                    FileLines::Lines(ls), r),
            },
    {
        self.load_env_file(env, path, status)
    }
}

impl EnvManager {
    /// Load an ordered list of files as one cycle, from what the parser
    /// reported for each. The whole previous cycle's ownership is
    /// superseded: every name some listed readable file defines goes to
    /// the first such file, with that file's first definition of it; every
    /// name owned before but won by no listed file is released and
    /// restored. Unreadable and missing files contribute nothing, and
    /// never abort the batch. Returns the total number of variables set.
    pub fn load_many_lines(
        &mut self,
        env: &mut EnvTable,
        files: &Vec<(String, FileLines)>,
    ) -> (r: usize)
        requires
            old(self).wf(),
            old(env).wf(),
        ensures
            final(self).wf(),
            final(env).wf(),
            load_cycle_post(*old(self), *old(env), *final(self), *final(env), files@, r as nat),
    {
        let ghost m0 = *self;
        let ghost e0 = *env;
        let pending = self.ledger.take_all();
        self.files = PathSet::new();
        let mut total: usize = 0;
        let n_files = files.len();
        for fi in 0..n_files
            invariant
                n_files == files@.len(),
                pending.wf(),
                forall|n: Seq<char>| pending.at(n) == m0.record_at(n),
                self.wf(),
                env.wf(),
                forall|n: Seq<char>| self.baseline_at(n) == m0.baseline_at(n),
                forall|n: Seq<char>|
                    self.record_at(n) == winner(files@.take(fi as int), n),
                forall|n: Seq<char>| env.at(n) == (
                    match winner(files@.take(fi as int), n) {
                        Some(pv) => Some(pv.1),
                        None => e0.at(n),
                    }),
                forall|p: Seq<char>| self.tracks(p) == exists|j: int|
                    0 <= j < fi && files@[j].0@ == p && files@[j].1 is Lines,
                total == cycle_count(files@.take(fi as int)),
                total == self.var_count(),
        {
            proof {
                assert(files@.take(fi as int + 1).drop_last() =~= files@.take(fi as int));
                assert(files@.take(fi as int + 1).last() == files@[fi as int]);
            }
            let ghost m_entry = *self;
            let path = &files[fi].0;
            match &files[fi].1 {
                FileLines::Lines(ls) => {
                    proof {
                        assert(path@ == files@[fi as int].0@);
                        assert(files@[fi as int].1 is Lines);
                        assert(self.owned_set() =~= winners_set(files@.take(fi as int)));
                    }
                    let c = self.apply_file_lines(env, path, ls);
                    let lc = self.ledger.count();
                    proof {
                        assert(total + c == lc);
                    }
                    total = total + c;
                    self.files.add(path);
                    proof {
                        let ghost pre = files@.take(fi as int);
                        let ghost cur = files@.take(fi as int + 1);
                        assert forall|n: Seq<char>|
                            self.record_at(n) == winner(cur, n)
                            && env.at(n) == (match winner(cur, n) {
                                Some(pv) => Some(pv.1),
                                None => e0.at(n),
                            }) by {
                            if claimed(winners_set(pre), ls@, n) {
                                assert(winner(pre, n) is None);
                                assert(winner(cur, n)
                                    == Some((path@, first_def(ls@, n).unwrap())));
                            } else {
                                assert(self.record_at(n) == winner(pre, n));
                                if winner(pre, n) is Some {
                                    assert(winner(cur, n) == winner(pre, n));
                                } else {
                                    assert(!winners_set(pre).contains(n));
                                    assert(first_def(ls@, n) is None);
                                    assert(winner(cur, n) is None);
                                }
                            }
                        }
                        assert forall|p: Seq<char>| self.tracks(p) == exists|j: int|
                            0 <= j < fi + 1 && files@[j].0@ == p
                            && files@[j].1 is Lines by {
                            if p == path@ {
                                assert(files@[fi as int].0@ == p
                                    && files@[fi as int].1 is Lines);
                                assert(exists|j: int| 0 <= j < fi + 1
                                    && files@[j].0@ == p && files@[j].1 is Lines);
                            } else {
                                assert(self.tracks(p) == m_entry.tracks(p));
                                assert(m_entry.tracks(p) == exists|k: int|
                                    0 <= k < fi && files@[k].0@ == p
                                    && files@[k].1 is Lines);
                                if exists|j: int| 0 <= j < fi + 1 && files@[j].0@ == p
                                    && files@[j].1 is Lines {
                                    let j = choose|j: int| 0 <= j < fi + 1
                                        && files@[j].0@ == p && files@[j].1 is Lines;
                                    assert(j != fi);
                                    assert(exists|k: int| 0 <= k < fi && files@[k].0@ == p
                                        && files@[k].1 is Lines);
                                }
                                if exists|k: int| 0 <= k < fi && files@[k].0@ == p
                                    && files@[k].1 is Lines {
                                    let k = choose|k: int| 0 <= k < fi
                                        && files@[k].0@ == p && files@[k].1 is Lines;
                                    assert(exists|j: int| 0 <= j < fi + 1
                                        && files@[j].0@ == p && files@[j].1 is Lines);
                                }
                            }
                        }
                    }
                },
                _ => {
                    proof {
                        let ghost cur = files@.take(fi as int + 1);
                        assert forall|n: Seq<char>|
                            winner(cur, n) == winner(files@.take(fi as int), n) by {}
                        assert forall|p: Seq<char>| self.tracks(p) == exists|j: int|
                            0 <= j < fi + 1 && files@[j].0@ == p
                            && files@[j].1 is Lines by {
                            if exists|j: int| 0 <= j < fi + 1 && files@[j].0@ == p
                                && files@[j].1 is Lines {
                                let j = choose|j: int| 0 <= j < fi + 1
                                    && files@[j].0@ == p && files@[j].1 is Lines;
                                assert(j != fi);
                                assert(exists|k: int| 0 <= k < fi && files@[k].0@ == p
                                    && files@[k].1 is Lines);
                            }
                        }
                    }
                },
            }
        }
        proof {
            assert(files@.take(n_files as int) =~= files@);
        }
        let ghost env_mid = *env;
        let pn = pending.count();
        for i in 0..pn
            invariant
                pn == pending.count_spec(),
                pending.wf(),
                forall|n: Seq<char>| pending.at(n) == m0.record_at(n),
                self.wf(),
                env.wf(),
                forall|n: Seq<char>| self.baseline_at(n) == m0.baseline_at(n),
                forall|n: Seq<char>| self.record_at(n) == winner(files@, n),
                forall|p: Seq<char>| self.tracks(p) == exists|j: int|
                    0 <= j < files@.len() && files@[j].0@ == p && files@[j].1 is Lines,
                total == cycle_count(files@),
                forall|n: Seq<char>| env.at(n) == (
                    if winner(files@, n) is Some {
                        Some(winner(files@, n).unwrap().1)
                    } else if exists|j: int| 0 <= j < i && pending.spec_index(j).0 == n {
                        match pending.at(n) {
                            Some(ow) => restore_result(m0.baseline_at(n), e0.at(n), ow.1),
                            None => e0.at(n),
                        }
                    } else {
                        e0.at(n)
                    }),
        {
            let rec = pending.index(i);
            proof {
                pending.lemma_index_facts();
                assert forall|j: int| 0 <= j < i implies
                    pending.spec_index(j).0 != rec.0@ by {
                    assert(pending.spec_index(i as int).0 == rec.0@);
                }
            }
            let ghost env_pre = *env;
            match self.ledger.get(&rec.0) {
                Some(_) => {
                    proof {
                        assert(winner(files@, rec.0@) is Some);
                        assert forall|n: Seq<char>| env.at(n) == (
                            if winner(files@, n) is Some {
                                Some(winner(files@, n).unwrap().1)
                            } else if exists|j: int|
                                0 <= j < i + 1 && pending.spec_index(j).0 == n {
                                match pending.at(n) {
                                    Some(ow) => restore_result(
                                        m0.baseline_at(n), e0.at(n), ow.1),
                                    None => e0.at(n),
                                }
                            } else {
                                e0.at(n)
                            }) by {
                            if winner(files@, n) is None
                                && n != rec.0@
                                && exists|j: int|
                                    0 <= j < i + 1 && pending.spec_index(j).0 == n {
                                let j = choose|j: int|
                                    0 <= j < i + 1 && pending.spec_index(j).0 == n;
                                assert(j != i);
                                assert(exists|k: int|
                                    0 <= k < i && pending.spec_index(k).0 == n);
                            }
                        }
                    }
                },
                None => {
                    proof {
                        assert(winner(files@, rec.0@) is None);
                        assert(env.at(rec.0@) == e0.at(rec.0@));
                    }
                    self.restore_variable(env, &rec.0, &rec.2);
                    proof {
                        assert(pending.at(rec.0@) == Some((rec.1@, rec.2@)));
                        assert forall|n: Seq<char>| env.at(n) == (
                            if winner(files@, n) is Some {
                                Some(winner(files@, n).unwrap().1)
                            } else if exists|j: int|
                                0 <= j < i + 1 && pending.spec_index(j).0 == n {
                                match pending.at(n) {
                                    Some(ow) => restore_result(
                                        m0.baseline_at(n), e0.at(n), ow.1),
                                    None => e0.at(n),
                                }
                            } else {
                                e0.at(n)
                            }) by {
                            if n == rec.0@ {
                                assert(env.at(n) == restore_result(
                                    m0.baseline_at(n), e0.at(n), rec.2@));
                            } else {
                                assert(env.at(n) == env_pre.at(n));
                                if winner(files@, n) is None
                                    && exists|j: int|
                                        0 <= j < i + 1 && pending.spec_index(j).0 == n {
                                    let j = choose|j: int|
                                        0 <= j < i + 1 && pending.spec_index(j).0 == n;
                                    assert(j != i);
                                    assert(exists|k: int|
                                        0 <= k < i && pending.spec_index(k).0 == n);
                                }
                            }
                        }
                    }
                },
            }
        }
        proof {
            pending.lemma_index_facts();
            assert forall|n: Seq<char>| env.at(n) == cycle_env_at(
                winner(files@, n), m0.record_at(n), m0.baseline_at(n), e0.at(n)) by {
                if winner(files@, n) is None && m0.record_at(n) is Some {
                    assert(pending.at(n) is Some);
                    assert(exists|j: int|
                        0 <= j < pending.count_spec() && pending.spec_index(j).0 == n);
                }
            }
        }
        total
    }
}

impl EnvManager {
    /// Load an ordered list of env files as one cycle: earlier files take
    /// precedence over later ones, and the whole previous cycle's
    /// ownership is superseded — variables won by no listed file are
    /// released and restored. Per-file failures never abort the batch.
    /// Returns the total number of variables set.
    ///
    /// The bytes of each readable file go to the external parser, whose
    /// output for given bytes may depend on the ambient environment; the
    /// per-file line sequences are therefore existentially quantified, and
    /// [`EnvManager::load_many_lines`] pins down the result for each of
    /// them.
    pub fn load_env_variables_from_env_files(
        &mut self,
        env: &mut EnvTable,
        files: &Vec<EnvFile>,
    ) -> (r: usize)
        requires
            old(self).wf(),
            old(env).wf(),
        ensures
            final(self).wf(),
            final(env).wf(),
            exists|plan: Seq<(String, FileLines)>| plan_matches(files@, plan)
                && load_cycle_post(
                    *old(self), *old(env), *final(self), *final(env), plan, r as nat),
    {
        let mut plan: Vec<(String, FileLines)> = Vec::new();
        let n_files = files.len();
        for i in 0..n_files
            invariant
                n_files == files@.len(),
                plan@.len() == i,
                forall|j: int| 0 <= j < i ==> plan@[j].0@ == files@[j].path@
                    && lines_match(files@[j].status, plan@[j].1),
        {
            let fl = match &files[i].status {
                FileStatus::Missing => FileLines::Absent,
                FileStatus::Unreadable => FileLines::Failed,
                FileStatus::Content(bytes) => FileLines::Lines(parse_env_bytes(bytes)),
            };
            plan.push((files[i].path.clone(), fl));
        }
        let ghost w = plan;
        let total = self.load_many_lines(env, &plan);
        proof {
            assert(plan_matches(files@, w@));
            assert(load_cycle_post(
                *old(self), *old(env), *self, *env, w@, total as nat));
        }
        total
    }
}

impl EnvManager {
    /// The file a managed variable currently comes from, or `None` when
    /// the manager does not own the name.
    pub fn get_variable_source(&self, name: &String) -> (r: Option<String>)
        requires
            self.wf(),
        ensures
            match r {
                Some(p) => self.record_at(name@) is Some
                    && self.record_at(name@).unwrap().0 == p@,
                None => self.record_at(name@) is None,
            },
    {
        match self.ledger.get(name) {
            Some(p) => Some(p.0),
            None => None,
        }
    }

    /// Whether the manager currently owns this variable.
    pub fn is_managed(&self, name: &String) -> (r: bool)
        requires
            self.wf(),
        ensures
            r == (self.record_at(name@) is Some),
    {
        self.ledger.get(name).is_some()
    }

    /// Whether this path is currently tracked as a loaded file.
    pub fn is_tracked(&self, path: &String) -> (r: bool)
        requires
            self.wf(),
        ensures
            r == self.tracks(path@),
    {
        self.files.contains(path)
    }

    /// The number of variables the manager currently owns.
    pub fn env_var_count(&self) -> (r: usize)
        requires
            self.wf(),
        ensures
            r == self.var_count(),
    {
        self.ledger.count()
    }

    /// The number of files currently tracked.
    pub fn env_file_count(&self) -> (r: usize)
        requires
            self.wf(),
        ensures
            r == self.file_count(),
    {
        self.files.count()
    }

    /// The names of the variables a file currently owns.
    pub fn variables_from_file(&self, path: &String) -> (r: Vec<String>)
        requires
            self.wf(),
        ensures
            forall|i: int| 0 <= i < r@.len() ==> self.record_at(r@[i]@) is Some
                && self.record_at(r@[i]@).unwrap().0 == path@,
            forall|n: Seq<char>| self.record_at(n) is Some
                && self.record_at(n).unwrap().0 == path@
                ==> exists|i: int| 0 <= i < r@.len() && r@[i]@ == n,
    {
        let mut out: Vec<String> = Vec::new();
        let c = self.ledger.count();
        for i in 0..c
            invariant
                c == self.ledger.count_spec(),
                self.wf(),
                forall|k: int| 0 <= k < out@.len() ==> self.record_at(out@[k]@) is Some
                    && self.record_at(out@[k]@).unwrap().0 == path@,
                forall|j: int| 0 <= j < i && self.ledger.spec_index(j).1 == path@
                    ==> exists|k: int| 0 <= k < out@.len()
                        && out@[k]@ == self.ledger.spec_index(j).0,
        {
            let rec = self.ledger.index(i);
            let ghost out_pre = out@;
            if rec.1 == *path {
                out.push(rec.0);
                proof {
                    assert forall|j: int| 0 <= j < i + 1
                        && self.ledger.spec_index(j).1 == path@ implies
                        exists|k: int| 0 <= k < out@.len()
                            && out@[k]@ == self.ledger.spec_index(j).0 by {
                        if j == i {
                            assert(out@[out@.len() - 1]@ == self.ledger.spec_index(j).0);
                        } else {
                            let k = choose|k: int| 0 <= k < out_pre.len()
                                && out_pre[k]@ == self.ledger.spec_index(j).0;
                            assert(out@[k] == out_pre[k]);
                            assert(out@[k]@ == self.ledger.spec_index(j).0);
                        }
                    }
                }
            }
        }
        proof {
            self.ledger.lemma_index_facts();
            assert forall|n: Seq<char>| self.record_at(n) is Some
                && self.record_at(n).unwrap().0 == path@ implies
                exists|i: int| 0 <= i < out@.len() && out@[i]@ == n by {
                let j = choose|j: int| 0 <= j < self.ledger.count_spec()
                    && self.ledger.spec_index(j).0 == n;
                assert(self.ledger.spec_index(j).1 == path@);
            }
        }
        out
    }

    /// Every managed variable: name, owning file and written value.
    pub fn merged_variables(&self) -> (r: Vec<(String, String, String)>)
        requires
            self.wf(),
        ensures
            forall|i: int| 0 <= i < r@.len()
                ==> self.record_at(r@[i].0@) == Some((r@[i].1@, r@[i].2@)),
            forall|n: Seq<char>| self.record_at(n) is Some
                ==> exists|i: int| 0 <= i < r@.len() && r@[i].0@ == n,
    {
        let mut out: Vec<(String, String, String)> = Vec::new();
        let c = self.ledger.count();
        for i in 0..c
            invariant
                c == self.ledger.count_spec(),
                self.wf(),
                out@.len() == i,
                forall|k: int| 0 <= k < out@.len()
                    ==> self.record_at(out@[k].0@) == Some((out@[k].1@, out@[k].2@)),
                forall|j: int| 0 <= j < i ==> out@[j].0@ == self.ledger.spec_index(j).0,
        {
            let rec = self.ledger.index(i);
            out.push(rec);
        }
        proof {
            self.ledger.lemma_index_facts();
            assert forall|n: Seq<char>| self.record_at(n) is Some implies
                exists|i: int| 0 <= i < out@.len() && out@[i].0@ == n by {
                let j = choose|j: int| 0 <= j < self.ledger.count_spec()
                    && self.ledger.spec_index(j).0 == n;
                assert(out@[j].0@ == n);
            }
        }
        out
    }
}

/// Whether the parser's report matches what the caller found at the path:
/// a missing file is absent, an unreadable one failed, and a read one has
/// parsed lines.
pub open spec fn lines_match(status: FileStatus, fl: FileLines) -> bool {
    match status {
        FileStatus::Missing => fl is Absent,
        FileStatus::Unreadable => fl is Failed,
        FileStatus::Content(_) => fl is Lines,
    }
}

/// Whether a load plan lists, path by path, what the parser reported for
/// the caller's files.
pub open spec fn plan_matches(files: Seq<EnvFile>, plan: Seq<(String, FileLines)>) -> bool {
    &&& plan.len() == files.len()
    &&& forall|j: int| 0 <= j < files.len() ==> plan[j].0@ == files[j].path@
        && lines_match(files[j].status, plan[j].1)
}

/// Load an ordered list of env files through a manager: the free-function
/// form of [`EnvManager::load_env_variables_from_env_files`], under the
/// same contract.
pub fn load_env_variables_from_env_files(
    manager: &mut EnvManager,
    env: &mut EnvTable,
    files: &Vec<EnvFile>,
) -> (r: usize)
    requires
        old(manager).wf(),
        old(env).wf(),
    ensures
        final(manager).wf(),
        final(env).wf(),
        exists|plan: Seq<(String, FileLines)>| plan_matches(files@, plan)
            && load_cycle_post(
                *old(manager), *old(env), *final(manager), *final(env), plan, r as nat),
{
    manager.load_env_variables_from_env_files(env, files)
}

/// What one full load cycle does: per name, the first listed readable file
/// that defines it wins it; a name owned before the cycle but won by no
/// listed file is released and restored; every other name is untouched.
/// Exactly the paths of the readable listed files end up tracked.
pub open spec fn load_cycle_post(
    m0: EnvManager,
    e0: EnvTable,
    m1: EnvManager,
    e1: EnvTable,
    files: Seq<(String, FileLines)>,
    total: nat,
) -> bool {
    &&& forall|n: Seq<char>| m1.record_at(n) == winner(files, n)
    &&& forall|n: Seq<char>| e1.at(n) == cycle_env_at(
        winner(files, n), m0.record_at(n), m0.baseline_at(n), e0.at(n))
    &&& forall|p: Seq<char>| m1.tracks(p) == exists|j: int|
        0 <= j < files.len() && files[j].0@ == p && files[j].1 is Lines
    &&& forall|n: Seq<char>| m1.baseline_at(n) == m0.baseline_at(n)
    &&& total == cycle_count(files)
}

/// What loading one file does, per variable name, given what the parser
/// reported for the file.
pub open spec fn load_file_post(
    m0: EnvManager,
    e0: EnvTable,
    m1: EnvManager,
    e1: EnvTable,
    path: Seq<char>,
    lines: FileLines,
    r: Result<usize, EnvLoadError>,
) -> bool {
    match lines {
        FileLines::Absent => {
            &&& forall|n: Seq<char>| m1.record_at(n) == unload_at_rec(m0.record_at(n), path)
            &&& forall|n: Seq<char>| e1.at(n) == unload_at_env(
                m0.record_at(n), path, m0.baseline_at(n), e0.at(n))
            &&& !m1.tracks(path)
            &&& forall|p: Seq<char>| p != path ==> m1.tracks(p) == m0.tracks(p)
            &&& forall|n: Seq<char>| m1.baseline_at(n) == m0.baseline_at(n)
            &&& r == Ok::<usize, EnvLoadError>(0)
        },
        FileLines::Failed => {
            &&& m1 == m0
            &&& e1 == e0
            &&& r matches Err(e) && e.path@ == path
        },
        FileLines::Lines(ls) => {
            &&& forall|n: Seq<char>| m1.record_at(n) == load_at_rec(
                m0.record_at(n), path, first_def(ls@, n))
            &&& forall|n: Seq<char>| e1.at(n) == load_at_env(
                m0.record_at(n), path, first_def(ls@, n), m0.baseline_at(n), e0.at(n))
            &&& m1.tracks(path)
            &&& forall|p: Seq<char>| p != path ==> m1.tracks(p) == m0.tracks(p)
            &&& forall|n: Seq<char>| m1.baseline_at(n) == m0.baseline_at(n)
            &&& r == Ok::<usize, EnvLoadError>(
                count_new(m0.other_owned_set(path), ls@) as usize)
        },
    }
}

} // verus!
