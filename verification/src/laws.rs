//! The laws of the overlay: idempotence, reversibility, precedence,
//! non-clobbering of outside changes, and batch supersession, proved from
//! the contracts of the manager's operations.

use vstd::prelude::*;
use crate::manager::{load_cycle_post, load_file_post, EnvLoadError, EnvManager};
use crate::model::{
    cycle_env_at, first_def, load_at_env, load_at_rec, restore_result, unload_at_env,
    unload_at_rec, winner, FileLines,
};
use crate::parse::EnvLine;
use crate::table::EnvTable;

verus! {

/// Whether one file of a load cycle defines `name`: the parser read it and
/// some of its lines is a pair with that name.
pub open spec fn defines(file: (String, FileLines), name: Seq<char>) -> bool {
    match file.1 {
        FileLines::Lines(ls) => first_def(ls@, name) is Some,
        _ => false,
    }
}

/// The value one file of a load cycle gives `name`: its first definition
/// of it (meaningful when `defines(file, name)`).
pub open spec fn def_of(file: (String, FileLines), name: Seq<char>) -> Seq<char> {
    match file.1 {
        FileLines::Lines(ls) => first_def(ls@, name).unwrap(),
        _ => Seq::empty(),
    }
}

/// A cycle none of whose files defines `name` has no winner for it.
pub proof fn lemma_winner_none(files: Seq<(String, FileLines)>, name: Seq<char>)
    requires
        forall|k: int| 0 <= k < files.len() ==> !defines(files[k], name),
    ensures
        winner(files, name) is None,
    decreases files.len(),
{
    if files.len() > 0 {
        lemma_winner_none(files.drop_last(), name);
        assert(!defines(files[files.len() - 1], name));
    }
}

/// The winner of a name is the first listed file that defines it, with
/// that file's first definition of it.
pub proof fn lemma_winner_first(files: Seq<(String, FileLines)>, name: Seq<char>, i: int)
    requires
        0 <= i < files.len(),
        defines(files[i], name),
        forall|k: int| 0 <= k < i ==> !defines(files[k], name),
    ensures
        winner(files, name) == Some((files[i].0@, def_of(files[i], name))),
    decreases files.len(),
{
    if i == files.len() - 1 {
        lemma_winner_none(files.drop_last(), name);
    } else {
        lemma_winner_first(files.drop_last(), name, i);
        assert(files.drop_last()[i] == files[i]);
    }
}

/// Idempotence: loading the same file, with the same parsed lines, twice
/// in a row yields the same merged table, the same owner assignments and
/// the same count as loading it once.
pub proof fn lemma_load_idempotent(
    m0: EnvManager,
    e0: EnvTable,
    m1: EnvManager,
    e1: EnvTable,
    m2: EnvManager,
    e2: EnvTable,
    path: Seq<char>,
    lines: FileLines,
    r1: Result<usize, EnvLoadError>,
    r2: Result<usize, EnvLoadError>,
)
    requires
        load_file_post(m0, e0, m1, e1, path, lines, r1),
        load_file_post(m1, e1, m2, e2, path, lines, r2),
    ensures
        forall|n: Seq<char>| m2.record_at(n) == m1.record_at(n),
        forall|n: Seq<char>| e2.at(n) == e1.at(n),
        r1 is Ok ==> r2 == r1,
{
    match lines {
        FileLines::Absent => {
            assert forall|n: Seq<char>|
                m2.record_at(n) == m1.record_at(n) && e2.at(n) == e1.at(n) by {
                assert(m1.record_at(n) == unload_at_rec(m0.record_at(n), path));
            }
        },
        FileLines::Failed => {},
        FileLines::Lines(ls) => {
            assert forall|n: Seq<char>|
                m2.record_at(n) == m1.record_at(n) && e2.at(n) == e1.at(n) by {
                let fd = first_def(ls@, n);
                let r0 = m0.record_at(n);
                assert(m1.record_at(n) == load_at_rec(r0, path, fd));
                assert(m2.record_at(n) == load_at_rec(m1.record_at(n), path, fd));
                assert(e1.at(n) == load_at_env(r0, path, fd, m0.baseline_at(n), e0.at(n)));
                assert(e2.at(n) == load_at_env(
                    m1.record_at(n), path, fd, m1.baseline_at(n), e1.at(n)));
            }
            assert(m1.other_owned_set(path) =~= m0.other_owned_set(path));
        },
    }
}

/// Reversibility: when a name is not manager-owned beforehand, loading a
/// file and then unloading it puts the name back: absent again if it was
/// absent from both the baseline and the environment, and at exactly its
/// baseline value if the environment still held that value.
pub proof fn lemma_load_unload_reversible(
    m0: EnvManager,
    e0: EnvTable,
    m1: EnvManager,
    e1: EnvTable,
    m2: EnvManager,
    e2: EnvTable,
    path: Seq<char>,
    ls: Vec<EnvLine>,
    r1: Result<usize, EnvLoadError>,
    n: Seq<char>,
)
    requires
        m0.record_at(n) is None,
        load_file_post(m0, e0, m1, e1, path, FileLines::Lines(ls), r1),
        forall|nn: Seq<char>| m2.record_at(nn) == unload_at_rec(m1.record_at(nn), path),
        forall|nn: Seq<char>| e2.at(nn) == unload_at_env(
            m1.record_at(nn), path, m1.baseline_at(nn), e1.at(nn)),
    ensures
        m0.baseline_at(n) is None && e0.at(n) is None
            ==> e2.at(n) is None,
        e0.at(n) == m0.baseline_at(n)
            ==> e2.at(n) == m0.baseline_at(n),
        m2.record_at(n) is None,
{
    let fd = first_def(ls@, n);
    assert(m1.record_at(n) == load_at_rec(m0.record_at(n), path, fd));
    assert(e1.at(n) == load_at_env(
        m0.record_at(n), path, fd, m0.baseline_at(n), e0.at(n)));
    assert(m1.baseline_at(n) == m0.baseline_at(n));
}

/// Non-clobbering: when a variable the manager owns was changed from
/// outside after the manager wrote it, unloading its owner leaves the
/// outside value in place — it is neither reset to baseline nor removed.
pub proof fn lemma_unload_keeps_outside_change(
    m1: EnvManager,
    e1: EnvTable,
    m2: EnvManager,
    e2: EnvTable,
    path: Seq<char>,
    n: Seq<char>,
    outside: Seq<char>,
)
    requires
        m1.record_at(n) is Some,
        m1.record_at(n).unwrap().0 == path,
        e1.at(n) == Some(outside),
        outside != m1.record_at(n).unwrap().1,
        forall|nn: Seq<char>| e2.at(nn) == unload_at_env(
            m1.record_at(nn), path, m1.baseline_at(nn), e1.at(nn)),
        forall|nn: Seq<char>| m2.record_at(nn) == unload_at_rec(m1.record_at(nn), path),
    ensures
        e2.at(n) == Some(outside),
        m2.record_at(n) is None,
{
}

/// Batch supersession: a fresh load cycle releases every variable whose
/// owner no longer wins it. A managed name that no file of the new cycle
/// defines, and whose value is still the one the manager wrote, goes back
/// to its baseline state.
pub proof fn lemma_batch_supersession(
    m0: EnvManager,
    e0: EnvTable,
    m1: EnvManager,
    e1: EnvTable,
    files: Seq<(String, FileLines)>,
    total: nat,
    n: Seq<char>,
)
    requires
        load_cycle_post(m0, e0, m1, e1, files, total),
        forall|k: int| 0 <= k < files.len() ==> !defines(files[k], n),
        m0.record_at(n) is Some,
        e0.at(n) == Some(m0.record_at(n).unwrap().1),
    ensures
        m1.record_at(n) is None,
        e1.at(n) == m0.baseline_at(n),
{
    lemma_winner_none(files, n);
    assert(e1.at(n) == cycle_env_at(
        winner(files, n), m0.record_at(n), m0.baseline_at(n), e0.at(n)));
}

/// Precedence: when two files of one cycle both define a name, the first
/// listed one wins — the merged value is its definition, and the record
/// names it as the owner.
pub proof fn lemma_first_file_wins(
    m0: EnvManager,
    e0: EnvTable,
    m1: EnvManager,
    e1: EnvTable,
    files: Seq<(String, FileLines)>,
    total: nat,
    i: int,
    j: int,
    n: Seq<char>,
)
    requires
        load_cycle_post(m0, e0, m1, e1, files, total),
        0 <= i < j < files.len(),
        defines(files[i], n),
        defines(files[j], n),
        forall|k: int| 0 <= k < i ==> !defines(files[k], n),
    ensures
        m1.record_at(n) == Some((files[i].0@, def_of(files[i], n))),
        e1.at(n) == Some(def_of(files[i], n)),
{
    lemma_winner_first(files, n, i);
}

} // verus!
