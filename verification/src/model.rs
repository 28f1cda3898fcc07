//! The mathematical model of the overlay: what a load, an unload and a
//! full load cycle do to the variable records and to the environment,
//! stated per variable name.

use vstd::prelude::*;
use crate::parse::EnvLine;

verus! {

/// What the external parser reported for one file of a load request.
pub enum FileLines {
    /// The file does not exist.
    Absent,
    /// The file exists but could not be read.
    Failed,
    /// The file was read; these are its parsed lines.
    Lines(Vec<EnvLine>),
}

/// Restoring a relinquished variable: if its current value is still the
/// value the manager last wrote, it goes back to the baseline state (its
/// baseline value, or absence); a value changed by something else since is
/// left untouched.
pub open spec fn restore_result(
    base: Option<Seq<char>>,
    cur: Option<Seq<char>>,
    written: Seq<char>,
) -> Option<Seq<char>> {
    if cur == Some(written) {
        base
    } else {
        cur
    }
}

/// The first definition of `name` in a sequence of parsed lines: the value
/// of the earliest `Pair` line whose key is `name`.
pub open spec fn first_def(lines: Seq<EnvLine>, name: Seq<char>) -> Option<Seq<char>>
    decreases lines.len(),
{
    if lines.len() == 0 {
        None
    } else {
        let r = first_def(lines.drop_last(), name);
        if r is Some {
            r
        } else {
            match lines.last() {
                EnvLine::Pair(k, v) => if k@ == name {
                    Some(v@)
                } else {
                    None
                },
                EnvLine::Malformed => None,
            }
        }
    }
}

/// Whether lines for a file claim `name`: the file defines it and no
/// already-managed variable (the `blocked` set) stands in the way.
pub open spec fn claimed(blocked: Set<Seq<char>>, lines: Seq<EnvLine>, name: Seq<char>) -> bool {
    first_def(lines, name) is Some && !blocked.contains(name)
}

/// How many variables a file's lines newly set: one per name first defined
/// by these lines and not blocked.
pub open spec fn count_new(blocked: Set<Seq<char>>, lines: Seq<EnvLine>) -> nat
    decreases lines.len(),
{
    if lines.len() == 0 {
        0
    } else {
        count_new(blocked, lines.drop_last()) + match lines.last() {
            EnvLine::Pair(k, v) => if !blocked.contains(k@)
                && first_def(lines.drop_last(), k@) is None {
                1nat
            } else {
                0nat
            },
            EnvLine::Malformed => 0nat,
        }
    }
}

/// The record of `name` after `path` is unloaded: gone if `path` owned it,
/// untouched otherwise.
pub open spec fn unload_at_rec(
    r0: Option<(Seq<char>, Seq<char>)>,
    path: Seq<char>,
) -> Option<(Seq<char>, Seq<char>)> {
    match r0 {
        Some(p) => if p.0 == path {
            None
        } else {
            r0
        },
        None => None,
    }
}

/// The environment state of `name` after `path` is unloaded: restored if
/// `path` owned it, untouched otherwise.
pub open spec fn unload_at_env(
    r0: Option<(Seq<char>, Seq<char>)>,
    path: Seq<char>,
    base: Option<Seq<char>>,
    e0: Option<Seq<char>>,
) -> Option<Seq<char>> {
    match r0 {
        Some(p) => if p.0 == path {
            restore_result(base, e0, p.1)
        } else {
            e0
        },
        None => e0,
    }
}

/// The record of `name` after `path` is loaded with first definition `fd`:
/// claimed by `path` if the file defines it and no other file owns it;
/// released if `path` owned it and no longer defines it; else untouched.
pub open spec fn load_at_rec(
    r0: Option<(Seq<char>, Seq<char>)>,
    path: Seq<char>,
    fd: Option<Seq<char>>,
) -> Option<(Seq<char>, Seq<char>)> {
    if fd is Some && (r0 is None || r0.unwrap().0 == path) {
        Some((path, fd.unwrap()))
    } else {
        unload_at_rec(r0, path)
    }
}

/// The environment state of `name` after `path` is loaded, under the same
/// cases as [`load_at_rec`].
pub open spec fn load_at_env(
    r0: Option<(Seq<char>, Seq<char>)>,
    path: Seq<char>,
    fd: Option<Seq<char>>,
    base: Option<Seq<char>>,
    e0: Option<Seq<char>>,
) -> Option<Seq<char>> {
    if fd is Some && (r0 is None || r0.unwrap().0 == path) {
        fd
    } else {
        unload_at_env(r0, path, base, e0)
    }
}

/// The winning definition of `name` over an ordered load cycle: the first
/// listed readable file that defines `name` wins, with its path and its
/// first definition of the name.
pub open spec fn winner(
    files: Seq<(String, FileLines)>,
    name: Seq<char>,
) -> Option<(Seq<char>, Seq<char>)>
    decreases files.len(),
{
    if files.len() == 0 {
        None
    } else {
        let r = winner(files.drop_last(), name);
        if r is Some {
            r
        } else {
            match files.last().1 {
                FileLines::Lines(ls) => match first_def(ls@, name) {
                    Some(v) => Some((files.last().0@, v)),
                    None => None,
                },
                _ => None,
            }
        }
    }
}

/// The names some file of the cycle wins.
pub open spec fn winners_set(files: Seq<(String, FileLines)>) -> Set<Seq<char>> {
    Set::new(|n: Seq<char>| winner(files, n) is Some)
}

/// The total number of variables a load cycle sets: per file, the names it
/// first defines that no earlier file of the cycle won.
pub open spec fn cycle_count(files: Seq<(String, FileLines)>) -> nat
    decreases files.len(),
{
    if files.len() == 0 {
        0
    } else {
        cycle_count(files.drop_last()) + match files.last().1 {
            FileLines::Lines(ls) => count_new(winners_set(files.drop_last()), ls@),
            _ => 0nat,
        }
    }
}

/// The environment state of `name` after a load cycle: the winner's value
/// if some file won the name; else, if the name was managed before the
/// cycle, its restored state; else untouched.
pub open spec fn cycle_env_at(
    win: Option<(Seq<char>, Seq<char>)>,
    r0: Option<(Seq<char>, Seq<char>)>,
    base: Option<Seq<char>>,
    e0: Option<Seq<char>>,
) -> Option<Seq<char>> {
    match win {
        Some(pv) => Some(pv.1),
        None => match r0 {
            Some(ow) => restore_result(base, e0, ow.1),
            None => e0,
        },
    }
}

} // verus!
