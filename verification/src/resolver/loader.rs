//! Locating a unit definition on disk: an ordered list of directories is
//! searched for an entry with the unit's name, which must be either an
//! executable file or a directory holding an executable file named `unit`.
//! The filesystem itself is reached through the [`FsProbe`] contract, so the
//! search is verified for every possible answer the filesystem may give:
//! the result is pinned, case by case, to a ghost transcript of the probes
//! made and their answers.

use vstd::prelude::*;

use crate::error::Error;
use crate::text::{seq_views, to_chars};
use crate::unit::{Definition, DefinitionType};

verus! {

/// What the filesystem holds at a path, as far as unit loading cares.
#[derive(Clone, Copy, Debug, PartialEq, Eq, Structural)]
pub enum FileStat {
    /// An executable regular file.
    ExecutableFile,
    /// A directory.
    Directory,
    /// Nothing (or nothing readable).
    Absent,
    /// Anything else: a file without execute permission, a device, ...
    Other,
}

/// The filesystem question the loader asks.  Implementations live outside
/// the library (a real `stat`, or a script in tests); the loader is
/// verified for every answer.
pub trait FsProbe {
    /// Classifies what the filesystem holds at `path`.
    fn stat(&mut self, path: &String) -> FileStat;
}

/// `dir` extended with the entry `name`, as paths are joined: a separator
/// is added unless `dir` is empty or already ends with one.
pub open spec fn spec_join_path(dir: Seq<char>, name: Seq<char>) -> Seq<char> {
    if dir.len() == 0 {
        name
    } else if dir.last() == '/' {
        dir + name
    } else {
        dir + "/"@ + name
    }
}

/// Joins a directory and an entry name into one path.
pub fn join_path(dir: &str, name: &str) -> (r: String)
    ensures
        r@ == spec_join_path(dir@, name@),
{
    let chars = to_chars(dir);
    let mut r = String::new();
    if chars.len() == 0 {
        r.append(name);
        return r;
    }
    r.append(dir);
    if chars[chars.len() - 1] != '/' {
        r.append("/");
    }
    r.append(name);
    r
}

/// The message for a directory unit without a runnable entry point.
pub open spec fn spec_malformed_unit_msg(path: Seq<char>) -> Seq<char> {
    "While resolving a unit located in "@ + path
        + ", a directory was found but it does not contain an executable ./unit file."@
}

/// The message for a unit found in no search directory.
pub open spec fn spec_unit_not_found_msg(name: Seq<char>) -> Seq<char> {
    "Could not find unit `"@ + name + "` in any of the unit search directories"@
}

/// How a unit search runs, as a relation between the search directories,
/// the transcript `t` of probed paths with their answers, and the result:
/// directories are probed in order; an executable entry wins immediately as
/// an `Executable` unit; a directory entry is probed for an executable
/// `unit` inside — present wins as a `Directory` unit, absent is the
/// explicit malformed-unit error, anything else lets the search move on;
/// the not-found error comes only after every directory was probed without
/// a match.
pub open spec fn spec_unit_search(
    dirs: Seq<Seq<char>>,
    name: Seq<char>,
    t: Seq<(Seq<char>, FileStat)>,
    r: Result<Definition, Error>,
) -> bool
    decreases dirs.len(),
{
    if dirs.len() == 0 {
        &&& t.len() == 0
        &&& r matches Err(e) && e.msg@ == spec_unit_not_found_msg(name)
    } else {
        let full = spec_join_path(dirs[0], name);
        &&& t.len() >= 1
        &&& t[0].0 == full
        &&& match t[0].1 {
            FileStat::ExecutableFile => {
                &&& t.len() == 1
                &&& r matches Ok(d) && d.name@ == name && d.path@ == full
                    && d.definition_type == DefinitionType::Executable
            },
            FileStat::Directory => {
                let entry = spec_join_path(full, "unit"@);
                &&& t.len() >= 2
                &&& t[1].0 == entry
                &&& match t[1].1 {
                    FileStat::ExecutableFile => {
                        &&& t.len() == 2
                        &&& r matches Ok(d) && d.name@ == name && d.path@ == full
                            && d.definition_type == DefinitionType::Directory
                    },
                    FileStat::Absent => {
                        &&& t.len() == 2
                        &&& r matches Err(e) && e.msg@ == spec_malformed_unit_msg(full)
                    },
                    _ => spec_unit_search(dirs.drop_first(), name, t.skip(2), r),
                }
            },
            _ => spec_unit_search(dirs.drop_first(), name, t.skip(1), r),
        }
    }
}

/// Searches the directories, in order, for a unit named `name`.  The ghost
/// result is the transcript of every probe made; [`spec_unit_search`] pins
/// the outcome — the returned kind, the first-matching-directory
/// precedence, and both error cases — to the transcript's answers.
pub fn load_unit<P: FsProbe>(
    name: &str,
    directories: &Vec<String>,
    probe: &mut P,
) -> (r: (Result<Definition, Error>, Ghost<Seq<(Seq<char>, FileStat)>>))
    ensures
        spec_unit_search(seq_views(directories@), name@, r.1@, r.0),
        r.0 matches Ok(d) ==> {
            &&& d.name@ == name@
            &&& exists|k: int|
                0 <= k < directories@.len() && d.path@ == spec_join_path(
                    directories@[k]@,
                    name@,
                )
        },
{
    let ghost dirs_v = seq_views(directories@);
    let ghost mut t: Seq<(Seq<char>, FileStat)> = Seq::empty();
    let n = directories.len();
    let mut i: usize = 0;
    proof {
        assert(dirs_v.skip(0) =~= dirs_v);
        assert forall|t2: Seq<(Seq<char>, FileStat)>, r2: Result<Definition, Error>|
            spec_unit_search(dirs_v.skip(0), name@, t2, r2) implies #[trigger] spec_unit_search(
            dirs_v,
            name@,
            t + t2,
            r2,
        ) by {
            assert(t + t2 =~= t2);
        }
    }
    while i < n
        invariant
            i <= n,
            n == directories@.len(),
            dirs_v == seq_views(directories@),
            forall|t2: Seq<(Seq<char>, FileStat)>, r2: Result<Definition, Error>|
                spec_unit_search(dirs_v.skip(i as int), name@, t2, r2)
                    ==> #[trigger] spec_unit_search(dirs_v, name@, t + t2, r2),
        decreases n - i,
    {
        let full_path = join_path(directories[i].as_str(), name);
        let st = probe.stat(&full_path);
        proof {
            assert(dirs_v.skip(i as int)[0] == directories@[i as int]@);
            assert(dirs_v.skip(i as int).drop_first() =~= dirs_v.skip(i + 1));
        }
        match st {
            FileStat::ExecutableFile => {
                let d = Definition::new(name, full_path.as_str(), DefinitionType::Executable);
                proof {
                    let step = seq![(full_path@, FileStat::ExecutableFile)];
                    assert(spec_unit_search(dirs_v.skip(i as int), name@, step, Ok(d)));
                    assert(spec_unit_search(dirs_v, name@, t + step, Ok(d)));
                    t = t + step;
                }
                return (Ok(d), Ghost(t));
            },
            FileStat::Directory => {
                let entry_path = join_path(full_path.as_str(), "unit");
                let st2 = probe.stat(&entry_path);
                match st2 {
                    FileStat::ExecutableFile => {
                        let d = Definition::new(
                            name,
                            full_path.as_str(),
                            DefinitionType::Directory,
                        );
                        proof {
                            let step = seq![
                                (full_path@, FileStat::Directory),
                                (entry_path@, FileStat::ExecutableFile),
                            ];
                            assert(spec_unit_search(dirs_v.skip(i as int), name@, step, Ok(d)));
                            assert(spec_unit_search(dirs_v, name@, t + step, Ok(d)));
                            t = t + step;
                        }
                        return (Ok(d), Ghost(t));
                    },
                    FileStat::Absent => {
                        let mut msg = String::from_str("While resolving a unit located in ");
                        msg.append(full_path.as_str());
                        msg.append(
                            ", a directory was found but it does not contain an executable ./unit file.",
                        );
                        let e = Error::new(msg);
                        proof {
                            let step = seq![
                                (full_path@, FileStat::Directory),
                                (entry_path@, FileStat::Absent),
                            ];
                            assert(spec_unit_search(
                                dirs_v.skip(i as int),
                                name@,
                                step,
                                Err(e),
                            ));
                            assert(spec_unit_search(dirs_v, name@, t + step, Err(e)));
                            t = t + step;
                        }
                        return (Err(e), Ghost(t));
                    },
                    _ => {
                        proof {
                            let step = seq![(full_path@, FileStat::Directory), (entry_path@, st2)];
                            assert forall|
                                t2: Seq<(Seq<char>, FileStat)>,
                                r2: Result<Definition, Error>,
                            |
                                spec_unit_search(dirs_v.skip(i + 1), name@, t2, r2) implies
                                #[trigger] spec_unit_search(
                                dirs_v,
                                name@,
                                (t + step) + t2,
                                r2,
                            ) by {
                                assert((step + t2)[0] == step[0]);
                                assert((step + t2)[1] == step[1]);
                                assert((step + t2).skip(2) =~= t2);
                                assert(spec_unit_search(
                                    dirs_v.skip(i as int),
                                    name@,
                                    step + t2,
                                    r2,
                                ));
                                assert(t + (step + t2) =~= (t + step) + t2);
                                assert(spec_unit_search(dirs_v, name@, t + (step + t2), r2));
                            }
                            t = t + step;
                        }
                    },
                }
            },
            _ => {
                proof {
                    let step = seq![(full_path@, st)];
                    assert forall|t2: Seq<(Seq<char>, FileStat)>, r2: Result<Definition, Error>|
                        spec_unit_search(dirs_v.skip(i + 1), name@, t2, r2) implies #[trigger]
                        spec_unit_search(dirs_v, name@, (t + step) + t2, r2) by {
                        assert((step + t2)[0] == step[0]);
                        assert((step + t2).skip(1) =~= t2);
                        assert(spec_unit_search(dirs_v.skip(i as int), name@, step + t2, r2));
                        assert(t + (step + t2) =~= (t + step) + t2);
                        assert(spec_unit_search(dirs_v, name@, t + (step + t2), r2));
                    }
                    t = t + step;
                }
            },
        }
        i = i + 1;
    }
    let mut msg = String::from_str("Could not find unit `");
    msg.append(name);
    msg.append("` in any of the unit search directories");
    let e = Error::new(msg);
    proof {
        assert(dirs_v.skip(n as int) =~= Seq::<Seq<char>>::empty());
        assert(spec_unit_search(
            dirs_v.skip(n as int),
            name@,
            Seq::<(Seq<char>, FileStat)>::empty(),
            Err(e),
        ));
        assert(t + Seq::<(Seq<char>, FileStat)>::empty() =~= t);
        assert(spec_unit_search(dirs_v, name@, t, Err(e)));
    }
    (Err(e), Ghost(t))
}

} // verus!
