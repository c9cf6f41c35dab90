//! The delegate-adapter backend: an externally installed executable,
//! located by name on a search path, runs units by its own protocol.  Only
//! the resolution of the adapter executable lives here; spawning it is
//! plain process I/O outside the library.  As with unit loading, the
//! search is verified against a ghost transcript of the probes made.

use vstd::prelude::*;

use crate::error::Error;
use crate::resolver::loader::{FileStat, FsProbe, join_path, spec_join_path};
use crate::text::seq_views;

verus! {

/// The message for an adapter found in no search directory.
pub open spec fn spec_adapter_not_found_msg(name: Seq<char>) -> Seq<char> {
    "Could not find executable adapter "@ + name
        + " in any of the adapter search directories"@
}

/// How an adapter search runs, as a relation between the search
/// directories, the transcript `t` of probed paths with their answers, and
/// the result: directories are probed in order, the first executable entry
/// wins, and the not-found error comes only after every directory was
/// probed without a match.
pub open spec fn spec_adapter_search(
    dirs: Seq<Seq<char>>,
    name: Seq<char>,
    t: Seq<(Seq<char>, FileStat)>,
    r: Result<String, Error>,
) -> bool
    decreases dirs.len(),
{
    if dirs.len() == 0 {
        &&& t.len() == 0
        &&& r matches Err(e) && e.msg@ == spec_adapter_not_found_msg(name)
    } else {
        let full = spec_join_path(dirs[0], name);
        &&& t.len() >= 1
        &&& t[0].0 == full
        &&& match t[0].1 {
            FileStat::ExecutableFile => {
                &&& t.len() == 1
                &&& r matches Ok(p) && p@ == full
            },
            _ => spec_adapter_search(dirs.drop_first(), name, t.skip(1), r),
        }
    }
}

/// Searches the directories, in order, for an executable file named after
/// the adapter.  The ghost result is the transcript of every probe made;
/// [`spec_adapter_search`] pins the outcome — first directory wins, found
/// iff some probed directory held the executable.
pub fn load_executable<P: FsProbe>(
    adapter_name: &str,
    directories: &Vec<String>,
    probe: &mut P,
) -> (r: (Result<String, Error>, Ghost<Seq<(Seq<char>, FileStat)>>))
    ensures
        spec_adapter_search(seq_views(directories@), adapter_name@, r.1@, r.0),
        r.0 matches Ok(path) ==> exists|k: int|
            0 <= k < directories@.len() && path@ == spec_join_path(
                directories@[k]@,
                adapter_name@,
            ),
{
    let ghost dirs_v = seq_views(directories@);
    let ghost mut t: Seq<(Seq<char>, FileStat)> = Seq::empty();
    let n = directories.len();
    let mut i: usize = 0;
    proof {
        assert(dirs_v.skip(0) =~= dirs_v);
        assert forall|t2: Seq<(Seq<char>, FileStat)>, r2: Result<String, Error>|
            spec_adapter_search(dirs_v.skip(0), adapter_name@, t2, r2) implies #[trigger]
            spec_adapter_search(dirs_v, adapter_name@, t + t2, r2) by {
            assert(t + t2 =~= t2);
        }
    }
    while i < n
        invariant
            i <= n,
            n == directories@.len(),
            dirs_v == seq_views(directories@),
            forall|t2: Seq<(Seq<char>, FileStat)>, r2: Result<String, Error>|
                spec_adapter_search(dirs_v.skip(i as int), adapter_name@, t2, r2)
                    ==> #[trigger] spec_adapter_search(dirs_v, adapter_name@, t + t2, r2),
        decreases n - i,
    {
        let adapter_path = join_path(directories[i].as_str(), adapter_name);
        let st = probe.stat(&adapter_path);
        proof {
            assert(dirs_v.skip(i as int)[0] == directories@[i as int]@);
            assert(dirs_v.skip(i as int).drop_first() =~= dirs_v.skip(i + 1));
        }
        match st {
            FileStat::ExecutableFile => {
                proof {
                    let step = seq![(adapter_path@, FileStat::ExecutableFile)];
                    assert(spec_adapter_search(
                        dirs_v.skip(i as int),
                        adapter_name@,
                        step,
                        Ok(adapter_path),
                    ));
                    assert(spec_adapter_search(dirs_v, adapter_name@, t + step, Ok(adapter_path)));
                    t = t + step;
                }
                return (Ok(adapter_path), Ghost(t));
            },
            _ => {
                proof {
                    let step = seq![(adapter_path@, st)];
                    assert forall|t2: Seq<(Seq<char>, FileStat)>, r2: Result<String, Error>|
                        spec_adapter_search(dirs_v.skip(i + 1), adapter_name@, t2, r2) implies
                        #[trigger] spec_adapter_search(
                        dirs_v,
                        adapter_name@,
                        (t + step) + t2,
                        r2,
                    ) by {
                        assert((step + t2)[0] == step[0]);
                        assert((step + t2).skip(1) =~= t2);
                        assert(spec_adapter_search(
                            dirs_v.skip(i as int),
                            adapter_name@,
                            step + t2,
                            r2,
                        ));
                        assert(t + (step + t2) =~= (t + step) + t2);
                        assert(spec_adapter_search(dirs_v, adapter_name@, t + (step + t2), r2));
                    }
                    t = t + step;
                }
            },
        }
        i = i + 1;
    }
    let mut msg = String::from_str("Could not find executable adapter ");
    msg.append(adapter_name);
    msg.append(" in any of the adapter search directories");
    let e = Error::new(msg);
    proof {
        assert(dirs_v.skip(n as int) =~= Seq::<Seq<char>>::empty());
        assert(spec_adapter_search(
            dirs_v.skip(n as int),
            adapter_name@,
            Seq::<(Seq<char>, FileStat)>::empty(),
            Err(e),
        ));
        assert(t + Seq::<(Seq<char>, FileStat)>::empty() =~= t);
        assert(spec_adapter_search(dirs_v, adapter_name@, t, Err(e)));
    }
    (Err(e), Ghost(t))
}

/// A resolved delegate adapter: the path of the executable that will be
/// invoked as `adapter <operation> <unitPath>`.
#[derive(Debug)]
pub struct Adapter {
    pub path: String,
}

/// The adapter-resolution outcome as [`spec_adapter_search`] sees it.
pub open spec fn spec_adapter_result(r: Result<Adapter, Error>) -> Result<String, Error> {
    match r {
        Ok(a) => Ok(a.path),
        Err(e) => Err(e),
    }
}

impl Adapter {
    /// Resolves the named adapter on the search path; an adapter that is
    /// found in no directory is a startup error.  The ghost result is the
    /// probe transcript, which pins the outcome either way.
    pub fn try_new<P: FsProbe>(
        adapter_name: &str,
        directories: &Vec<String>,
        probe: &mut P,
    ) -> (r: (Result<Adapter, Error>, Ghost<Seq<(Seq<char>, FileStat)>>))
        ensures
            spec_adapter_search(
                seq_views(directories@),
                adapter_name@,
                r.1@,
                spec_adapter_result(r.0),
            ),
            r.0 matches Ok(a) ==> exists|k: int|
                0 <= k < directories@.len() && a.path@ == spec_join_path(
                    directories@[k]@,
                    adapter_name@,
                ),
    {
        let (found, transcript) = load_executable(adapter_name, directories, probe);
        match found {
            Ok(path) => (Ok(Adapter { path }), transcript),
            Err(e) => (Err(e), transcript),
        }
    }
}

} // verus!
