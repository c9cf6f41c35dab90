//! Dependency resolution: a three-color depth-first search over a graph
//! whose edges are discovered lazily, by running each instance's `deps`
//! operation and parsing its output.  The resulting order is
//! dependency-first: every reported dependency of an instance stands
//! strictly before it.

pub mod loader;

use vstd::prelude::*;

use crate::error::Error;
use crate::execution::Executor;
use crate::instance_cache::InstanceCache;
use crate::operation::Operation;
use crate::resolver::loader::FsProbe;
use crate::text::{
    i32_to_string,
    seq_views,
    spec_lines,
    split_char,
    split_lines,
};
use crate::unit::{
    ArgSet,
    Instance,
    InstanceId,
    RunState,
    spec_args,
    spec_instance_signature,
    spec_parse_args,
    spec_signature,
};

verus! {

/// A dependency as one `deps` output line declares it: a unit name and its
/// argument pairs.
pub type DepSpec = (Seq<char>, Seq<(Seq<char>, Seq<char>)>);

/// One dependency line: a bare unit name, or `name:args` with exactly one
/// colon.  Any other colon count, or a malformed argument string, fails.
pub open spec fn spec_parse_dep(l: Seq<char>) -> Option<DepSpec> {
    let parts = crate::text::spec_split(l, ':');
    if parts.len() == 1 {
        Some((l, Seq::empty()))
    } else if parts.len() == 2 {
        match spec_parse_args(parts[1]) {
            Ok(pairs) => Some((parts[0], pairs)),
            Err(_) => None,
        }
    } else {
        None
    }
}

/// The dependencies declared by a sequence of output lines: blank lines are
/// ignored, every other line must parse as a dependency.
pub open spec fn spec_parse_dep_lines(ls: Seq<Seq<char>>) -> Option<Seq<DepSpec>>
    decreases ls.len(),
{
    if ls.len() == 0 {
        Some(Seq::empty())
    } else if ls[0].len() == 0 {
        spec_parse_dep_lines(ls.drop_first())
    } else {
        match spec_parse_dep(ls[0]) {
            None => None,
            Some(d) => match spec_parse_dep_lines(ls.drop_first()) {
                None => None,
                Some(rest) => Some(seq![d] + rest),
            },
        }
    }
}

/// The dependencies declared by one `deps` output text.
pub open spec fn spec_parse_deps(out: Seq<char>) -> Option<Seq<DepSpec>> {
    spec_parse_dep_lines(spec_lines(out))
}

/// Parses one dependency line into an instance request.  The unit name is
/// only for the error message.
pub fn parse_dependency(unit_name: &str, line: &str) -> (r: Result<InstanceId, Error>)
    ensures
        match r {
            Ok(id) => spec_parse_dep(line@) == Some((id.name@, spec_args(id.args.vec@))),
            Err(_) => spec_parse_dep(line@) is None,
        },
{
    let parts = split_char(line, ':');
    if parts.len() == 1 {
        let args = ArgSet::new();
        proof {
            assert(spec_args(args.vec@) =~= Seq::<(Seq<char>, Seq<char>)>::empty());
        }
        Ok(InstanceId::new(line.to_owned(), args))
    } else if parts.len() == 2 {
        proof {
            assert(seq_views(parts@)[0] == parts@[0]@);
            assert(seq_views(parts@)[1] == parts@[1]@);
        }
        InstanceId::build(parts[0].as_str(), parts[1].as_str())
    } else {
        let mut msg = String::from_str("Unit ");
        msg.append(unit_name);
        msg.append(" deps parse error on string: ");
        msg.append(line);
        Err(Error::new(msg))
    }
}

/// The view of a sequence of indices.
pub open spec fn ints_of(v: Seq<usize>) -> Seq<int> {
    v.map_values(|u: usize| u as int)
}

/// The indices `kids` stand, one for one and in order, for the declared
/// dependencies `ids`: each index points at the cached instance whose
/// signature is the declared dependency's.
pub open spec fn spec_ids_match(insts: Seq<Instance>, kids: Seq<int>, ids: Seq<DepSpec>) -> bool {
    &&& kids.len() == ids.len()
    &&& forall|k: int|
        0 <= k < kids.len() ==> {
            &&& 0 <= #[trigger] kids[k] < insts.len()
            &&& spec_instance_signature(insts[kids[k]]) == spec_signature(ids[k].0, ids[k].1)
        }
}

/// Runs the instance's `deps` operation, parses its output and returns the
/// cache indices of the declared dependencies, creating instances on first
/// reference.  The ghost result records what the executor produced: `None`
/// when the executor itself failed, otherwise the execution's stdout, exit
/// code and stderr.  A non-zero exit is a hard failure — never an empty
/// dependency list — whose message names the unit, the code and the
/// stderr; a malformed output is a failure as well.
fn get_deps<E: Executor, P: FsProbe>(
    executor: &mut E,
    probe: &mut P,
    cache: &mut InstanceCache,
    directories: &Vec<String>,
    idx: usize,
) -> (r: (Result<Vec<usize>, Error>, Ghost<Option<(Seq<char>, int, Seq<char>)>>))
    requires
        old(cache).wf(),
        idx < old(cache).instances@.len(),
    ensures
        final(cache).wf(),
        old(cache).instances@.len() <= final(cache).instances@.len(),
        forall|j: int|
            0 <= j < old(cache).instances@.len() ==> final(cache).instances@[j] == old(
                cache,
            ).instances@[j],
        forall|j: int|
            old(cache).instances@.len() <= j < final(cache).instances@.len()
                ==> (#[trigger] final(cache).instances@[j]).run_state is Init,
        match r.1@ {
            Some(run) => {
                &&& run.1 != 0 ==> (r.0 matches Err(e) && e.msg@ == "Unit "@ + old(
                    cache,
                ).instances@[idx as int].id.name@ + " deps exited with "@
                    + crate::text::spec_i32_decimal(run.1) + ": "@ + run.2)
                &&& run.1 == 0 && spec_parse_deps(run.0) is None ==> r.0 is Err
            },
            None => r.0 is Err,
        },
        match r.0 {
            Ok(kids) => {
                &&& r.1@ matches Some(run) && run.1 == 0 && spec_parse_deps(run.0) is Some
                &&& spec_ids_match(
                    final(cache).instances@,
                    ints_of(kids@),
                    spec_parse_deps(r.1@->Some_0.0)->Some_0,
                )
            },
            Err(_) => true,
        },
{
    let def_idx = cache.instances[idx].definition;
    let execution = match executor.execute(
        &cache.instances[idx],
        &cache.definition_cache.defs[def_idx],
        Operation::Deps,
    ) {
        Ok(x) => x,
        Err(e) => {
            return (Err(e), Ghost(None));
        },
    };
    let ghost run = (execution.stdout@, execution.exit_code as int, execution.stderr@);
    if execution.exit_code != 0 {
        let mut msg = String::from_str("Unit ");
        msg.append(cache.instances[idx].id.name.as_str());
        msg.append(" deps exited with ");
        let code = i32_to_string(execution.exit_code);
        msg.append(code.as_str());
        msg.append(": ");
        msg.append(execution.stderr.as_str());
        return (Err(Error::new(msg)), Ghost(Some(run)));
    }
    let lines = split_lines(execution.stdout.as_str());
    let ghost out = execution.stdout@;
    let ghost ls = spec_lines(out);
    let n = lines.len();
    let mut kids: Vec<usize> = Vec::new();
    let ghost mut acc: Seq<DepSpec> = Seq::empty();
    let mut i: usize = 0;
    proof {
        assert(ls.skip(0) =~= ls);
    }
    while i < n
        invariant
            i <= n,
            n == lines@.len(),
            seq_views(lines@) == ls,
            run == (out, 0int, execution.stderr@),
            cache.wf(),
            idx < old(cache).instances@.len(),
            old(cache).instances@.len() <= cache.instances@.len(),
            forall|j: int|
                0 <= j < old(cache).instances@.len() ==> cache.instances@[j] == old(
                    cache,
                ).instances@[j],
            forall|j: int|
                old(cache).instances@.len() <= j < cache.instances@.len()
                    ==> (#[trigger] cache.instances@[j]).run_state is Init,
            spec_ids_match(cache.instances@, ints_of(kids@), acc),
            spec_parse_dep_lines(ls) == match spec_parse_dep_lines(ls.skip(i as int)) {
                None => None,
                Some(rest) => Some(acc + rest),
            },
        decreases n - i,
    {
        proof {
            assert(ls.skip(i as int)[0] == lines@[i as int]@);
            assert(ls.skip(i as int).drop_first() =~= ls.skip(i + 1));
        }
        let line = &lines[i];
        if line.as_str().unicode_len() != 0 {
            let id = match parse_dependency(cache.instances[idx].id.name.as_str(), line.as_str()) {
                Ok(id) => id,
                Err(e) => {
                    return (Err(e), Ghost(Some(run)));
                },
            };
            let ghost dep: DepSpec = (id.name@, spec_args(id.args.vec@));
            let ghost old_insts = cache.instances@;
            let ghost old_kids = kids@;
            let child = match cache.get(id, directories, probe) {
                Ok(c) => c,
                Err(e) => {
                    return (Err(e), Ghost(Some(run)));
                },
            };
            kids.push(child);
            proof {
                acc = acc.push(dep);
                assert(ints_of(kids@) =~= ints_of(old_kids).push(child as int));
                assert(spec_ids_match(cache.instances@, ints_of(kids@), acc));
                if spec_parse_dep_lines(ls.skip(i + 1)) is Some {
                    let rest = spec_parse_dep_lines(ls.skip(i + 1))->Some_0;
                    assert(acc.drop_last() + (seq![dep] + rest) =~= acc + rest);
                }
            }
        }
        i = i + 1;
    }
    proof {
        assert(ls.skip(n as int) =~= Seq::<Seq<char>>::empty());
        assert(acc + Seq::<DepSpec>::empty() =~= acc);
    }
    (Ok(kids), Ghost(Some(run)))
}

/// Two instance records carry the same identity: only the traversal and
/// application markers may differ.
pub open spec fn same_identity(a: Instance, b: Instance) -> bool {
    a.id == b.id && a.definition == b.definition
}

/// Matching is stable under growing the arena and changing markers:
/// identities decide it.
pub proof fn lemma_ids_match_stable(
    a: Seq<Instance>,
    b: Seq<Instance>,
    kids: Seq<int>,
    ids: Seq<DepSpec>,
)
    requires
        spec_ids_match(a, kids, ids),
        a.len() <= b.len(),
        forall|j: int| 0 <= j < a.len() ==> same_identity(#[trigger] a[j], b[j]),
    ensures
        spec_ids_match(b, kids, ids),
{
    assert forall|k: int| 0 <= k < kids.len() implies {
        &&& 0 <= #[trigger] kids[k] < b.len()
        &&& spec_instance_signature(b[kids[k]]) == spec_signature(ids[k].0, ids[k].1)
    } by {
        assert(same_identity(a[kids[k]], b[kids[k]]));
    }
}

/// Every recorded dependency list was parsed, line for line, from a `deps`
/// output text of its instance, and its indices point at the cached
/// instances whose signatures the parsed lines declare.
pub open spec fn recorded_ok(
    deps_of: Map<int, Seq<int>>,
    deps_text: Map<int, Seq<char>>,
    insts: Seq<Instance>,
) -> bool {
    forall|i: int| #[trigger]
        deps_of.contains_key(i) ==> {
            &&& 0 <= i < insts.len()
            &&& deps_text.contains_key(i)
            &&& spec_parse_deps(deps_text[i]) is Some
            &&& spec_ids_match(insts, deps_of[i], spec_parse_deps(deps_text[i])->Some_0)
        }
}

/// The record stays good when the arena grows or markers change.
pub proof fn lemma_recorded_stable(
    deps_of: Map<int, Seq<int>>,
    deps_text: Map<int, Seq<char>>,
    a: Seq<Instance>,
    b: Seq<Instance>,
)
    requires
        recorded_ok(deps_of, deps_text, a),
        a.len() <= b.len(),
        forall|j: int| 0 <= j < a.len() ==> same_identity(#[trigger] a[j], b[j]),
    ensures
        recorded_ok(deps_of, deps_text, b),
{
    assert forall|i: int| #[trigger] deps_of.contains_key(i) implies {
        &&& 0 <= i < b.len()
        &&& deps_text.contains_key(i)
        &&& spec_parse_deps(deps_text[i]) is Some
        &&& spec_ids_match(b, deps_of[i], spec_parse_deps(deps_text[i])->Some_0)
    } by {
        lemma_ids_match_stable(a, b, deps_of[i], spec_parse_deps(deps_text[i])->Some_0);
    }
}

/// Whether `j` is reachable from `root` in at most `fuel` recorded edges:
/// either `j` is the root, or some recorded dependency list reaches `j`
/// from a node itself reachable with less fuel.
pub open spec fn spec_reaches(deps_of: Map<int, Seq<int>>, root: int, j: int, fuel: nat) -> bool
    decreases fuel,
{
    ||| j == root
    ||| (fuel > 0 && exists|p: int, d: int|
        deps_of.contains_key(p) && 0 <= d < deps_of[p].len() && #[trigger] deps_of[p][d] == j
            && spec_reaches(deps_of, root, p, (fuel - 1) as nat))
}

/// Whether `j` is reachable from `root` through the recorded edges.
pub open spec fn spec_reachable(deps_of: Map<int, Seq<int>>, root: int, j: int) -> bool {
    exists|fuel: nat| spec_reaches(deps_of, root, j, fuel)
}

/// Reachability survives recording further edge lists: every path through
/// the old record is a path through the extended one.
pub proof fn lemma_reaches_mono(
    a: Map<int, Seq<int>>,
    b: Map<int, Seq<int>>,
    root: int,
    j: int,
    fuel: nat,
)
    requires
        spec_reaches(a, root, j, fuel),
        forall|k: int| #[trigger] a.contains_key(k) ==> b.contains_key(k) && b[k] == a[k],
    ensures
        spec_reaches(b, root, j, fuel),
    decreases fuel,
{
    if j != root {
        let (p, d) = choose|p: int, d: int|
            a.contains_key(p) && 0 <= d < a[p].len() && #[trigger] a[p][d] == j && spec_reaches(
                a,
                root,
                p,
                (fuel - 1) as nat,
            );
        lemma_reaches_mono(a, b, root, p, (fuel - 1) as nat);
        assert(b.contains_key(p) && 0 <= d < b[p].len() && b[p][d] == j);
    }
}

/// One suspended node of the iterative depth-first search: the node, the
/// dependencies it reported, and how many of them are fully processed.
struct Frame {
    node: usize,
    children: Vec<usize>,
    next: usize,
}

/// Resolves a unit's transitive dependency graph into a dependency-first
/// order of cached instance indices.
pub struct Resolver {
    pub instance_cache: InstanceCache,
    pub ordered_instances: Vec<usize>,
    pub directories: Vec<String>,
    /// The dependency edges discovered so far: instance index to the
    /// indices its `deps` run declared, in declaration order.
    pub deps_of: Ghost<Map<int, Seq<int>>>,
    /// The `deps` output text each edge list was parsed from.
    pub deps_text: Ghost<Map<int, Seq<char>>>,
    /// Every `deps` dispatch this resolver made, in dispatch order.
    pub deps_calls: Ghost<Seq<int>>,
}

impl Resolver {
    /// Order entries are valid, pairwise distinct arena indices.
    pub open spec fn order_wf(self) -> bool {
        &&& forall|k: int|
            0 <= k < self.ordered_instances@.len() ==> (#[trigger] self.ordered_instances@[k])
                < self.instance_cache.instances@.len()
        &&& forall|k1: int, k2: int|
            0 <= k1 < k2 < self.ordered_instances@.len() ==> self.ordered_instances@[k1]
                != self.ordered_instances@[k2]
    }

    /// Whether instance `j` stands in the output order.
    pub open spec fn spec_in_order(self, j: int) -> bool {
        exists|k: int|
            0 <= k < self.ordered_instances@.len() && self.ordered_instances@[k] == j
    }

    /// The output order lists exactly the instances marked `Resolved`.
    pub open spec fn order_is_resolved(self) -> bool {
        &&& forall|k: int|
            0 <= k < self.ordered_instances@.len()
                ==> self.instance_cache.instances@[#[trigger] self.ordered_instances@[k] as int].run_state
                is Resolved
        &&& forall|j: int|
            0 <= j < self.instance_cache.instances@.len() && (#[trigger] self.instance_cache.instances@[j]).run_state
                is Resolved ==> self.spec_in_order(j)
    }

    /// See [`recorded_ok`].
    pub open spec fn deps_recorded(self) -> bool {
        recorded_ok(self.deps_of@, self.deps_text@, self.instance_cache.instances@)
    }

    /// The `d`-th recorded dependency of the `k`-th ordered instance stands
    /// strictly earlier in the order.
    pub open spec fn dep_in_order(self, k: int, d: int) -> bool {
        exists|k2: int|
            0 <= k2 < k && self.ordered_instances@[k2] == self.deps_of@[
                self.ordered_instances@[k] as int
            ][d]
    }

    /// Dependency-first: every ordered instance has a recorded dependency
    /// list, and each dependency stands strictly earlier in the order.
    pub open spec fn dependency_first(self) -> bool {
        &&& forall|k: int|
            0 <= k < self.ordered_instances@.len() ==> self.deps_of@.contains_key(
                (#[trigger] self.ordered_instances@[k]) as int,
            )
        &&& forall|k: int, d: int|
            0 <= k < self.ordered_instances@.len() && 0 <= d < self.deps_of@[
                self.ordered_instances@[k] as int
            ].len() ==> #[trigger] self.dep_in_order(k, d)
    }

    pub open spec fn wf(self) -> bool {
        &&& self.instance_cache.wf()
        &&& self.order_wf()
        &&& self.order_is_resolved()
        &&& self.deps_recorded()
        &&& self.dependency_first()
    }

    /// `deps` is dispatched exactly once per distinct instance: the
    /// dispatch ledger is duplicate-free, lists exactly the instances that
    /// have left `Init`, and edges are recorded only for dispatched
    /// instances.
    pub open spec fn deps_once(self) -> bool {
        let insts = self.instance_cache.instances@;
        &&& forall|k1: int, k2: int|
            0 <= k1 < k2 < self.deps_calls@.len() ==> self.deps_calls@[k1]
                != self.deps_calls@[k2]
        &&& forall|k: int|
            0 <= k < self.deps_calls@.len() ==> 0 <= #[trigger] self.deps_calls@[k]
                < insts.len() && !(insts[self.deps_calls@[k]].run_state is Init)
        &&& forall|j: int|
            0 <= j < insts.len() && !((#[trigger] insts[j]).run_state is Init) ==> exists|
                k: int,
            |
                0 <= k < self.deps_calls@.len() && self.deps_calls@[k] == j
        &&& forall|j: int|
            #[trigger] self.deps_of@.contains_key(j) ==> 0 <= j < insts.len() && !(insts[
                j
            ].run_state is Init)
    }

    /// No resolution pass has run: nothing ordered, every cached instance
    /// still `Init`, no edges recorded.
    pub open spec fn fresh(self) -> bool {
        &&& self.ordered_instances@.len() == 0
        &&& forall|j: int|
            0 <= j < self.instance_cache.instances@.len()
                ==> (#[trigger] self.instance_cache.instances@[j]).run_state is Init
        &&& self.deps_of@ == Map::<int, Seq<int>>::empty()
        &&& self.deps_calls@ == Seq::<int>::empty()
    }

    pub fn new(directories: Vec<String>) -> (r: Resolver)
        ensures
            r.wf(),
            r.fresh(),
            r.instance_cache.instances@.len() == 0,
            r.directories == directories,
    {
        Resolver {
            instance_cache: InstanceCache::new(),
            ordered_instances: Vec::new(),
            directories,
            deps_of: Ghost(Map::empty()),
            deps_text: Ghost(Map::empty()),
            deps_calls: Ghost(Seq::empty()),
        }
    }

    /// Resolves the named unit with the given argument string into a
    /// dependency-first order (held in `ordered_instances`): every reported
    /// dependency of an ordered instance stands strictly before it, and the
    /// requested root stands last.  Fails on malformed arguments, on a unit
    /// that cannot be loaded, on a failed or malformed `deps` run, and on a
    /// dependency cycle.
    pub fn resolve<E: Executor, P: FsProbe>(
        &mut self,
        executor: &mut E,
        probe: &mut P,
        unit_name: &str,
        args_str: &str,
    ) -> (r: Result<(), Error>)
        requires
            old(self).wf(),
            old(self).fresh(),
        ensures
            final(self).wf(),
            final(self).deps_once(),
            r is Ok ==> {
                &&& final(self).ordered_instances@.len() >= 1
                &&& spec_parse_args(args_str@) is Ok
                &&& spec_instance_signature(
                    final(self).instance_cache.instances@[final(self).ordered_instances@.last() as int],
                ) == spec_signature(unit_name@, spec_parse_args(args_str@)->Ok_0)
                &&& forall|k: int|
                    0 <= k < final(self).ordered_instances@.len() ==> spec_reachable(
                        final(self).deps_of@,
                        final(self).ordered_instances@.last() as int,
                        (#[trigger] final(self).ordered_instances@[k]) as int,
                    )
            },
    {
        let instance_id = match InstanceId::build(unit_name, args_str) {
            Ok(id) => id,
            Err(e) => {
                proof {
                    assert(self.deps_once());
                }
                return Err(e);
            },
        };
        let ghost sig = spec_signature(instance_id.name@, spec_args(instance_id.args.vec@));
        let root = match self.instance_cache.get(instance_id, &self.directories, probe) {
            Ok(idx) => idx,
            Err(e) => {
                proof {
                    lemma_recorded_stable(
                        self.deps_of@,
                        self.deps_text@,
                        old(self).instance_cache.instances@,
                        self.instance_cache.instances@,
                    );
                    assert forall|j: int|
                        0 <= j < self.instance_cache.instances@.len() implies (
                        #[trigger] self.instance_cache.instances@[j]).run_state is Init by {}
                    assert(self.deps_once());
                }
                return Err(e);
            },
        };
        proof {
            lemma_recorded_stable(
                self.deps_of@,
                self.deps_text@,
                old(self).instance_cache.instances@,
                self.instance_cache.instances@,
            );
            assert forall|j: int|
                0 <= j < self.instance_cache.instances@.len() implies (
                #[trigger] self.instance_cache.instances@[j]).run_state is Init by {}
            assert(self.deps_once());
        }
        self.ordered_instances = Vec::new();
        let ghost before_visit = *self;
        let r = self.visit(executor, probe, root);
        if r.is_ok() {
            proof {
                assert(spec_instance_signature(
                    self.instance_cache.instances@[self.ordered_instances@.last() as int],
                ) == sig);
                assert(before_visit.instance_cache.instances@[root as int].run_state is Init);
                assert forall|k: int|
                    0 <= k < self.ordered_instances@.len() implies spec_reachable(
                    self.deps_of@,
                    self.ordered_instances@.last() as int,
                    (#[trigger] self.ordered_instances@[k]) as int,
                ) by {
                    let j = self.ordered_instances@[k] as int;
                    assert(self.instance_cache.instances@[j].run_state is Resolved);
                    assert(spec_reachable(self.deps_of@, root as int, j));
                    assert(self.ordered_instances@.last() == root);
                }
            }
        }
        r
    }

    /// Drives the three-color search from `root`: an `Init` node is marked
    /// `Resolving`, its `deps` run and its children visited, then it is
    /// marked `Resolved` and appended to the order; meeting a `Resolving`
    /// node again is a cycle and aborts.
    #[verifier::rlimit(100)]
    #[verifier::spinoff_prover]
    fn visit<E: Executor, P: FsProbe>(
        &mut self,
        executor: &mut E,
        probe: &mut P,
        root: usize,
    ) -> (r: Result<(), Error>)
        requires
            old(self).wf(),
            old(self).deps_once(),
            root < old(self).instance_cache.instances@.len(),
            old(self).ordered_instances@.len() == 0,
            forall|j: int|
                0 <= j < old(self).instance_cache.instances@.len()
                    ==> !((#[trigger] old(self).instance_cache.instances@[j]).run_state
                    is Resolving),
        ensures
            final(self).wf(),
            final(self).deps_once(),
            old(self).instance_cache.instances@.len()
                <= final(self).instance_cache.instances@.len(),
            forall|j: int|
                0 <= j < old(self).instance_cache.instances@.len() ==> same_identity(
                    #[trigger] old(self).instance_cache.instances@[j],
                    final(self).instance_cache.instances@[j],
                ),
            old(self).instance_cache.instances@[root as int].run_state is Init ==> forall|
                j: int,
            |
                0 <= j < final(self).instance_cache.instances@.len()
                    && !((#[trigger] final(self).instance_cache.instances@[j]).run_state
                    is Init) ==> spec_reachable(final(self).deps_of@, root as int, j),
            r is Ok && old(self).instance_cache.instances@[root as int].run_state is Init
                ==> {
                &&& final(self).ordered_instances@.len() >= 1
                &&& final(self).ordered_instances@.last() == root
            },
    {
        match self.instance_cache.instances[root].run_state {
            RunState::Resolved => {
                return Ok(());
            },
            RunState::Resolving => {
                // Unreachable under this function's contract; kept so the
                // match is total.
                let mut msg = String::from_str("Circular dependency on ");
                msg.append(self.instance_cache.instances[root].id.name.as_str());
                return Err(Error::new(msg));
            },
            RunState::Init => {},
        }
        let ghost snap0 = *self;
        proof {
            // With an empty order, well-formedness leaves no instance
            // `Resolved`, and none is `Resolving` by assumption: everything
            // is still `Init`, so nothing has been dispatched yet.
            assert forall|j: int|
                0 <= j < snap0.instance_cache.instances@.len() implies (
                #[trigger] snap0.instance_cache.instances@[j]).run_state is Init by {
                if snap0.instance_cache.instances@[j].run_state is Resolved {
                    assert(snap0.spec_in_order(j));
                }
            }
            assert(snap0.deps_calls@.len() == 0) by {
                if snap0.deps_calls@.len() > 0 {
                    assert(!(snap0.instance_cache.instances@[snap0.deps_calls@[0]].run_state
                        is Init));
                }
            }
        }
        self.instance_cache.set_state(root, RunState::Resolving);
        self.deps_calls = Ghost(self.deps_calls@.push(root as int));
        proof {
            lemma_recorded_stable(
                self.deps_of@,
                self.deps_text@,
                snap0.instance_cache.instances@,
                self.instance_cache.instances@,
            );
            lemma_traversal_stable(snap0, *self, -1);
            lemma_root_marked(snap0, *self, root);
        }
        let ghost snap1 = *self;
        let (gd, run) = get_deps(
            executor,
            probe,
            &mut self.instance_cache,
            &self.directories,
            root,
        );
        let kids = match gd {
            Ok(x) => x,
            Err(e) => {
                proof {
                    lemma_recorded_stable(
                        self.deps_of@,
                        self.deps_text@,
                        snap1.instance_cache.instances@,
                        self.instance_cache.instances@,
                    );
                    lemma_traversal_stable(snap1, *self, -1);
                    lemma_growth_keeps_marks(snap1, *self, root);
                }
                return Err(e);
            },
        };
        let ghost out = run@->Some_0.0;
        proof {
            lemma_recorded_stable(
                self.deps_of@,
                self.deps_text@,
                snap1.instance_cache.instances@,
                self.instance_cache.instances@,
            );
            lemma_traversal_stable(snap1, *self, -1);
            lemma_growth_keeps_marks(snap1, *self, root);
        }
        let ghost snap2 = *self;
        self.deps_of = Ghost(self.deps_of@.insert(root as int, ints_of(kids@)));
        self.deps_text = Ghost(self.deps_text@.insert(root as int, out));
        let mut stack: Vec<Frame> = Vec::new();
        stack.push(Frame { node: root, children: kids, next: 0 });
        proof {
            lemma_traversal_stable(snap2, *self, root as int);
            assert(!snap2.deps_of@.contains_key(root as int)) by {
                if snap2.deps_of@.contains_key(root as int) {
                    assert(snap0.deps_of@.contains_key(root as int));
                    assert(!(snap0.instance_cache.instances@[root as int].run_state is Init));
                }
            }
            assert forall|j: int| #[trigger]
                self.deps_of@.contains_key(j) implies 0 <= j
                < self.instance_cache.instances@.len() && !(self.instance_cache.instances@[
                j
            ].run_state is Init) by {
                if j != root as int {
                    assert(snap2.deps_of@.contains_key(j));
                }
            }
            assert forall|j: int|
                0 <= j < self.instance_cache.instances@.len() && !((
                #[trigger] self.instance_cache.instances@[j]).run_state is Init) implies
                spec_reachable(self.deps_of@, root as int, j) by {
                assert(spec_reachable(snap2.deps_of@, root as int, j));
                let fuel = choose|fuel: nat|
                    spec_reaches(snap2.deps_of@, root as int, j, fuel);
                assert forall|k: int| #[trigger]
                    snap2.deps_of@.contains_key(k) implies self.deps_of@.contains_key(k)
                    && self.deps_of@[k] == snap2.deps_of@[k] by {}
                lemma_reaches_mono(snap2.deps_of@, self.deps_of@, root as int, j, fuel);
            }
            assert forall|c: int|
                0 <= c < kids@.len() implies (#[trigger] kids@[c])
                < self.instance_cache.instances@.len() by {
                assert(ints_of(kids@)[c] == kids@[c] as int);
            }
            assert forall|j: int|
                0 <= j < self.instance_cache.instances@.len() && (
                #[trigger] self.instance_cache.instances@[j]).run_state is Resolving
                    implies exists|f: int|
                0 <= f < stack@.len() && stack@[f].node == j by {
                if j < snap0.instance_cache.instances@.len() && j != root as int {
                    assert(same_identity(
                        snap0.instance_cache.instances@[j],
                        self.instance_cache.instances@[j],
                    ));
                    assert(false);
                }
                assert(stack@[0].node == j);
            }
        }
        // The graph is discovered while it is walked, so no bound on the
        // traversal exists up front; a step budget of one machine word
        // serves as the termination measure.
        let mut fuel: usize = usize::MAX;
        while stack.len() > 0
            invariant
                loop_inv(*self, stack@, *old(self), root),
            decreases fuel,
        {
            if fuel == 0 {
                return Err(Error::new(String::from_str("Dependency graph too large to resolve")));
            }
            fuel = fuel - 1;
            let top = stack.len() - 1;
            let next = stack[top].next;
            let clen = stack[top].children.len();
            if next == clen {
                self.step_complete(&mut stack, root, Ghost(*old(self)));
            } else {
                let child = stack[top].children[next];
                match self.instance_cache.instances[child].run_state {
                    RunState::Resolved => {
                        let ghost stk0 = stack@;
                        let mut f = stack.pop().unwrap();
                        f.next = f.next + 1;
                        stack.push(f);
                        proof {
                            assert(stack@ =~= stk0.subrange(0, stk0.len() - 1).push(
                                Frame { node: f.node, children: f.children, next: f.next },
                            ));
                            assert(stk0[stk0.len() - 1].children@[next as int] == child);
                            lemma_stack_advance(*self, stk0, stack@);
                            assert(stack@[0].node == stk0[0].node);
                        }
                    },
                    RunState::Resolving => {
                        let mut msg = String::from_str("Circular dependency on ");
                        msg.append(self.instance_cache.instances[child].id.name.as_str());
                        return Err(Error::new(msg));
                    },
                    RunState::Init => {
                        match self.step_descend(
                            executor,
                            probe,
                            &mut stack,
                            root,
                            Ghost(*old(self)),
                        ) {
                            Ok(u) => u,
                            Err(e) => {
                                return Err(e);
                            },
                        };
                    },
                }
            }
        }
        Ok(())
    }

    /// One completing step of the search: the top frame has visited all its
    /// children, so its node becomes `Resolved`, joins the order, and the
    /// parent frame advances past it.
    #[verifier::rlimit(100)]
    #[verifier::spinoff_prover]
    fn step_complete(&mut self, stack: &mut Vec<Frame>, root: usize, snap: Ghost<Resolver>)
        requires
            loop_inv(*old(self), old(stack)@, snap@, root),
            old(stack)@.len() > 0,
            old(stack)@.last().next == old(stack)@.last().children@.len(),
        ensures
            loop_inv(*final(self), final(stack)@, snap@, root),
    {
        let ghost stk0 = stack@;
        let ghost pre = *self;
        let frame = stack.pop().unwrap();
        self.instance_cache.set_state(frame.node, RunState::Resolved);
        self.ordered_instances.push(frame.node);
        proof {
            lemma_complete_keeps_marks(pre, *self, frame.node, root);
            lemma_recorded_stable(
                self.deps_of@,
                self.deps_text@,
                pre.instance_cache.instances@,
                self.instance_cache.instances@,
            );
            assert(stk0[stk0.len() - 1] == frame);
            assert(stk0[stk0.len() - 1].next == stk0[stk0.len() - 1].children@.len());
            assert(self.deps_of@[frame.node as int] == ints_of(frame.children@));
            assert forall|d: int|
                0 <= d < self.deps_of@[frame.node as int].len() implies pre.spec_in_order(
                #[trigger] self.deps_of@[frame.node as int][d],
            ) by {
                assert(ints_of(frame.children@)[d] == frame.children@[d] as int);
                let c = frame.children@[d];
                assert(stk0[stk0.len() - 1].children@[d] == c);
                assert(pre.instance_cache.instances@[c as int].run_state is Resolved);
                assert(pre.spec_in_order(c as int));
            }
            lemma_order_push(pre, *self, frame.node);
        }
        if stack.len() > 0 {
            let mut parent = stack.pop().unwrap();
            proof {
                assert(stk0[stk0.len() - 2] == parent);
                assert((stk0[stk0.len() - 2]).next < stk0[stk0.len() - 2].children@.len());
                assert(parent.next < parent.children@.len());
            }
            let parent_children_len = parent.children.len();
            proof {
                assert(parent.next < parent_children_len);
            }
            parent.next = parent.next + 1;
            stack.push(parent);
            proof {
                assert(stack@ =~= stk0.subrange(0, stk0.len() - 2).push(
                    Frame { node: parent.node, children: parent.children, next: parent.next },
                ));
                lemma_stack_after_complete(pre, *self, stk0, stack@, frame.node);
                assert(stack@[0].node == stk0[0].node);
                assert(frame.node != root);
                assert(!self.spec_in_order(root as int)) by {
                    if self.spec_in_order(root as int) {
                        let k = choose|k: int|
                            0 <= k < self.ordered_instances@.len()
                                && self.ordered_instances@[k] == root as int;
                        if k < pre.ordered_instances@.len() {
                            assert(pre.ordered_instances@[k] == root as int);
                            assert(pre.spec_in_order(root as int));
                        } else {
                            assert(self.ordered_instances@[k] == frame.node);
                        }
                    }
                }
            }
        } else {
            proof {
                assert(stk0.len() == 1);
                assert(frame.node == root);
                assert(self.ordered_instances@.last() == root);
                lemma_stack_after_complete(pre, *self, stk0, stack@, frame.node);
            }
        }
    }

    /// One descending step of the search: the top frame's next child is
    /// still `Init`, so it is marked `Resolving`, its `deps` run, and a
    /// fresh frame pushed for it.
    #[verifier::rlimit(100)]
    #[verifier::spinoff_prover]
    fn step_descend<E: Executor, P: FsProbe>(
        &mut self,
        executor: &mut E,
        probe: &mut P,
        stack: &mut Vec<Frame>,
        root: usize,
        snap: Ghost<Resolver>,
    ) -> (r: Result<(), Error>)
        requires
            loop_inv(*old(self), old(stack)@, snap@, root),
            old(stack)@.len() > 0,
            old(stack)@.last().next < old(stack)@.last().children@.len(),
            old(self).instance_cache.instances@[old(stack)@.last().children@[
                old(stack)@.last().next as int
            ] as int].run_state is Init,
        ensures
            r is Ok ==> loop_inv(*final(self), final(stack)@, snap@, root),
            r is Err ==> core_inv(*final(self), snap@, root),
    {
        let ghost stk0 = stack@;
        let top = stack.len() - 1;
        let next = stack[top].next;
        let child = stack[top].children[next];
        let ghost pre = *self;
        self.instance_cache.set_state(child, RunState::Resolving);
        self.deps_calls = Ghost(self.deps_calls@.push(child as int));
        proof {
            lemma_recorded_stable(
                self.deps_of@,
                self.deps_text@,
                pre.instance_cache.instances@,
                self.instance_cache.instances@,
            );
            lemma_traversal_stable(pre, *self, -1);
            lemma_descend_marked(pre, *self, stk0, child, root);
        }
        let ghost mid = *self;
        let (gd2, run2) = get_deps(
            executor,
            probe,
            &mut self.instance_cache,
            &self.directories,
            child,
        );
        let kids2 = match gd2 {
            Ok(x) => x,
            Err(e) => {
                proof {
                    lemma_recorded_stable(
                        self.deps_of@,
                        self.deps_text@,
                        mid.instance_cache.instances@,
                        self.instance_cache.instances@,
                    );
                    lemma_traversal_stable(mid, *self, -1);
                    lemma_growth_keeps_marks(mid, *self, root);
                }
                return Err(e);
            },
        };
        let ghost out2 = run2@->Some_0.0;
        proof {
            lemma_recorded_stable(
                self.deps_of@,
                self.deps_text@,
                mid.instance_cache.instances@,
                self.instance_cache.instances@,
            );
            lemma_traversal_stable(mid, *self, -1);
            lemma_growth_keeps_marks(mid, *self, root);
        }
        let ghost snap3 = *self;
        self.deps_of = Ghost(self.deps_of@.insert(child as int, ints_of(kids2@)));
        self.deps_text = Ghost(self.deps_text@.insert(child as int, out2));
        stack.push(Frame { node: child, children: kids2, next: 0 });
        proof {
            assert(!snap3.spec_in_order(child as int)) by {
                if snap3.spec_in_order(child as int) {
                    let k = choose|k: int|
                        0 <= k < snap3.ordered_instances@.len()
                            && snap3.ordered_instances@[k] == child as int;
                    assert(snap3.instance_cache.instances@[snap3.ordered_instances@[k] as int].run_state
                        is Resolved);
                }
            }
            lemma_traversal_stable(snap3, *self, child as int);
            assert(stack@ =~= stk0.push(Frame { node: child, children: kids2, next: 0 }));
            assert forall|c: int|
                0 <= c < kids2@.len() implies (#[trigger] kids2@[c])
                < self.instance_cache.instances@.len() by {
                assert(ints_of(kids2@)[c] == kids2@[c] as int);
            }
            lemma_stack_after_descend(pre, *self, stk0, stack@, child);
            assert(stack@[0].node == stk0[0].node);
            // The inserted key is the freshly marked child, so the ledger
            // tie and reachability survive the insertion.
            assert(!snap3.deps_of@.contains_key(child as int)) by {
                if snap3.deps_of@.contains_key(child as int) {
                    assert(!(pre.instance_cache.instances@[child as int].run_state is Init));
                }
            }
            assert forall|k: int| #[trigger]
                snap3.deps_of@.contains_key(k) implies self.deps_of@.contains_key(k)
                && self.deps_of@[k] == snap3.deps_of@[k] by {}
            assert forall|j: int|
                0 <= j < self.instance_cache.instances@.len() && !((
                #[trigger] self.instance_cache.instances@[j]).run_state is Init) implies
                spec_reachable(self.deps_of@, root as int, j) by {
                assert(spec_reachable(snap3.deps_of@, root as int, j));
                let fuel = choose|fuel: nat| spec_reaches(snap3.deps_of@, root as int, j, fuel);
                lemma_reaches_mono(snap3.deps_of@, self.deps_of@, root as int, j, fuel);
            }
        }
        Ok(())
    }
}

/// Marking the root `Resolving` and opening the dispatch ledger with it,
/// in a pass where everything else is still `Init`, establishes the ledger
/// tie and reachability.
proof fn lemma_root_marked(pre: Resolver, post: Resolver, root: usize)
    requires
        pre.deps_once(),
        forall|j: int|
            0 <= j < pre.instance_cache.instances@.len()
                ==> (#[trigger] pre.instance_cache.instances@[j]).run_state is Init,
        root < pre.instance_cache.instances@.len(),
        post.instance_cache.instances@.len() == pre.instance_cache.instances@.len(),
        forall|j: int|
            0 <= j < pre.instance_cache.instances@.len() && j != root
                ==> post.instance_cache.instances@[j] == pre.instance_cache.instances@[j],
        post.instance_cache.instances@[root as int].run_state is Resolving,
        post.deps_of@ == pre.deps_of@,
        post.deps_calls@ == pre.deps_calls@.push(root as int),
        pre.deps_calls@.len() == 0,
    ensures
        post.deps_once(),
        forall|j: int|
            0 <= j < post.instance_cache.instances@.len() && !((
            #[trigger] post.instance_cache.instances@[j]).run_state is Init) ==> spec_reachable(
                post.deps_of@,
                root as int,
                j,
            ),
{
    let insts = post.instance_cache.instances@;
    let calls = post.deps_calls@;
    assert(calls.len() == 1 && calls[0] == root as int);
    assert forall|j: int|
        0 <= j < insts.len() && !((#[trigger] insts[j]).run_state is Init) implies j
        == root as int by {
        if j != root as int {
            assert(pre.instance_cache.instances@[j].run_state is Init);
        }
    }
    assert forall|j: int|
        0 <= j < insts.len() && !((#[trigger] insts[j]).run_state is Init) implies exists|
            k: int,
        |
        0 <= k < calls.len() && calls[k] == j by {
        assert(calls[0] == j);
    }
    assert forall|j: int| #[trigger] post.deps_of@.contains_key(j) implies 0 <= j
        < insts.len() && !(insts[j].run_state is Init) by {
        assert(pre.deps_of@.contains_key(j));
        assert(!(pre.instance_cache.instances@[j].run_state is Init));
        assert(false);
    }
    assert forall|j: int|
        0 <= j < insts.len() && !((#[trigger] insts[j]).run_state is Init) implies
        spec_reachable(post.deps_of@, root as int, j) by {
        assert(spec_reaches(post.deps_of@, root as int, root as int, 0));
    }
}

/// Marking the top frame's next child `Resolving` and appending it to the
/// dispatch ledger keeps the ledger tie and reachability: the child is
/// reachable through its parent's recorded edge.
proof fn lemma_descend_marked(
    pre: Resolver,
    post: Resolver,
    stk0: Seq<Frame>,
    child: usize,
    root: usize,
)
    requires
        pre.deps_once(),
        forall|j: int|
            0 <= j < pre.instance_cache.instances@.len() && !((
            #[trigger] pre.instance_cache.instances@[j]).run_state is Init) ==> spec_reachable(
                pre.deps_of@,
                root as int,
                j,
            ),
        stack_wf(pre, stk0),
        stk0.len() >= 1,
        stk0.last().next < stk0.last().children@.len(),
        stk0.last().children@[stk0.last().next as int] == child,
        child < pre.instance_cache.instances@.len(),
        pre.instance_cache.instances@[child as int].run_state is Init,
        post.instance_cache.instances@.len() == pre.instance_cache.instances@.len(),
        forall|j: int|
            0 <= j < pre.instance_cache.instances@.len() && j != child
                ==> post.instance_cache.instances@[j] == pre.instance_cache.instances@[j],
        post.instance_cache.instances@[child as int].run_state is Resolving,
        post.deps_of@ == pre.deps_of@,
        post.deps_calls@ == pre.deps_calls@.push(child as int),
    ensures
        post.deps_once(),
        forall|j: int|
            0 <= j < post.instance_cache.instances@.len() && !((
            #[trigger] post.instance_cache.instances@[j]).run_state is Init) ==> spec_reachable(
                post.deps_of@,
                root as int,
                j,
            ),
{
    let insts = post.instance_cache.instances@;
    let calls = post.deps_calls@;
    let parent = stk0.last().node;
    assert forall|k1: int, k2: int| 0 <= k1 < k2 < calls.len() implies calls[k1]
        != calls[k2] by {
        if k2 == calls.len() - 1 {
            assert(!(pre.instance_cache.instances@[pre.deps_calls@[k1]].run_state is Init));
        }
    }
    assert forall|k: int| 0 <= k < calls.len() implies 0 <= #[trigger] calls[k] < insts.len()
        && !(insts[calls[k]].run_state is Init) by {
        if k < pre.deps_calls@.len() {
            assert(!(pre.instance_cache.instances@[pre.deps_calls@[k]].run_state is Init));
        } else {
            assert(calls[k] == child as int);
        }
    }
    assert forall|j: int|
        0 <= j < insts.len() && !((#[trigger] insts[j]).run_state is Init) implies exists|
            k: int,
        |
        0 <= k < calls.len() && calls[k] == j by {
        if j == child as int {
            assert(calls[calls.len() - 1] == j);
        } else {
            assert(!(pre.instance_cache.instances@[j].run_state is Init));
            let k = choose|k: int|
                0 <= k < pre.deps_calls@.len() && pre.deps_calls@[k] == j;
            assert(calls[k] == j);
        }
    }
    assert forall|j: int| #[trigger] post.deps_of@.contains_key(j) implies 0 <= j
        < insts.len() && !(insts[j].run_state is Init) by {
        assert(pre.deps_of@.contains_key(j));
    }
    assert forall|j: int|
        0 <= j < insts.len() && !((#[trigger] insts[j]).run_state is Init) implies
        spec_reachable(post.deps_of@, root as int, j) by {
        if j == child as int {
            assert(!(pre.instance_cache.instances@[parent as int].run_state is Init));
            assert(spec_reachable(pre.deps_of@, root as int, parent as int));
            let fuel = choose|fuel: nat|
                spec_reaches(pre.deps_of@, root as int, parent as int, fuel);
            assert(pre.deps_of@[parent as int] == ints_of(stk0.last().children@));
            assert(ints_of(stk0.last().children@)[stk0.last().next as int] == child as int);
            assert(post.deps_of@[parent as int][stk0.last().next as int] == child as int);
            assert(spec_reaches(post.deps_of@, root as int, child as int, fuel + 1));
        } else {
            assert(!(pre.instance_cache.instances@[j].run_state is Init));
        }
    }
}

/// Marking an already-dispatched node `Resolved` keeps the ledger tie and
/// reachability: no instance enters or leaves the dispatched set.
proof fn lemma_complete_keeps_marks(pre: Resolver, post: Resolver, node: usize, root: usize)
    requires
        pre.deps_once(),
        forall|j: int|
            0 <= j < pre.instance_cache.instances@.len() && !((
            #[trigger] pre.instance_cache.instances@[j]).run_state is Init) ==> spec_reachable(
                pre.deps_of@,
                root as int,
                j,
            ),
        node < pre.instance_cache.instances@.len(),
        !(pre.instance_cache.instances@[node as int].run_state is Init),
        post.instance_cache.instances@.len() == pre.instance_cache.instances@.len(),
        forall|j: int|
            0 <= j < pre.instance_cache.instances@.len() && j != node
                ==> post.instance_cache.instances@[j] == pre.instance_cache.instances@[j],
        !(post.instance_cache.instances@[node as int].run_state is Init),
        post.deps_of@ == pre.deps_of@,
        post.deps_calls@ == pre.deps_calls@,
    ensures
        post.deps_once(),
        forall|j: int|
            0 <= j < post.instance_cache.instances@.len() && !((
            #[trigger] post.instance_cache.instances@[j]).run_state is Init) ==> spec_reachable(
                post.deps_of@,
                root as int,
                j,
            ),
{
    let insts = post.instance_cache.instances@;
    let calls = post.deps_calls@;
    assert forall|k: int| 0 <= k < calls.len() implies 0 <= #[trigger] calls[k] < insts.len()
        && !(insts[calls[k]].run_state is Init) by {
        assert(!(pre.instance_cache.instances@[pre.deps_calls@[k]].run_state is Init));
    }
    assert forall|j: int|
        0 <= j < insts.len() && !((#[trigger] insts[j]).run_state is Init) implies exists|
            k: int,
        |
        0 <= k < calls.len() && calls[k] == j by {
        assert(!(pre.instance_cache.instances@[j].run_state is Init));
        let k = choose|k: int| 0 <= k < pre.deps_calls@.len() && pre.deps_calls@[k] == j;
        assert(calls[k] == j);
    }
    assert forall|j: int| #[trigger] post.deps_of@.contains_key(j) implies 0 <= j
        < insts.len() && !(insts[j].run_state is Init) by {
        assert(pre.deps_of@.contains_key(j));
        assert(!(pre.instance_cache.instances@[j].run_state is Init));
    }
    assert forall|j: int|
        0 <= j < insts.len() && !((#[trigger] insts[j]).run_state is Init) implies
        spec_reachable(post.deps_of@, root as int, j) by {
        assert(!(pre.instance_cache.instances@[j].run_state is Init));
    }
}

/// Growing the arena with fresh `Init` instances keeps the ledger tie and
/// reachability.
proof fn lemma_growth_keeps_marks(pre: Resolver, post: Resolver, root: usize)
    requires
        pre.deps_once(),
        forall|j: int|
            0 <= j < pre.instance_cache.instances@.len() && !((
            #[trigger] pre.instance_cache.instances@[j]).run_state is Init) ==> spec_reachable(
                pre.deps_of@,
                root as int,
                j,
            ),
        pre.instance_cache.instances@.len() <= post.instance_cache.instances@.len(),
        forall|j: int|
            0 <= j < pre.instance_cache.instances@.len() ==> post.instance_cache.instances@[j]
                == pre.instance_cache.instances@[j],
        forall|j: int|
            pre.instance_cache.instances@.len() <= j < post.instance_cache.instances@.len()
                ==> (#[trigger] post.instance_cache.instances@[j]).run_state is Init,
        post.deps_of@ == pre.deps_of@,
        post.deps_calls@ == pre.deps_calls@,
    ensures
        post.deps_once(),
        forall|j: int|
            0 <= j < post.instance_cache.instances@.len() && !((
            #[trigger] post.instance_cache.instances@[j]).run_state is Init) ==> spec_reachable(
                post.deps_of@,
                root as int,
                j,
            ),
{
    let insts = post.instance_cache.instances@;
    let calls = post.deps_calls@;
    assert forall|k: int| 0 <= k < calls.len() implies 0 <= #[trigger] calls[k] < insts.len()
        && !(insts[calls[k]].run_state is Init) by {
        assert(!(pre.instance_cache.instances@[pre.deps_calls@[k]].run_state is Init));
    }
    assert forall|j: int|
        0 <= j < insts.len() && !((#[trigger] insts[j]).run_state is Init) implies exists|
            k: int,
        |
        0 <= k < calls.len() && calls[k] == j by {
        assert(j < pre.instance_cache.instances@.len());
        assert(!(pre.instance_cache.instances@[j].run_state is Init));
        let k = choose|k: int| 0 <= k < pre.deps_calls@.len() && pre.deps_calls@[k] == j;
        assert(calls[k] == j);
    }
    assert forall|j: int| #[trigger] post.deps_of@.contains_key(j) implies 0 <= j
        < insts.len() && !(insts[j].run_state is Init) by {
        assert(pre.deps_of@.contains_key(j));
    }
    assert forall|j: int|
        0 <= j < insts.len() && !((#[trigger] insts[j]).run_state is Init) implies
        spec_reachable(post.deps_of@, root as int, j) by {
        assert(j < pre.instance_cache.instances@.len());
        assert(!(pre.instance_cache.instances@[j].run_state is Init));
    }
}

/// The parts of the search invariant that survive an aborted pass: the
/// resolver is well-formed, the arena only grew, and identities are intact.
spec fn core_inv(r: Resolver, snap: Resolver, root: usize) -> bool {
    &&& r.instance_cache.wf()
    &&& r.order_wf()
    &&& r.order_is_resolved()
    &&& r.deps_recorded()
    &&& r.dependency_first()
    &&& r.deps_once()
    &&& forall|j: int|
        0 <= j < r.instance_cache.instances@.len() && !((
        #[trigger] r.instance_cache.instances@[j]).run_state is Init) ==> spec_reachable(
            r.deps_of@,
            root as int,
            j,
        )
    &&& root < r.instance_cache.instances@.len()
    &&& snap.instance_cache.instances@.len() <= r.instance_cache.instances@.len()
    &&& forall|j: int|
        0 <= j < snap.instance_cache.instances@.len() ==> same_identity(
            #[trigger] snap.instance_cache.instances@[j],
            r.instance_cache.instances@[j],
        )
}

/// The full invariant of the search loop: the suspended stack is
/// well-formed, its bottom frame is the requested root while the root is
/// not yet ordered, and once the stack drains the root stands last in the
/// order.
spec fn loop_inv(r: Resolver, stk: Seq<Frame>, snap: Resolver, root: usize) -> bool {
    &&& core_inv(r, snap, root)
    &&& stack_wf(r, stk)
    &&& (stk.len() > 0 && stk[0].node == root && !r.spec_in_order(root as int)) || (stk.len()
        == 0 && r.ordered_instances@.len() >= 1 && r.ordered_instances@.last() == root)
}



/// Order-related invariants survive any step that neither orders a new
/// instance nor un-resolves one: growing the arena with unresolved
/// instances, changing non-`Resolved` markers, and recording one new
/// dependency list for an instance that is not ordered.
pub proof fn lemma_traversal_stable(pre: Resolver, post: Resolver, inserted: int)
    requires
        pre.order_wf(),
        pre.order_is_resolved(),
        pre.dependency_first(),
        post.ordered_instances@ == pre.ordered_instances@,
        pre.instance_cache.instances@.len() <= post.instance_cache.instances@.len(),
        forall|j: int|
            0 <= j < pre.instance_cache.instances@.len() ==> ((
            #[trigger] post.instance_cache.instances@[j]).run_state is Resolved
                <==> pre.instance_cache.instances@[j].run_state is Resolved),
        forall|j: int|
            pre.instance_cache.instances@.len() <= j < post.instance_cache.instances@.len()
                ==> !((#[trigger] post.instance_cache.instances@[j]).run_state is Resolved),
        forall|k: int| #[trigger]
            pre.deps_of@.contains_key(k) && k != inserted ==> post.deps_of@.contains_key(k)
                && post.deps_of@[k] == pre.deps_of@[k],
        !pre.spec_in_order(inserted),
    ensures
        post.order_wf(),
        post.order_is_resolved(),
        post.dependency_first(),
{
    let ord = post.ordered_instances@;
    assert forall|j: int|
        0 <= j < post.instance_cache.instances@.len() && (
        #[trigger] post.instance_cache.instances@[j]).run_state is Resolved implies
        post.spec_in_order(j) by {
        assert(pre.spec_in_order(j));
    }
    assert forall|k: int|
        0 <= k < post.ordered_instances@.len() implies post.deps_of@.contains_key(
        (#[trigger] post.ordered_instances@[k]) as int,
    ) by {
        assert(pre.ordered_instances@[k] == post.ordered_instances@[k]);
        assert(post.ordered_instances@[k] as int != inserted);
        assert(pre.deps_of@.contains_key(post.ordered_instances@[k] as int));
    }
    assert forall|k: int, d: int|
        0 <= k < post.ordered_instances@.len() && 0 <= d < post.deps_of@[
            post.ordered_instances@[k] as int
        ].len() implies #[trigger] post.dep_in_order(k, d) by {
        assert(pre.ordered_instances@[k] == post.ordered_instances@[k]);
        assert(post.ordered_instances@[k] as int != inserted);
        assert(pre.deps_of@.contains_key(post.ordered_instances@[k] as int));
        assert(pre.deps_of@[pre.ordered_instances@[k] as int][d] == post.deps_of@[
            post.ordered_instances@[k] as int
        ][d]);
        assert(pre.dep_in_order(k, d));
        let k2 = choose|k2: int|
            0 <= k2 < k && pre.ordered_instances@[k2] == pre.deps_of@[
                pre.ordered_instances@[k] as int
            ][d];
        assert(0 <= k2 < k && post.ordered_instances@[k2] == post.deps_of@[
            post.ordered_instances@[k] as int
        ][d]);
    }
}

/// Appending a `Resolving` node whose recorded dependencies all already
/// stand in the order keeps the order well-formed, resolved-exact and
/// dependency-first.
proof fn lemma_order_push(pre: Resolver, post: Resolver, node: usize)
    requires
        pre.order_wf(),
        pre.order_is_resolved(),
        pre.dependency_first(),
        node < pre.instance_cache.instances@.len(),
        pre.instance_cache.instances@[node as int].run_state is Resolving,
        post.ordered_instances@ == pre.ordered_instances@.push(node),
        post.instance_cache.instances@.len() == pre.instance_cache.instances@.len(),
        forall|j: int|
            0 <= j < pre.instance_cache.instances@.len() && j != node
                ==> post.instance_cache.instances@[j] == pre.instance_cache.instances@[j],
        post.instance_cache.instances@[node as int].run_state is Resolved,
        post.deps_of@ == pre.deps_of@,
        post.deps_of@.contains_key(node as int),
        forall|d: int|
            0 <= d < post.deps_of@[node as int].len() ==> pre.spec_in_order(
                #[trigger] post.deps_of@[node as int][d],
            ),
    ensures
        post.order_wf(),
        post.order_is_resolved(),
        post.dependency_first(),
{
    let ord = post.ordered_instances@;
    let n = pre.ordered_instances@.len() as int;
    assert forall|k: int| 0 <= k < n implies #[trigger] ord[k] != node by {
        assert(pre.instance_cache.instances@[pre.ordered_instances@[k] as int].run_state
            is Resolved);
    }
    assert forall|j: int|
        0 <= j < post.instance_cache.instances@.len() && (
        #[trigger] post.instance_cache.instances@[j]).run_state is Resolved implies
        post.spec_in_order(j) by {
        if j == node as int {
            assert(ord[n] == node);
        } else {
            assert(pre.spec_in_order(j));
            let k2 = choose|k2: int|
                0 <= k2 < pre.ordered_instances@.len() && pre.ordered_instances@[k2] == j;
            assert(ord[k2] == j);
        }
    }
    assert forall|k: int|
        0 <= k < post.ordered_instances@.len() implies post.deps_of@.contains_key(
        (#[trigger] post.ordered_instances@[k]) as int,
    ) by {
        if k < n {
            assert(post.ordered_instances@[k] == pre.ordered_instances@[k]);
            assert(pre.deps_of@.contains_key(pre.ordered_instances@[k] as int));
        } else {
            assert(post.ordered_instances@[k] == node);
        }
    }
    assert forall|k: int, d: int|
        0 <= k < post.ordered_instances@.len() && 0 <= d < post.deps_of@[
            post.ordered_instances@[k] as int
        ].len() implies #[trigger] post.dep_in_order(k, d) by {
        if k < n {
            assert(post.ordered_instances@[k] == pre.ordered_instances@[k]);
            assert(pre.deps_of@.contains_key(pre.ordered_instances@[k] as int));
            assert(pre.deps_of@[pre.ordered_instances@[k] as int][d] == post.deps_of@[
                post.ordered_instances@[k] as int
            ][d]);
            assert(pre.dep_in_order(k, d));
            let k2 = choose|k2: int|
                0 <= k2 < k && pre.ordered_instances@[k2] == pre.deps_of@[
                    pre.ordered_instances@[k] as int
                ][d];
            assert(post.ordered_instances@[k2] == pre.ordered_instances@[k2]);
            assert(0 <= k2 < k && post.ordered_instances@[k2] == post.deps_of@[
                post.ordered_instances@[k] as int
            ][d]);
        } else {
            assert(post.ordered_instances@[k] == node);
            assert(pre.spec_in_order(post.deps_of@[node as int][d]));
            let k2 = choose|k2: int|
                0 <= k2 < pre.ordered_instances@.len() && pre.ordered_instances@[k2]
                    == post.deps_of@[node as int][d];
            assert(post.ordered_instances@[k2] == pre.ordered_instances@[k2]);
            assert(0 <= k2 < k && post.ordered_instances@[k2] == post.deps_of@[
                post.ordered_instances@[k] as int
            ][d]);
        }
    }
}

/// Popping a finished frame — its node freshly `Resolved` — and advancing
/// its parent keeps the suspended search well-formed.
proof fn lemma_stack_after_complete(
    pre: Resolver,
    post: Resolver,
    stk0: Seq<Frame>,
    stk1: Seq<Frame>,
    node: usize,
)
    requires
        stack_wf(pre, stk0),
        stk0.len() >= 1,
        stk0.last().node == node,
        stk0.last().next == stk0.last().children@.len(),
        post.instance_cache.instances@.len() == pre.instance_cache.instances@.len(),
        forall|j: int|
            0 <= j < pre.instance_cache.instances@.len() && j != node
                ==> post.instance_cache.instances@[j] == pre.instance_cache.instances@[j],
        node < pre.instance_cache.instances@.len(),
        post.instance_cache.instances@[node as int].run_state is Resolved,
        post.deps_of@ == pre.deps_of@,
        (stk0.len() == 1 && stk1.len() == 0) || (stk0.len() >= 2 && stk1.len() == stk0.len() - 1
            && (forall|f: int| 0 <= f < stk1.len() - 1 ==> stk1[f] == stk0[f])
            && stk1.last().node == stk0[stk0.len() - 2].node
            && stk1.last().children == stk0[stk0.len() - 2].children
            && stk1.last().next == stk0[stk0.len() - 2].next + 1),
    ensures
        stack_wf(post, stk1),
{
    let insts = post.instance_cache.instances@;
    assert forall|f: int| 0 <= f < stk1.len() implies {
        &&& (#[trigger] stk1[f]).node < insts.len()
        &&& insts[stk1[f].node as int].run_state is Resolving
        &&& stk1[f].next <= stk1[f].children@.len()
        &&& post.deps_of@.contains_key(stk1[f].node as int)
        &&& post.deps_of@[stk1[f].node as int] == ints_of(stk1[f].children@)
        &&& forall|c: int|
            0 <= c < stk1[f].children@.len() ==> (#[trigger] stk1[f].children@[c]) < insts.len()
        &&& forall|c: int|
            0 <= c < stk1[f].next ==> insts[(#[trigger] stk1[f].children@[c]) as int].run_state
                is Resolved
    } by {
        assert(stk0[f].node != node);
        if f == stk1.len() - 1 {
            assert(stk1[f].node == stk0[f].node);
            assert(stk0[f].next < stk0[f].children@.len());
            assert(stk0[f].children@[stk0[f].next as int] == node);
            assert forall|c: int|
                0 <= c < stk1[f].next implies insts[(
                #[trigger] stk1[f].children@[c]) as int].run_state is Resolved by {
                if c < stk0[f].next {
                    assert(pre.instance_cache.instances@[stk0[f].children@[c] as int].run_state
                        is Resolved);
                    assert(stk0[f].children@[c] != node);
                } else {
                    assert(stk1[f].children@[c] == node);
                }
            }
        } else {
            assert(stk1[f] == stk0[f]);
            assert forall|c: int|
                0 <= c < stk1[f].next implies insts[(
                #[trigger] stk1[f].children@[c]) as int].run_state is Resolved by {
                assert(pre.instance_cache.instances@[stk0[f].children@[c] as int].run_state
                    is Resolved);
                if stk0[f].children@[c] != node {
                }
            }
        }
    }
    assert forall|f1: int, f2: int| 0 <= f1 < f2 < stk1.len() implies stk1[f1].node
        != stk1[f2].node by {
        assert(stk1[f1].node == stk0[f1].node);
        assert(stk1[f2].node == stk0[f2].node);
    }
    assert forall|f: int| 0 <= f < stk1.len() - 1 implies {
        &&& (#[trigger] stk1[f]).next < stk1[f].children@.len()
        &&& stk1[f].children@[stk1[f].next as int] == stk1[f + 1].node
    } by {
        assert(stk1[f] == stk0[f]);
        assert(stk1[f + 1].node == stk0[f + 1].node);
    }
    assert forall|j: int|
        0 <= j < insts.len() && (#[trigger] insts[j]).run_state is Resolving implies exists|
            f: int,
        |
        0 <= f < stk1.len() && stk1[f].node == j by {
        assert(pre.instance_cache.instances@[j].run_state is Resolving);
        let f = choose|f: int| 0 <= f < stk0.len() && stk0[f].node == j;
        assert(f < stk0.len() - 1);
        assert(stk1[f].node == stk0[f].node);
    }
}

/// Advancing the top frame past a child that is already `Resolved` keeps
/// the suspended search well-formed.
proof fn lemma_stack_advance(r: Resolver, stk0: Seq<Frame>, stk1: Seq<Frame>)
    requires
        stack_wf(r, stk0),
        stk0.len() >= 1,
        stk0.last().next < stk0.last().children@.len(),
        r.instance_cache.instances@[stk0.last().children@[stk0.last().next as int] as int].run_state
            is Resolved,
        stk1.len() == stk0.len(),
        forall|f: int| 0 <= f < stk0.len() - 1 ==> stk1[f] == stk0[f],
        stk1.last().node == stk0.last().node,
        stk1.last().children == stk0.last().children,
        stk1.last().next == stk0.last().next + 1,
    ensures
        stack_wf(r, stk1),
{
    let insts = r.instance_cache.instances@;
    assert forall|f: int| 0 <= f < stk1.len() implies {
        &&& (#[trigger] stk1[f]).node < insts.len()
        &&& insts[stk1[f].node as int].run_state is Resolving
        &&& stk1[f].next <= stk1[f].children@.len()
        &&& r.deps_of@.contains_key(stk1[f].node as int)
        &&& r.deps_of@[stk1[f].node as int] == ints_of(stk1[f].children@)
        &&& forall|c: int|
            0 <= c < stk1[f].children@.len() ==> (#[trigger] stk1[f].children@[c]) < insts.len()
        &&& forall|c: int|
            0 <= c < stk1[f].next ==> insts[(#[trigger] stk1[f].children@[c]) as int].run_state
                is Resolved
    } by {
        if f == stk1.len() - 1 {
            assert(stk1[f].node == stk0[f].node);
            assert forall|c: int|
                0 <= c < stk1[f].next implies insts[(
                #[trigger] stk1[f].children@[c]) as int].run_state is Resolved by {
                if c < stk0[f].next {
                    assert(insts[stk0[f].children@[c] as int].run_state is Resolved);
                }
            }
        } else {
            assert(stk1[f] == stk0[f]);
        }
    }
    assert forall|f1: int, f2: int| 0 <= f1 < f2 < stk1.len() implies stk1[f1].node
        != stk1[f2].node by {
        assert(stk1[f1].node == stk0[f1].node);
        assert(stk1[f2].node == stk0[f2].node);
    }
    assert forall|f: int| 0 <= f < stk1.len() - 1 implies {
        &&& (#[trigger] stk1[f]).next < stk1[f].children@.len()
        &&& stk1[f].children@[stk1[f].next as int] == stk1[f + 1].node
    } by {
        assert(stk1[f] == stk0[f]);
        assert(stk1[f + 1].node == stk0[f + 1].node);
    }
    assert forall|j: int|
        0 <= j < insts.len() && (#[trigger] insts[j]).run_state is Resolving implies exists|
            f: int,
        |
        0 <= f < stk1.len() && stk1[f].node == j by {
        let f = choose|f: int| 0 <= f < stk0.len() && stk0[f].node == j;
        assert(stk1[f].node == stk0[f].node);
    }
}

/// Pushing a fresh frame for an `Init` child just marked `Resolving`, with
/// its newly recorded dependencies, keeps the suspended search well-formed.
proof fn lemma_stack_after_descend(
    pre: Resolver,
    post: Resolver,
    stk0: Seq<Frame>,
    stk1: Seq<Frame>,
    child: usize,
)
    requires
        stack_wf(pre, stk0),
        stk0.len() >= 1,
        stk0.last().next < stk0.last().children@.len(),
        stk0.last().children@[stk0.last().next as int] == child,
        pre.instance_cache.instances@[child as int].run_state is Init,
        pre.instance_cache.instances@.len() <= post.instance_cache.instances@.len(),
        child < pre.instance_cache.instances@.len(),
        forall|j: int|
            0 <= j < pre.instance_cache.instances@.len() && j != child
                ==> post.instance_cache.instances@[j] == pre.instance_cache.instances@[j],
        post.instance_cache.instances@[child as int].run_state is Resolving,
        forall|j: int|
            pre.instance_cache.instances@.len() <= j < post.instance_cache.instances@.len()
                ==> !((#[trigger] post.instance_cache.instances@[j]).run_state is Resolving),
        forall|k: int| #[trigger]
            pre.deps_of@.contains_key(k) && k != child ==> post.deps_of@.contains_key(k)
                && post.deps_of@[k] == pre.deps_of@[k],
        post.deps_of@.contains_key(child as int),
        stk1.len() == stk0.len() + 1,
        forall|f: int| 0 <= f < stk0.len() ==> stk1[f] == stk0[f],
        stk1.last().node == child,
        stk1.last().next == 0,
        post.deps_of@[child as int] == ints_of(stk1.last().children@),
        forall|c: int|
            0 <= c < stk1.last().children@.len() ==> (#[trigger] stk1.last().children@[c])
                < post.instance_cache.instances@.len(),
    ensures
        stack_wf(post, stk1),
{
    let insts = post.instance_cache.instances@;
    assert forall|f: int| 0 <= f < stk0.len() implies #[trigger] stk0[f].node != child by {
        assert(pre.instance_cache.instances@[stk0[f].node as int].run_state is Resolving);
    }
    assert forall|f: int| 0 <= f < stk1.len() implies {
        &&& (#[trigger] stk1[f]).node < insts.len()
        &&& insts[stk1[f].node as int].run_state is Resolving
        &&& stk1[f].next <= stk1[f].children@.len()
        &&& post.deps_of@.contains_key(stk1[f].node as int)
        &&& post.deps_of@[stk1[f].node as int] == ints_of(stk1[f].children@)
        &&& forall|c: int|
            0 <= c < stk1[f].children@.len() ==> (#[trigger] stk1[f].children@[c]) < insts.len()
        &&& forall|c: int|
            0 <= c < stk1[f].next ==> insts[(#[trigger] stk1[f].children@[c]) as int].run_state
                is Resolved
    } by {
        if f < stk0.len() {
            assert(stk1[f] == stk0[f]);
            assert(stk0[f].node != child);
            assert forall|c: int|
                0 <= c < stk1[f].next implies insts[(
                #[trigger] stk1[f].children@[c]) as int].run_state is Resolved by {
                assert(pre.instance_cache.instances@[stk0[f].children@[c] as int].run_state
                    is Resolved);
                assert(stk0[f].children@[c] != child);
            }
        }
    }
    assert forall|f1: int, f2: int| 0 <= f1 < f2 < stk1.len() implies stk1[f1].node
        != stk1[f2].node by {
        if f2 < stk0.len() {
            assert(stk1[f1] == stk0[f1]);
            assert(stk1[f2] == stk0[f2]);
        } else {
            assert(stk1[f1] == stk0[f1]);
            assert(stk0[f1].node != child);
        }
    }
    assert forall|f: int| 0 <= f < stk1.len() - 1 implies {
        &&& (#[trigger] stk1[f]).next < stk1[f].children@.len()
        &&& stk1[f].children@[stk1[f].next as int] == stk1[f + 1].node
    } by {
        assert(stk1[f] == stk0[f]);
        if f + 1 < stk0.len() {
            assert(stk1[f + 1] == stk0[f + 1]);
        } else {
            assert(stk1[f + 1].node == child);
            assert(f == stk0.len() - 1);
        }
    }
    assert forall|j: int|
        0 <= j < insts.len() && (#[trigger] insts[j]).run_state is Resolving implies exists|
            f: int,
        |
        0 <= f < stk1.len() && stk1[f].node == j by {
        if j == child as int {
            assert(stk1[stk1.len() - 1].node == j);
        } else {
            assert(j < pre.instance_cache.instances@.len());
            assert(pre.instance_cache.instances@[j].run_state is Resolving);
            let f = choose|f: int| 0 <= f < stk0.len() && stk0[f].node == j;
            assert(stk1[f].node == stk0[f].node);
        }
    }
}

/// The invariant of the suspended depth-first search: stack nodes are
/// distinct `Resolving` instances with their recorded dependency lists,
/// every child left of a frame's cursor is already `Resolved`, each frame's
/// cursor points at the node of the frame above it, and every `Resolving`
/// instance has a frame.
spec fn stack_wf(r: Resolver, stk: Seq<Frame>) -> bool {
    let insts = r.instance_cache.instances@;
    &&& forall|f: int|
        0 <= f < stk.len() ==> {
            &&& (#[trigger] stk[f]).node < insts.len()
            &&& insts[stk[f].node as int].run_state is Resolving
            &&& stk[f].next <= stk[f].children@.len()
            &&& r.deps_of@.contains_key(stk[f].node as int)
            &&& r.deps_of@[stk[f].node as int] == ints_of(stk[f].children@)
            &&& forall|c: int|
                0 <= c < stk[f].children@.len() ==> (#[trigger] stk[f].children@[c])
                    < insts.len()
            &&& forall|c: int|
                0 <= c < stk[f].next ==> insts[(#[trigger] stk[f].children@[c]) as int].run_state
                    is Resolved
        }
    &&& forall|f1: int, f2: int| 0 <= f1 < f2 < stk.len() ==> stk[f1].node != stk[f2].node
    &&& forall|f: int|
        0 <= f < stk.len() - 1 ==> {
            &&& (#[trigger] stk[f]).next < stk[f].children@.len()
            &&& stk[f].children@[stk[f].next as int] == stk[f + 1].node
        }
    &&& forall|j: int|
        0 <= j < insts.len() && (#[trigger] insts[j]).run_state is Resolving ==> exists|f: int|
            0 <= f < stk.len() && stk[f].node == j
}

} // verus!
