//! Content-addressed memoization: one `Definition` per unit name, one
//! `Instance` per distinct signature.  Instances live in an arena (`Vec`)
//! and are shared among all graph parents by index, so a state change made
//! through one reference is seen through every other.

use vstd::prelude::*;

use crate::error::Error;
use crate::resolver::loader::{FileStat, FsProbe, load_unit, spec_unit_search};
use crate::text::{seq_views, str_eq};
use crate::unit::{
    ApplicationState,
    Definition,
    Instance,
    InstanceId,
    RunState,
    spec_args,
    spec_instance_signature,
    spec_signature,
};

verus! {

/// Memoizes definition lookups: one filesystem resolution per unit name.
pub struct DefinitionCache {
    pub defs: Vec<Definition>,
    /// The probe transcript of the most recent lookup: empty when the name
    /// was answered from the cache, the full search otherwise.
    pub last_search: Ghost<Seq<(Seq<char>, FileStat)>>,
}

impl DefinitionCache {
    /// Stored definitions have pairwise distinct names.
    pub open spec fn wf(self) -> bool {
        forall|i: int, j: int|
            0 <= i < j < self.defs@.len() ==> self.defs@[i].name@ != self.defs@[j].name@
    }

    /// Whether some stored definition bears this name.
    pub open spec fn spec_has_name(self, name: Seq<char>) -> bool {
        exists|j: int| 0 <= j < self.defs@.len() && self.defs@[j].name@ == name
    }

    pub fn new() -> (c: DefinitionCache)
        ensures
            c.wf(),
            c.defs@.len() == 0,
    {
        DefinitionCache { defs: Vec::new(), last_search: Ghost(Seq::empty()) }
    }

    /// Returns the index of the definition for `unit_name`, loading and
    /// storing it on first reference.  A cached name is answered
    /// successfully, without touching the filesystem and without changing
    /// the cache; otherwise one search runs and its transcript pins the
    /// outcome, so failure comes exactly when that one search fails.
    pub fn get<P: FsProbe>(
        &mut self,
        unit_name: &str,
        directories: &Vec<String>,
        probe: &mut P,
    ) -> (r: Result<usize, Error>)
        requires
            old(self).wf(),
        ensures
            final(self).wf(),
            old(self).defs@.len() <= final(self).defs@.len(),
            forall|j: int|
                0 <= j < old(self).defs@.len() ==> final(self).defs@[j] == old(self).defs@[j],
            old(self).spec_has_name(unit_name@) ==> r is Ok && final(self).defs@ == old(
                self,
            ).defs@ && final(self).last_search@ == Seq::<(Seq<char>, FileStat)>::empty(),
            !old(self).spec_has_name(unit_name@) ==> match r {
                Ok(idx) => spec_unit_search(
                    seq_views(directories@),
                    unit_name@,
                    final(self).last_search@,
                    Ok(final(self).defs@[idx as int]),
                ),
                Err(e) => spec_unit_search(
                    seq_views(directories@),
                    unit_name@,
                    final(self).last_search@,
                    Err(e),
                ),
            },
            match r {
                Ok(idx) => {
                    &&& idx < final(self).defs@.len()
                    &&& final(self).defs@[idx as int].name@ == unit_name@
                    &&& old(self).spec_has_name(unit_name@) ==> final(self).defs@ == old(
                        self,
                    ).defs@
                    &&& !old(self).spec_has_name(unit_name@) ==> {
                        &&& final(self).defs@.len() == old(self).defs@.len() + 1
                        &&& idx == old(self).defs@.len()
                    }
                },
                Err(_) => {
                    &&& final(self).defs@ == old(self).defs@
                    &&& !old(self).spec_has_name(unit_name@)
                },
            },
    {
        let n = self.defs.len();
        let mut i: usize = 0;
        while i < n
            invariant
                i <= n,
                n == self.defs@.len(),
                old(self).wf(),
                self.defs@ == old(self).defs@,
                forall|j: int| 0 <= j < i ==> self.defs@[j].name@ != unit_name@,
            decreases n - i,
        {
            if str_eq(self.defs[i].name.as_str(), unit_name) {
                self.last_search = Ghost(Seq::empty());
                return Ok(i);
            }
            i = i + 1;
        }
        let (loaded, transcript) = load_unit(unit_name, directories, probe);
        self.last_search = Ghost(transcript@);
        match loaded {
            Ok(d) => {
                let idx = self.defs.len();
                self.defs.push(d);
                Ok(idx)
            },
            Err(e) => Err(e),
        }
    }
}

/// Memoizes instances: at most one logical `Instance` per distinct
/// signature per run, handed out as an index into the arena.
pub struct InstanceCache {
    pub instances: Vec<Instance>,
    pub signatures: Vec<String>,
    pub definition_cache: DefinitionCache,
    /// The probe transcript of the most recent lookup: empty unless the
    /// lookup had to search the filesystem for a new definition.
    pub last_search: Ghost<Seq<(Seq<char>, FileStat)>>,
}

impl InstanceCache {
    /// The cache invariant: one stored signature per instance, each the
    /// instance's own content signature, pairwise distinct; and every
    /// instance's definition index points at the definition of its unit.
    pub open spec fn wf(self) -> bool {
        &&& self.signatures@.len() == self.instances@.len()
        &&& forall|j: int|
            0 <= j < self.instances@.len() ==> self.signatures@[j]@ == spec_instance_signature(
                #[trigger] self.instances@[j],
            )
        &&& forall|i: int, j: int|
            0 <= i < j < self.instances@.len() ==> self.signatures@[i]@ != self.signatures@[j]@
        &&& self.definition_cache.wf()
        &&& forall|j: int|
            0 <= j < self.instances@.len() ==> {
                &&& #[trigger] self.instances@[j].definition
                    < self.definition_cache.defs@.len()
                &&& self.definition_cache.defs@[self.instances@[j].definition as int].name@
                    == self.instances@[j].id.name@
            }
    }

    /// Whether some cached instance bears this signature.
    pub open spec fn spec_has_signature(self, sig: Seq<char>) -> bool {
        exists|j: int|
            0 <= j < self.instances@.len() && spec_instance_signature(
                #[trigger] self.instances@[j],
            ) == sig
    }

    pub fn new() -> (c: InstanceCache)
        ensures
            c.wf(),
            c.instances@.len() == 0,
            c.definition_cache.defs@.len() == 0,
    {
        InstanceCache {
            instances: Vec::new(),
            signatures: Vec::new(),
            definition_cache: DefinitionCache::new(),
            last_search: Ghost(Seq::empty()),
        }
    }

    /// Creates-or-returns: the index of the one instance bearing the
    /// signature of `instance_id`.  A cached signature is answered
    /// successfully with the existing instance and the cache is left
    /// untouched, so every parent that depends on the same
    /// (unit, arguments) pair shares one instance; failure comes only when
    /// a new instance's definition must be searched for and that one
    /// search — recorded in `last_search` — fails.
    pub fn get<P: FsProbe>(
        &mut self,
        instance_id: InstanceId,
        directories: &Vec<String>,
        probe: &mut P,
    ) -> (r: Result<usize, Error>)
        requires
            old(self).wf(),
        ensures
            final(self).wf(),
            old(self).instances@.len() <= final(self).instances@.len(),
            forall|j: int|
                0 <= j < old(self).instances@.len() ==> final(self).instances@[j] == old(
                    self,
                ).instances@[j],
            old(self).spec_has_signature(
                spec_signature(instance_id.name@, spec_args(instance_id.args.vec@)),
            ) ==> r is Ok,
            old(self).definition_cache.spec_has_name(instance_id.name@) ==> r is Ok
                && final(self).last_search@ == Seq::<(Seq<char>, FileStat)>::empty(),
            match r {
                Ok(idx) => {
                    &&& idx < final(self).instances@.len()
                    &&& spec_instance_signature(final(self).instances@[idx as int])
                        == spec_signature(instance_id.name@, spec_args(instance_id.args.vec@))
                    &&& old(self).spec_has_signature(
                        spec_signature(instance_id.name@, spec_args(instance_id.args.vec@)),
                    ) ==> {
                        &&& final(self).instances@ == old(self).instances@
                        &&& final(self).definition_cache.defs@ == old(
                            self,
                        ).definition_cache.defs@
                        &&& idx < old(self).instances@.len()
                    }
                    &&& !old(self).spec_has_signature(
                        spec_signature(instance_id.name@, spec_args(instance_id.args.vec@)),
                    ) ==> {
                        &&& final(self).instances@.len() == old(self).instances@.len() + 1
                        &&& idx == old(self).instances@.len()
                        &&& final(self).instances@[idx as int].id == instance_id
                        &&& final(self).instances@[idx as int].run_state is Init
                        &&& final(self).instances@[idx as int].application_state is Unknown
                    }
                },
                Err(e) => {
                    &&& final(self).instances@ == old(self).instances@
                    &&& final(self).definition_cache.defs@ == old(self).definition_cache.defs@
                    &&& !old(self).spec_has_signature(
                        spec_signature(instance_id.name@, spec_args(instance_id.args.vec@)),
                    )
                    &&& !old(self).definition_cache.spec_has_name(instance_id.name@)
                    &&& spec_unit_search(
                        seq_views(directories@),
                        instance_id.name@,
                        final(self).last_search@,
                        Err(e),
                    )
                },
            },
    {
        let signature = instance_id.signature();
        let n = self.instances.len();
        let mut i: usize = 0;
        while i < n
            invariant
                i <= n,
                n == self.instances@.len(),
                *self == *old(self),
                old(self).wf(),
                signature@ == spec_signature(instance_id.name@, spec_args(instance_id.args.vec@)),
                forall|j: int| 0 <= j < i ==> self.signatures@[j]@ != signature@,
            decreases n - i,
        {
            if str_eq(self.signatures[i].as_str(), signature.as_str()) {
                self.last_search = Ghost(Seq::empty());
                return Ok(i);
            }
            i = i + 1;
        }
        let definition = match self.definition_cache.get(
            instance_id.name.as_str(),
            directories,
            probe,
        ) {
            Ok(d) => d,
            Err(e) => {
                self.last_search = Ghost(self.definition_cache.last_search@);
                return Err(e);
            },
        };
        self.last_search = Ghost(self.definition_cache.last_search@);
        let instance = Instance::new(definition, instance_id);
        let idx = self.instances.len();
        self.instances.push(instance);
        self.signatures.push(signature);
        Ok(idx)
    }
}

impl InstanceCache {
    /// Sets the traversal marker of one instance; its identity — id,
    /// definition, application state — stays untouched.
    pub fn set_state(&mut self, idx: usize, run_state: RunState)
        requires
            old(self).wf(),
            idx < old(self).instances@.len(),
        ensures
            final(self).wf(),
            final(self).instances@.len() == old(self).instances@.len(),
            forall|j: int|
                0 <= j < old(self).instances@.len() && j != idx ==> final(self).instances@[j]
                    == old(self).instances@[j],
            final(self).instances@[idx as int].run_state == run_state,
            final(self).instances@[idx as int].id == old(self).instances@[idx as int].id,
            final(self).instances@[idx as int].definition == old(self).instances@[
                idx as int
            ].definition,
            final(self).instances@[idx as int].application_state == old(self).instances@[
                idx as int
            ].application_state,
            final(self).signatures@ == old(self).signatures@,
            final(self).definition_cache.defs@ == old(self).definition_cache.defs@,
    {
        let slot = &mut self.instances[idx];
        slot.run_state = run_state;
        proof {
            assert(spec_instance_signature(self.instances@[idx as int])
                == spec_instance_signature(old(self).instances@[idx as int]));
        }
    }

    /// Records what a `check` run found out about one instance; its
    /// identity and traversal marker stay untouched.
    pub fn set_application_state(&mut self, idx: usize, application_state: ApplicationState)
        requires
            old(self).wf(),
            idx < old(self).instances@.len(),
        ensures
            final(self).wf(),
            final(self).instances@.len() == old(self).instances@.len(),
            forall|j: int|
                0 <= j < old(self).instances@.len() && j != idx ==> final(self).instances@[j]
                    == old(self).instances@[j],
            final(self).instances@[idx as int].application_state == application_state,
            final(self).instances@[idx as int].id == old(self).instances@[idx as int].id,
            final(self).instances@[idx as int].definition == old(self).instances@[
                idx as int
            ].definition,
            final(self).instances@[idx as int].run_state == old(self).instances@[
                idx as int
            ].run_state,
            final(self).signatures@ == old(self).signatures@,
            final(self).definition_cache.defs@ == old(self).definition_cache.defs@,
    {
        let slot = &mut self.instances[idx];
        slot.application_state = application_state;
        proof {
            assert(spec_instance_signature(self.instances@[idx as int])
                == spec_instance_signature(old(self).instances@[idx as int]));
        }
    }
}

/// At most one logical instance exists per distinct signature: two cache
/// slots bearing the same signature are the same slot.
pub proof fn lemma_instance_unique(c: InstanceCache, i: int, j: int)
    requires
        c.wf(),
        0 <= i < c.instances@.len(),
        0 <= j < c.instances@.len(),
        spec_instance_signature(c.instances@[i]) == spec_instance_signature(c.instances@[j]),
    ensures
        i == j,
{
}

} // verus!
