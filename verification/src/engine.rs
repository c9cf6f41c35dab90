//! Engine orchestration: drives the requested top-level operation over the
//! resolved, dependency-first instance list, applying the idempotency
//! policy — check before mutate.  `Check` classifies every instance;
//! `Apply` acts only on instances found not applied; `Rollback` invokes the
//! units' own rollback action only on instances found applied.

use vstd::prelude::*;

use crate::error::Error;
use crate::execution::{Execution, Executor};
use crate::operation::Operation;
use crate::resolver::Resolver;
use crate::resolver::loader::FsProbe;
use crate::text::{spec_trim_end, str_eq, trim_end_ws};
use crate::unit::{ApplicationState, Instance};

verus! {

/// One reported outcome: which operation ran and what it produced.
#[derive(Debug)]
pub struct Report {
    pub operation: Operation,
    pub execution: Execution,
}

/// A `check` run conforms exactly when its stdout, trimmed of trailing
/// whitespace, is the literal `ok`.
pub open spec fn spec_check_applied(stdout: Seq<char>) -> bool {
    spec_trim_end(stdout) == "ok"@
}

/// Classifies one `check` outcome: `Applied` for `ok`, otherwise
/// `NotApplied` carrying the trimmed output as the reason.
pub fn classify_check(stdout: &str) -> (r: ApplicationState)
    ensures
        spec_check_applied(stdout@) ==> r is Applied,
        !spec_check_applied(stdout@) ==> {
            &&& r matches ApplicationState::NotApplied(reason)
            &&& r matches ApplicationState::NotApplied(reason) ==> reason@ == spec_trim_end(
                stdout@,
            )
        },
{
    let trimmed = trim_end_ws(stdout);
    if str_eq(trimmed.as_str(), "ok") {
        ApplicationState::Applied
    } else {
        ApplicationState::NotApplied(trimmed)
    }
}

/// One executor call per listed instance, with the given operation.
pub open spec fn spec_calls_for(order: Seq<usize>, op: Operation) -> Seq<(int, Operation)> {
    order.map_values(|i: usize| (i as int, op))
}

/// The listed instances found `NotApplied`, in list order.
pub open spec fn spec_pending(insts: Seq<Instance>, order: Seq<usize>) -> Seq<usize>
    decreases order.len(),
{
    if order.len() == 0 {
        Seq::empty()
    } else {
        let rest = spec_pending(insts, order.drop_first());
        if insts[order[0] as int].application_state is NotApplied {
            seq![order[0]] + rest
        } else {
            rest
        }
    }
}

/// The listed instances found `Applied`, in list order.
pub open spec fn spec_applied(insts: Seq<Instance>, order: Seq<usize>) -> Seq<usize>
    decreases order.len(),
{
    if order.len() == 0 {
        Seq::empty()
    } else {
        let rest = spec_applied(insts, order.drop_first());
        if insts[order[0] as int].application_state is Applied {
            seq![order[0]] + rest
        } else {
            rest
        }
    }
}

/// How one appended element extends the `NotApplied` filter.
pub proof fn lemma_pending_push(insts: Seq<Instance>, order: Seq<usize>, x: usize)
    requires
        0 <= x < insts.len(),
    ensures
        insts[x as int].application_state is NotApplied ==> spec_pending(insts, order.push(x))
            == spec_pending(insts, order).push(x),
        !(insts[x as int].application_state is NotApplied) ==> spec_pending(
            insts,
            order.push(x),
        ) == spec_pending(insts, order),
    decreases order.len(),
{
    if order.len() == 0 {
        assert(order.push(x)[0] == x);
        assert(order.push(x).drop_first() =~= Seq::<usize>::empty());
        assert(spec_pending(insts, order.push(x).drop_first()) =~= Seq::<usize>::empty());
        assert(spec_pending(insts, order) =~= Seq::<usize>::empty());
        if insts[x as int].application_state is NotApplied {
            assert(spec_pending(insts, order.push(x)) =~= spec_pending(insts, order).push(x));
        } else {
            assert(spec_pending(insts, order.push(x)) =~= spec_pending(insts, order));
        }
    } else {
        assert(order.push(x)[0] == order[0]);
        assert(order.push(x).drop_first() =~= order.drop_first().push(x));
        lemma_pending_push(insts, order.drop_first(), x);
        if insts[x as int].application_state is NotApplied {
            assert(spec_pending(insts, order.push(x)) =~= spec_pending(insts, order).push(x));
        } else {
            assert(spec_pending(insts, order.push(x)) =~= spec_pending(insts, order));
        }
    }
}

/// How one appended element extends the `Applied` filter.
pub proof fn lemma_applied_push(insts: Seq<Instance>, order: Seq<usize>, x: usize)
    requires
        0 <= x < insts.len(),
    ensures
        insts[x as int].application_state is Applied ==> spec_applied(insts, order.push(x))
            == spec_applied(insts, order).push(x),
        !(insts[x as int].application_state is Applied) ==> spec_applied(insts, order.push(x))
            == spec_applied(insts, order),
    decreases order.len(),
{
    if order.len() == 0 {
        assert(order.push(x)[0] == x);
        assert(order.push(x).drop_first() =~= Seq::<usize>::empty());
        assert(spec_applied(insts, order.push(x).drop_first()) =~= Seq::<usize>::empty());
        assert(spec_applied(insts, order) =~= Seq::<usize>::empty());
        if insts[x as int].application_state is Applied {
            assert(spec_applied(insts, order.push(x)) =~= spec_applied(insts, order).push(x));
        } else {
            assert(spec_applied(insts, order.push(x)) =~= spec_applied(insts, order));
        }
    } else {
        assert(order.push(x)[0] == order[0]);
        assert(order.push(x).drop_first() =~= order.drop_first().push(x));
        lemma_applied_push(insts, order.drop_first(), x);
        if insts[x as int].application_state is Applied {
            assert(spec_applied(insts, order.push(x)) =~= spec_applied(insts, order).push(x));
        } else {
            assert(spec_applied(insts, order.push(x)) =~= spec_applied(insts, order));
        }
    }
}

/// Everything the `apply` pass selects was classified `NotApplied`: the
/// check-before-mutate policy never re-applies a conforming instance.
pub proof fn lemma_pending_selects_not_applied(insts: Seq<Instance>, order: Seq<usize>, k: int)
    requires
        0 <= k < spec_pending(insts, order).len(),
        forall|j: int| 0 <= j < order.len() ==> (#[trigger] order[j]) < insts.len(),
    ensures
        spec_pending(insts, order)[k] < insts.len(),
        insts[spec_pending(insts, order)[k] as int].application_state is NotApplied,
    decreases order.len(),
{
    let rest = order.drop_first();
    assert forall|j: int| 0 <= j < rest.len() implies (#[trigger] rest[j]) < insts.len() by {
        assert(rest[j] == order[j + 1]);
    }
    if insts[order[0] as int].application_state is NotApplied {
        if k > 0 {
            lemma_pending_selects_not_applied(insts, rest, k - 1);
        }
    } else {
        lemma_pending_selects_not_applied(insts, rest, k);
    }
}

/// Everything the `rollback` pass selects was classified `Applied`: only
/// instances found in the desired state are rolled back.
pub proof fn lemma_applied_selects_applied(insts: Seq<Instance>, order: Seq<usize>, k: int)
    requires
        0 <= k < spec_applied(insts, order).len(),
        forall|j: int| 0 <= j < order.len() ==> (#[trigger] order[j]) < insts.len(),
    ensures
        spec_applied(insts, order)[k] < insts.len(),
        insts[spec_applied(insts, order)[k] as int].application_state is Applied,
    decreases order.len(),
{
    let rest = order.drop_first();
    assert forall|j: int| 0 <= j < rest.len() implies (#[trigger] rest[j]) < insts.len() by {
        assert(rest[j] == order[j + 1]);
    }
    if insts[order[0] as int].application_state is Applied {
        if k > 0 {
            lemma_applied_selects_applied(insts, rest, k - 1);
        }
    } else {
        lemma_applied_selects_applied(insts, rest, k);
    }
}

/// An aborted `check` pass stopped after some prefix: exactly the first
/// `m` instances of the resolved order were dispatched and classified, and
/// the application states of the rest are untouched — fail-fast, no
/// partial continue.
pub open spec fn spec_check_aborted(pre: Engine, post: Engine, m: int) -> bool {
    let ord = pre.resolver.ordered_instances@;
    &&& 0 <= m <= ord.len()
    &&& post.calls@ == pre.calls@ + spec_calls_for(ord.subrange(0, m), Operation::Check)
    &&& forall|k: int|
        0 <= k < m ==> post.spec_classified_at((#[trigger] ord[k]) as int)
    &&& forall|k: int|
        m <= k < ord.len() ==> post.resolver.instance_cache.instances@[(
        #[trigger] ord[k]) as int].application_state
            == pre.resolver.instance_cache.instances@[ord[k] as int].application_state
}

/// An aborted acting pass stopped after some prefix: exactly the selected
/// instances among the first `m` of the resolved order were dispatched
/// with `op`, and nothing further ran.
pub open spec fn spec_act_aborted(
    pre: Engine,
    post: Engine,
    op: Operation,
    on_applied: bool,
    m: int,
) -> bool {
    let ord = pre.resolver.ordered_instances@;
    let insts = post.resolver.instance_cache.instances@;
    &&& 0 <= m <= ord.len()
    &&& post.calls@ == pre.calls@ + spec_calls_for(
        if on_applied {
            spec_applied(insts, ord.subrange(0, m))
        } else {
            spec_pending(insts, ord.subrange(0, m))
        },
        op,
    )
}

/// A run aborted during its acting pass: the full silent `check` pass ran,
/// then the acting pass stopped after some prefix.
pub open spec fn spec_run_aborted_acting(
    pre: Engine,
    post: Engine,
    op: Operation,
    on_applied: bool,
    m: int,
) -> bool {
    let ord = pre.resolver.ordered_instances@;
    let insts = post.resolver.instance_cache.instances@;
    &&& 0 <= m <= ord.len()
    &&& post.calls@ == pre.calls@ + spec_calls_for(ord, Operation::Check) + spec_calls_for(
        if on_applied {
            spec_applied(insts, ord.subrange(0, m))
        } else {
            spec_pending(insts, ord.subrange(0, m))
        },
        op,
    )
}

/// Composes an aborted acting pass with the completed silent `check` pass
/// before it, and carries the classifications across the acting pass.
pub proof fn lemma_run_aborted_acting(
    pre: Engine,
    mid: Engine,
    post: Engine,
    op: Operation,
    on_applied: bool,
)
    requires
        mid.all_classified(),
        mid.calls@ == pre.calls@ + spec_calls_for(
            pre.resolver.ordered_instances@,
            Operation::Check,
        ),
        mid.resolver.ordered_instances@ == pre.resolver.ordered_instances@,
        post.resolver == mid.resolver,
        post.checks@ == mid.checks@,
        exists|m: int| #[trigger] spec_act_aborted(mid, post, op, on_applied, m),
    ensures
        post.all_classified(),
        exists|m: int| #[trigger] spec_run_aborted_acting(pre, post, op, on_applied, m),
{
    assert forall|k: int|
        0 <= k < post.resolver.ordered_instances@.len() implies post.spec_classified_at(
        (#[trigger] post.resolver.ordered_instances@[k]) as int,
    ) by {
        assert(mid.spec_classified_at(mid.resolver.ordered_instances@[k] as int));
    }
    let m = choose|m: int| #[trigger] spec_act_aborted(mid, post, op, on_applied, m);
    assert(spec_run_aborted_acting(pre, post, op, on_applied, m));
}

/// Drives one top-level operation over a resolved instance list.  Owns the
/// resolver whose cache holds the instances; every executor call made is
/// recorded in the ghost `calls` ledger, and every classified `check`
/// output in `checks`.
pub struct Engine {
    pub resolver: Resolver,
    pub operation: Operation,
    /// Every execution this engine dispatched: instance index and
    /// operation, in dispatch order.
    pub calls: Ghost<Seq<(int, Operation)>>,
    /// The `check` stdout each instance was last classified from.
    pub checks: Ghost<Map<int, Seq<char>>>,
}

impl Engine {
    pub open spec fn wf(self) -> bool {
        self.resolver.wf()
    }

    /// Instance `i` holds the verdict of its recorded `check` output.
    pub open spec fn spec_classified_at(self, i: int) -> bool {
        let inst = self.resolver.instance_cache.instances@[i];
        &&& self.checks@.contains_key(i)
        &&& inst.application_state is Applied <==> spec_check_applied(self.checks@[i])
        &&& inst.application_state matches ApplicationState::NotApplied(reason) ==> reason@
            == spec_trim_end(self.checks@[i])
        &&& !(inst.application_state is Unknown)
    }

    /// The instances of the resolved order, classified: each holds the
    /// verdict of its recorded `check` output.
    pub open spec fn all_classified(self) -> bool {
        forall|k: int|
            0 <= k < self.resolver.ordered_instances@.len() ==> self.spec_classified_at(
                (#[trigger] self.resolver.ordered_instances@[k]) as int,
            )
    }

    pub fn new(resolver: Resolver, operation: Operation) -> (e: Engine)
        requires
            resolver.wf(),
        ensures
            e.wf(),
            e.resolver == resolver,
            e.operation == operation,
            e.calls@ == Seq::<(int, Operation)>::empty(),
    {
        Engine { resolver, operation, calls: Ghost(Seq::empty()), checks: Ghost(Map::empty()) }
    }

    /// Runs `check` against every instance in resolved order and classifies
    /// each one; with `report` set, each execution is reported.  Aborts on
    /// the first instance whose execution fails.
    pub fn check<E: Executor>(
        &mut self,
        executor: &mut E,
        report: bool,
        reports: &mut Vec<Report>,
    ) -> (r: Result<(), Error>)
        requires
            old(self).wf(),
        ensures
            final(self).wf(),
            final(self).operation == old(self).operation,
            final(self).resolver.ordered_instances@ == old(self).resolver.ordered_instances@,
            final(self).resolver.instance_cache.instances@.len() == old(self).resolver.instance_cache.instances@.len(),
            old(reports)@.len() <= final(reports)@.len(),
            forall|k: int|
                0 <= k < old(reports)@.len() ==> final(reports)@[k] == old(reports)@[k],
            forall|k: int|
                old(reports)@.len() <= k < final(reports)@.len() ==> (#[trigger] final(reports)@[k]).operation is Check,
            !report ==> final(reports)@ == old(reports)@,
            r is Ok ==> {
                &&& final(self).all_classified()
                &&& final(self).calls@ == old(self).calls@ + spec_calls_for(
                    old(self).resolver.ordered_instances@,
                    Operation::Check,
                )
                &&& report ==> final(reports)@.len() == old(reports)@.len() + old(self).resolver.ordered_instances@.len()
            },
            r is Err ==> exists|m: int| #[trigger] spec_check_aborted(*old(self), *final(self), m),
    {
        let n = self.resolver.ordered_instances.len();
        let mut k: usize = 0;
        proof {
            assert(self.resolver.ordered_instances@.subrange(0, 0) =~= Seq::<usize>::empty());
            assert(spec_calls_for(Seq::<usize>::empty(), Operation::Check) =~= Seq::<
                (int, Operation),
            >::empty());
            assert(self.calls@ + Seq::<(int, Operation)>::empty() =~= self.calls@);
        }
        while k < n
            invariant
                k <= n,
                n == self.resolver.ordered_instances@.len(),
                self.wf(),
                self.operation == old(self).operation,
                self.resolver.ordered_instances@ == old(self).resolver.ordered_instances@,
                self.resolver.instance_cache.instances@.len() == old(self).resolver.instance_cache.instances@.len(),
                self.calls@ == old(self).calls@ + spec_calls_for(
                    self.resolver.ordered_instances@.subrange(0, k as int),
                    Operation::Check,
                ),
                forall|k2: int|
                    0 <= k2 < k ==> self.spec_classified_at(
                        (#[trigger] self.resolver.ordered_instances@[k2]) as int,
                    ),
                forall|k2: int|
                    k <= k2 < n ==> self.resolver.instance_cache.instances@[(
                    #[trigger] self.resolver.ordered_instances@[k2]) as int].application_state
                        == old(self).resolver.instance_cache.instances@[
                        self.resolver.ordered_instances@[k2] as int
                    ].application_state,
                old(reports)@.len() <= reports@.len(),
                forall|k2: int|
                    0 <= k2 < old(reports)@.len() ==> reports@[k2] == old(reports)@[k2],
                forall|k2: int|
                    old(reports)@.len() <= k2 < reports@.len() ==> (#[trigger] reports@[
                        k2
                    ]).operation is Check,
                report ==> reports@.len() == old(reports)@.len() + k,
                !report ==> reports@ == old(reports)@,
            decreases n - k,
        {
            let idx = self.resolver.ordered_instances[k];
            let def_idx = self.resolver.instance_cache.instances[idx].definition;
            let execution = match executor.execute(
                &self.resolver.instance_cache.instances[idx],
                &self.resolver.instance_cache.definition_cache.defs[def_idx],
                Operation::Check,
            ) {
                Ok(x) => x,
                Err(e) => {
                    proof {
                        assert(spec_check_aborted(*old(self), *self, k as int));
                    }
                    return Err(e);
                },
            };
            self.calls = Ghost(self.calls@.push((idx as int, Operation::Check)));
            proof {
                let ord = self.resolver.ordered_instances@;
                assert(ord.subrange(0, k + 1) =~= ord.subrange(0, k as int).push(idx));
                assert(spec_calls_for(ord.subrange(0, k + 1), Operation::Check) =~=
                    spec_calls_for(ord.subrange(0, k as int), Operation::Check).push(
                    (idx as int, Operation::Check),
                ));
                assert(old(self).calls@ + spec_calls_for(ord.subrange(0, k + 1), Operation::Check)
                    =~= self.calls@);
            }
            let state = classify_check(execution.stdout.as_str());
            let ghost pre = self.resolver;
            self.resolver.instance_cache.set_application_state(idx, state);
            self.checks = Ghost(self.checks@.insert(idx as int, execution.stdout@));
            proof {
                crate::resolver::lemma_recorded_stable(
                    self.resolver.deps_of@,
                    self.resolver.deps_text@,
                    pre.instance_cache.instances@,
                    self.resolver.instance_cache.instances@,
                );
                crate::resolver::lemma_traversal_stable(pre, self.resolver, -1);
                assert forall|k2: int|
                    0 <= k2 < k + 1 implies self.spec_classified_at(
                    (#[trigger] self.resolver.ordered_instances@[k2]) as int,
                ) by {
                    if k2 < k {
                        assert(self.resolver.ordered_instances@[k2]
                            != self.resolver.ordered_instances@[k as int]);
                    }
                }
                assert forall|k2: int|
                    k + 1 <= k2 < n implies self.resolver.instance_cache.instances@[(
                    #[trigger] self.resolver.ordered_instances@[k2]) as int].application_state
                        == old(self).resolver.instance_cache.instances@[
                        self.resolver.ordered_instances@[k2] as int
                    ].application_state by {
                    assert(self.resolver.ordered_instances@[k2]
                        != self.resolver.ordered_instances@[k as int]);
                }
            }
            if report {
                reports.push(Report { operation: Operation::Check, execution });
            }
            k = k + 1;
        }
        proof {
            assert(self.resolver.ordered_instances@.subrange(0, n as int)
                =~= self.resolver.ordered_instances@);
        }
        Ok(())
    }

    /// One acting pass: runs `op` against exactly the instances whose
    /// classification selects them, in resolved order, reporting each.
    fn act<E: Executor>(
        &mut self,
        executor: &mut E,
        op: Operation,
        on_applied: bool,
        reports: &mut Vec<Report>,
    ) -> (r: Result<(), Error>)
        requires
            old(self).wf(),
        ensures
            final(self).wf(),
            final(self).resolver == old(self).resolver,
            final(self).operation == old(self).operation,
            final(self).checks@ == old(self).checks@,
            old(reports)@.len() <= final(reports)@.len(),
            forall|k: int|
                0 <= k < old(reports)@.len() ==> final(reports)@[k] == old(reports)@[k],
            forall|k: int|
                old(reports)@.len() <= k < final(reports)@.len() ==> (#[trigger] final(reports)@[k]).operation == op,
            r is Ok ==> {
                &&& final(self).calls@ == old(self).calls@ + spec_calls_for(
                    if on_applied {
                        spec_applied(
                            old(self).resolver.instance_cache.instances@,
                            old(self).resolver.ordered_instances@,
                        )
                    } else {
                        spec_pending(
                            old(self).resolver.instance_cache.instances@,
                            old(self).resolver.ordered_instances@,
                        )
                    },
                    op,
                )
                &&& final(reports)@.len() == old(reports)@.len() + (if on_applied {
                    spec_applied(
                        old(self).resolver.instance_cache.instances@,
                        old(self).resolver.ordered_instances@,
                    ).len()
                } else {
                    spec_pending(
                        old(self).resolver.instance_cache.instances@,
                        old(self).resolver.ordered_instances@,
                    ).len()
                })
            },
            r is Err ==> exists|m: int| #[trigger] spec_act_aborted(
                *old(self),
                *final(self),
                op,
                on_applied,
                m,
            ),
    {
        let n = self.resolver.ordered_instances.len();
        let ghost insts = self.resolver.instance_cache.instances@;
        let ghost ord = self.resolver.ordered_instances@;
        let mut k: usize = 0;
        proof {
            assert(ord.subrange(0, 0) =~= Seq::<usize>::empty());
            assert(spec_pending(insts, Seq::<usize>::empty()) =~= Seq::<usize>::empty());
            assert(spec_applied(insts, Seq::<usize>::empty()) =~= Seq::<usize>::empty());
            assert(spec_calls_for(Seq::<usize>::empty(), op) =~= Seq::<(int, Operation)>::empty());
            assert(self.calls@ + Seq::<(int, Operation)>::empty() =~= self.calls@);
        }
        while k < n
            invariant
                k <= n,
                n == ord.len(),
                self.wf(),
                self.resolver == old(self).resolver,
                self.operation == old(self).operation,
                self.checks@ == old(self).checks@,
                insts == self.resolver.instance_cache.instances@,
                ord == self.resolver.ordered_instances@,
                self.calls@ == old(self).calls@ + spec_calls_for(
                    if on_applied {
                        spec_applied(insts, ord.subrange(0, k as int))
                    } else {
                        spec_pending(insts, ord.subrange(0, k as int))
                    },
                    op,
                ),
                old(reports)@.len() <= reports@.len(),
                forall|k2: int|
                    0 <= k2 < old(reports)@.len() ==> reports@[k2] == old(reports)@[k2],
                forall|k2: int|
                    old(reports)@.len() <= k2 < reports@.len() ==> (#[trigger] reports@[
                        k2
                    ]).operation == op,
                reports@.len() == old(reports)@.len() + (if on_applied {
                    spec_applied(insts, ord.subrange(0, k as int)).len()
                } else {
                    spec_pending(insts, ord.subrange(0, k as int)).len()
                }),
            decreases n - k,
        {
            let idx = self.resolver.ordered_instances[k];
            proof {
                assert(ord.subrange(0, k + 1) =~= ord.subrange(0, k as int).push(idx));
                lemma_pending_push(insts, ord.subrange(0, k as int), idx);
                lemma_applied_push(insts, ord.subrange(0, k as int), idx);
            }
            let selected = if on_applied {
                matches!(
                    &self.resolver.instance_cache.instances[idx].application_state,
                    ApplicationState::Applied
                )
            } else {
                matches!(
                    &self.resolver.instance_cache.instances[idx].application_state,
                    ApplicationState::NotApplied(_)
                )
            };
            if selected {
                let def_idx = self.resolver.instance_cache.instances[idx].definition;
                let execution = match executor.execute(
                    &self.resolver.instance_cache.instances[idx],
                    &self.resolver.instance_cache.definition_cache.defs[def_idx],
                    op,
                ) {
                    Ok(x) => x,
                    Err(e) => {
                        proof {
                            assert(spec_act_aborted(*old(self), *self, op, on_applied, k as int));
                        }
                        return Err(e);
                    },
                };
                self.calls = Ghost(self.calls@.push((idx as int, op)));
                proof {
                    let sel = if on_applied {
                        spec_applied(insts, ord.subrange(0, k + 1))
                    } else {
                        spec_pending(insts, ord.subrange(0, k + 1))
                    };
                    assert(spec_calls_for(sel, op) =~= spec_calls_for(
                        if on_applied {
                            spec_applied(insts, ord.subrange(0, k as int))
                        } else {
                            spec_pending(insts, ord.subrange(0, k as int))
                        },
                        op,
                    ).push((idx as int, op)));
                    assert(old(self).calls@ + spec_calls_for(sel, op) =~= self.calls@);
                }
                reports.push(Report { operation: op, execution });
            }
            k = k + 1;
        }
        proof {
            assert(ord.subrange(0, n as int) =~= ord);
        }
        Ok(())
    }

    /// Runs `apply` against exactly the instances classified `NotApplied`,
    /// in resolved order.
    pub fn apply<E: Executor>(
        &mut self,
        executor: &mut E,
        reports: &mut Vec<Report>,
    ) -> (r: Result<(), Error>)
        requires
            old(self).wf(),
        ensures
            final(self).wf(),
            final(self).resolver == old(self).resolver,
            final(self).operation == old(self).operation,
            final(self).checks@ == old(self).checks@,
            old(reports)@.len() <= final(reports)@.len(),
            forall|k: int|
                0 <= k < old(reports)@.len() ==> final(reports)@[k] == old(reports)@[k],
            forall|k: int|
                old(reports)@.len() <= k < final(reports)@.len() ==> (#[trigger] final(reports)@[k]).operation is Apply,
            r is Ok ==> {
                &&& final(self).calls@ == old(self).calls@ + spec_calls_for(
                    spec_pending(
                        old(self).resolver.instance_cache.instances@,
                        old(self).resolver.ordered_instances@,
                    ),
                    Operation::Apply,
                )
                &&& final(reports)@.len() == old(reports)@.len() + spec_pending(
                    old(self).resolver.instance_cache.instances@,
                    old(self).resolver.ordered_instances@,
                ).len()
            },
            r is Err ==> exists|m: int| #[trigger] spec_act_aborted(
                *old(self),
                *final(self),
                Operation::Apply,
                false,
                m,
            ),
    {
        self.act(executor, Operation::Apply, false, reports)
    }

    /// Runs the units' own `rollback` action against exactly the instances
    /// classified `Applied`, in resolved order.
    pub fn rollback<E: Executor>(
        &mut self,
        executor: &mut E,
        reports: &mut Vec<Report>,
    ) -> (r: Result<(), Error>)
        requires
            old(self).wf(),
        ensures
            final(self).wf(),
            final(self).resolver == old(self).resolver,
            final(self).operation == old(self).operation,
            final(self).checks@ == old(self).checks@,
            old(reports)@.len() <= final(reports)@.len(),
            forall|k: int|
                0 <= k < old(reports)@.len() ==> final(reports)@[k] == old(reports)@[k],
            forall|k: int|
                old(reports)@.len() <= k < final(reports)@.len() ==> (#[trigger] final(reports)@[k]).operation is Rollback,
            r is Ok ==> {
                &&& final(self).calls@ == old(self).calls@ + spec_calls_for(
                    spec_applied(
                        old(self).resolver.instance_cache.instances@,
                        old(self).resolver.ordered_instances@,
                    ),
                    Operation::Rollback,
                )
                &&& final(reports)@.len() == old(reports)@.len() + spec_applied(
                    old(self).resolver.instance_cache.instances@,
                    old(self).resolver.ordered_instances@,
                ).len()
            },
            r is Err ==> exists|m: int| #[trigger] spec_act_aborted(
                *old(self),
                *final(self),
                Operation::Rollback,
                true,
                m,
            ),
    {
        self.act(executor, Operation::Rollback, true, reports)
    }

    /// Runs the engine's top-level operation: `Check` reports every
    /// classification; `Apply` and `Rollback` first run a silent `check`
    /// pass and then act only on the instances their policy selects,
    /// reporting each action.  Any other operation is rejected before any
    /// execution.
    pub fn run<E: Executor>(
        &mut self,
        executor: &mut E,
        reports: &mut Vec<Report>,
    ) -> (r: Result<(), Error>)
        requires
            old(self).wf(),
        ensures
            final(self).wf(),
            old(reports)@.len() <= final(reports)@.len(),
            forall|k: int|
                0 <= k < old(reports)@.len() ==> final(reports)@[k] == old(reports)@[k],
            old(self).operation is Deps ==> r is Err && *final(self) == *old(self) && final(reports)@ == old(reports)@,
            r is Ok && old(self).operation is Check ==> {
                &&& final(self).all_classified()
                &&& final(self).calls@ == old(self).calls@ + spec_calls_for(
                    old(self).resolver.ordered_instances@,
                    Operation::Check,
                )
                &&& final(reports)@.len() == old(reports)@.len() + old(self).resolver.ordered_instances@.len()
                &&& forall|k: int|
                    old(reports)@.len() <= k < final(reports)@.len() ==> (#[trigger] final(reports)@[k]).operation is Check
            },
            r is Ok && old(self).operation is Apply ==> {
                &&& final(self).all_classified()
                &&& final(self).calls@ == old(self).calls@ + spec_calls_for(
                    old(self).resolver.ordered_instances@,
                    Operation::Check,
                ) + spec_calls_for(
                    spec_pending(
                        final(self).resolver.instance_cache.instances@,
                        final(self).resolver.ordered_instances@,
                    ),
                    Operation::Apply,
                )
                &&& final(reports)@.len() == old(reports)@.len() + spec_pending(
                    final(self).resolver.instance_cache.instances@,
                    final(self).resolver.ordered_instances@,
                ).len()
                &&& forall|k: int|
                    old(reports)@.len() <= k < final(reports)@.len() ==> (#[trigger] final(reports)@[k]).operation is Apply
            },
            r is Ok && old(self).operation is Rollback ==> {
                &&& final(self).all_classified()
                &&& final(self).calls@ == old(self).calls@ + spec_calls_for(
                    old(self).resolver.ordered_instances@,
                    Operation::Check,
                ) + spec_calls_for(
                    spec_applied(
                        final(self).resolver.instance_cache.instances@,
                        final(self).resolver.ordered_instances@,
                    ),
                    Operation::Rollback,
                )
                &&& final(reports)@.len() == old(reports)@.len() + spec_applied(
                    final(self).resolver.instance_cache.instances@,
                    final(self).resolver.ordered_instances@,
                ).len()
                &&& forall|k: int|
                    old(reports)@.len() <= k < final(reports)@.len() ==> (#[trigger] final(reports)@[k]).operation is Rollback
            },
            r is Err && old(self).operation is Check ==> exists|m: int| #[trigger]
                spec_check_aborted(*old(self), *final(self), m),
            r is Err && old(self).operation is Apply ==> (exists|m: int| #[trigger]
                spec_check_aborted(*old(self), *final(self), m)) || (final(self).all_classified() && exists|m: int| #[trigger] spec_run_aborted_acting(
                *old(self),
                *final(self),
                Operation::Apply,
                false,
                m,
            )),
            r is Err && old(self).operation is Rollback ==> (exists|m: int| #[trigger]
                spec_check_aborted(*old(self), *final(self), m)) || (final(self).all_classified() && exists|m: int| #[trigger] spec_run_aborted_acting(
                *old(self),
                *final(self),
                Operation::Rollback,
                true,
                m,
            )),
    {
        match self.operation {
            Operation::Check => self.check(executor, true, reports),
            Operation::Apply => {
                match self.check(executor, false, reports) {
                    Ok(u) => u,
                    Err(e) => {
                        return Err(e);
                    },
                };
                let ghost mid = *self;
                let acted = self.apply(executor, reports);
                proof {
                    if acted is Err {
                        lemma_run_aborted_acting(*old(self), mid, *self, Operation::Apply, false);
                    }
                }
                acted
            },
            Operation::Rollback => {
                match self.check(executor, false, reports) {
                    Ok(u) => u,
                    Err(e) => {
                        return Err(e);
                    },
                };
                let ghost mid = *self;
                let acted = self.rollback(executor, reports);
                proof {
                    if acted is Err {
                        lemma_run_aborted_acting(*old(self), mid, *self, Operation::Rollback, true);
                    }
                }
                acted
            },
            Operation::Deps => {
                let mut msg = String::from_str(Operation::Deps.to_str());
                msg.append(" is not a supported top-level operation");
                Err(Error::new(msg))
            },
        }
    }
}

/// The top-level entry: parses the operation name, initializes the
/// execution target once, resolves the named unit's dependency graph with
/// the given argument string, and drives the operation over the resolved
/// order, appending each reported outcome to `reports`.
pub fn run<E: Executor, P: FsProbe>(
    unit_name: &str,
    operation_name: &str,
    args_str: &str,
    directories: Vec<String>,
    executor: &mut E,
    probe: &mut P,
    reports: &mut Vec<Report>,
) -> (r: Result<(), Error>)
    ensures
        old(reports)@.len() <= final(reports)@.len(),
        forall|k: int| 0 <= k < old(reports)@.len() ==> final(reports)@[k] == old(reports)@[k],
        crate::operation::spec_operation_of(operation_name@) == Some(Operation::Deps) ==> r
            is Err,
        r is Ok ==> {
            &&& crate::operation::spec_operation_of(operation_name@) is Some
            &&& !(crate::operation::spec_operation_of(operation_name@) == Some(Operation::Deps))
            &&& crate::unit::spec_parse_args(args_str@) is Ok
        },
        r is Ok && crate::operation::spec_operation_of(operation_name@) == Some(
            Operation::Check,
        ) ==> forall|k: int|
            old(reports)@.len() <= k < final(reports)@.len() ==> (#[trigger] final(reports)@[k]).operation is Check,
        r is Ok && crate::operation::spec_operation_of(operation_name@) == Some(
            Operation::Apply,
        ) ==> forall|k: int|
            old(reports)@.len() <= k < final(reports)@.len() ==> (#[trigger] final(reports)@[k]).operation is Apply,
        r is Ok && crate::operation::spec_operation_of(operation_name@) == Some(
            Operation::Rollback,
        ) ==> forall|k: int|
            old(reports)@.len() <= k < final(reports)@.len() ==> (#[trigger] final(reports)@[k]).operation is Rollback,
{
    let operation = match Operation::from_str(operation_name) {
        Ok(op) => op,
        Err(e) => {
            return Err(e);
        },
    };
    match operation {
        Operation::Deps => {
            let mut msg = String::from_str(Operation::Deps.to_str());
            msg.append(" is not a supported top-level operation");
            return Err(Error::new(msg));
        },
        _ => {},
    }
    match executor.init() {
        Ok(u) => u,
        Err(e) => {
            return Err(e);
        },
    };
    let mut resolver = Resolver::new(directories);
    match resolver.resolve(executor, probe, unit_name, args_str) {
        Ok(u) => u,
        Err(e) => {
            return Err(e);
        },
    };
    let mut engine = Engine::new(resolver, operation);
    match engine.run(executor, reports) {
        Ok(u) => u,
        Err(e) => {
            return Err(e);
        },
    };
    Ok(())
}

} // verus!
