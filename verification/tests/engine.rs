//! Engine orchestration: classification of `check` outcomes and the
//! check-before-mutate policy of `apply` and `rollback`.

use sysunit::engine::{run, Engine, Report};
use sysunit::error::Error;
use sysunit::execution::{Execution, Executor};
use sysunit::operation::Operation;
use sysunit::resolver::Resolver;
use sysunit::resolver::loader::{FileStat, FsProbe};
use sysunit::unit::{ApplicationState, Definition, Instance};

struct AllExecutable;

impl FsProbe for AllExecutable {
    fn stat(&mut self, _path: &String) -> FileStat {
        FileStat::ExecutableFile
    }
}

/// Scripted units: per unit name, the `deps` stdout and the `check`
/// outcome (stdout, exit code).  Every dispatched call is logged.
struct UnitScript {
    deps: Vec<(String, String)>,
    checks: Vec<(String, String, i32)>,
    log: Vec<(String, Operation)>,
}

impl UnitScript {
    fn new(deps: &[(&str, &str)], checks: &[(&str, &str, i32)]) -> UnitScript {
        UnitScript {
            deps: deps.iter().map(|(n, o)| (n.to_string(), o.to_string())).collect(),
            checks: checks
                .iter()
                .map(|(n, o, c)| (n.to_string(), o.to_string(), *c))
                .collect(),
            log: Vec::new(),
        }
    }
}

impl Executor for UnitScript {
    fn init(&mut self) -> Result<(), Error> {
        Ok(())
    }

    fn execute(
        &mut self,
        unit: &Instance,
        _definition: &Definition,
        operation: Operation,
    ) -> Result<Execution, Error> {
        self.log.push((unit.id.name.clone(), operation));
        let (stdout, exit_code) = match operation {
            Operation::Deps => (
                self.deps
                    .iter()
                    .find(|(n, _)| *n == unit.id.name)
                    .map(|(_, o)| o.clone())
                    .unwrap_or_default(),
                0,
            ),
            Operation::Check => self
                .checks
                .iter()
                .find(|(n, _, _)| *n == unit.id.name)
                .map(|(_, o, c)| (o.clone(), *c))
                .unwrap_or(("ok\n".to_string(), 0)),
            _ => (String::new(), 0),
        };
        Ok(Execution { unit_name: unit.id.name.clone(), exit_code, stdout, stderr: String::new() })
    }
}

fn resolved_engine(executor: &mut UnitScript, root: &str, operation: Operation) -> Engine {
    let mut probe = AllExecutable;
    let mut resolver = Resolver::new(vec!["units".to_string()]);
    resolver.resolve(executor, &mut probe, root, "").unwrap();
    Engine::new(resolver, operation)
}

fn state_of(engine: &Engine, name: &str) -> ApplicationState {
    let cache = &engine.resolver.instance_cache;
    let inst = cache.instances.iter().find(|i| i.id.name == name).unwrap();
    inst.application_state.clone()
}

#[test]
fn check_classifies_ok_as_applied() {
    let mut executor = UnitScript::new(&[("leaf", "")], &[("leaf", "ok\n", 0)]);
    let mut engine = resolved_engine(&mut executor, "leaf", Operation::Check);
    let mut reports: Vec<Report> = Vec::new();
    engine.check(&mut executor, true, &mut reports).unwrap();
    assert!(matches!(state_of(&engine, "leaf"), ApplicationState::Applied));
    assert_eq!(reports.len(), 1);
    assert_eq!(reports[0].operation, Operation::Check);
}

#[test]
fn check_classifies_anything_else_as_not_applied_with_the_reason() {
    let mut executor = UnitScript::new(&[("leaf", "")], &[("leaf", "drift detected\n", 1)]);
    let mut engine = resolved_engine(&mut executor, "leaf", Operation::Check);
    let mut reports: Vec<Report> = Vec::new();
    engine.check(&mut executor, false, &mut reports).unwrap();
    match state_of(&engine, "leaf") {
        ApplicationState::NotApplied(reason) => assert_eq!(reason, "drift detected"),
        other => panic!("expected NotApplied, got {:?}", other),
    }
    assert!(reports.is_empty());
}

#[test]
fn apply_acts_only_on_instances_not_applied() {
    // `leaf` conforms, `root` does not: exactly one apply runs, on `root`.
    let mut executor = UnitScript::new(
        &[("root", "leaf:x=1\n"), ("leaf", "")],
        &[("root", "no\n", 1), ("leaf", "ok\n", 0)],
    );
    let mut engine = resolved_engine(&mut executor, "root", Operation::Apply);
    let mut reports: Vec<Report> = Vec::new();
    engine.run(&mut executor, &mut reports).unwrap();
    assert_eq!(reports.len(), 1);
    assert_eq!(reports[0].operation, Operation::Apply);
    assert_eq!(reports[0].execution.unit_name, "root");
    let applies: Vec<&(String, Operation)> =
        executor.log.iter().filter(|(_, op)| *op == Operation::Apply).collect();
    assert_eq!(applies.len(), 1);
    assert_eq!(applies[0].0, "root");
}

#[test]
fn rollback_invokes_the_rollback_action_on_applied_instances() {
    let mut executor = UnitScript::new(
        &[("root", "leaf\n"), ("leaf", "")],
        &[("root", "no\n", 1), ("leaf", "ok\n", 0)],
    );
    let mut engine = resolved_engine(&mut executor, "root", Operation::Rollback);
    let mut reports: Vec<Report> = Vec::new();
    engine.run(&mut executor, &mut reports).unwrap();
    assert_eq!(reports.len(), 1);
    assert_eq!(reports[0].operation, Operation::Rollback);
    assert_eq!(reports[0].execution.unit_name, "leaf");
    let rollbacks: Vec<&(String, Operation)> =
        executor.log.iter().filter(|(_, op)| *op == Operation::Rollback).collect();
    assert_eq!(rollbacks.len(), 1);
    assert_eq!(rollbacks[0].0, "leaf");
}

#[test]
fn check_reports_every_instance() {
    let mut executor = UnitScript::new(
        &[("root", "leaf\n"), ("leaf", "")],
        &[("root", "no\n", 1), ("leaf", "ok\n", 0)],
    );
    let mut engine = resolved_engine(&mut executor, "root", Operation::Check);
    let mut reports: Vec<Report> = Vec::new();
    engine.run(&mut executor, &mut reports).unwrap();
    assert_eq!(reports.len(), 2);
    assert_eq!(reports[0].execution.unit_name, "leaf");
    assert_eq!(reports[1].execution.unit_name, "root");
}

#[test]
fn deps_is_rejected_as_a_top_level_operation() {
    let mut executor = UnitScript::new(&[("leaf", "")], &[]);
    let mut probe = AllExecutable;
    let mut reports: Vec<Report> = Vec::new();
    let err = run(
        "leaf",
        "deps",
        "",
        vec!["units".to_string()],
        &mut executor,
        &mut probe,
        &mut reports,
    )
    .unwrap_err();
    assert_eq!(err.msg, "deps is not a supported top-level operation");
}

#[test]
fn end_to_end_apply_resolves_checks_and_applies_once() {
    let mut executor = UnitScript::new(
        &[("root", "leaf:x=1\n"), ("leaf", "")],
        &[("root", "no\n", 1), ("leaf", "ok\n", 0)],
    );
    let mut probe = AllExecutable;
    let mut reports: Vec<Report> = Vec::new();
    run(
        "root",
        "apply",
        "",
        vec!["units".to_string()],
        &mut executor,
        &mut probe,
        &mut reports,
    )
    .unwrap();
    // The order was dependency-first: leaf's deps ran before root was
    // completed; both were checked; exactly one apply ran, on root.
    assert_eq!(reports.len(), 1);
    assert_eq!(reports[0].operation, Operation::Apply);
    assert_eq!(reports[0].execution.unit_name, "root");
    let checks: Vec<&(String, Operation)> =
        executor.log.iter().filter(|(_, op)| *op == Operation::Check).collect();
    assert_eq!(checks.len(), 2);
    assert_eq!(checks[0].0, "leaf");
    assert_eq!(checks[1].0, "root");
}

#[test]
fn a_failing_execution_aborts_the_remaining_instances() {
    // `mid` depends on `leaf`, `top` depends on `mid`; the check of `mid`
    // cannot be run at all, so `top` is never checked.
    struct FailOnMid {
        log: Vec<(String, Operation)>,
    }
    impl Executor for FailOnMid {
        fn init(&mut self) -> Result<(), Error> {
            Ok(())
        }

        fn execute(
            &mut self,
            unit: &Instance,
            _definition: &Definition,
            operation: Operation,
        ) -> Result<Execution, Error> {
            self.log.push((unit.id.name.clone(), operation));
            if operation == Operation::Check && unit.id.name == "mid" {
                return Err(Error::new("connection lost".to_string()));
            }
            let stdout = match (&operation, unit.id.name.as_str()) {
                (Operation::Deps, "top") => "mid\n",
                (Operation::Deps, "mid") => "leaf\n",
                (Operation::Check, _) => "ok\n",
                _ => "",
            };
            Ok(Execution {
                unit_name: unit.id.name.clone(),
                exit_code: 0,
                stdout: stdout.to_string(),
                stderr: String::new(),
            })
        }
    }
    let mut executor = FailOnMid { log: Vec::new() };
    let mut probe = AllExecutable;
    let mut resolver = Resolver::new(vec!["units".to_string()]);
    resolver.resolve(&mut executor, &mut probe, "top", "").unwrap();
    let mut engine = Engine::new(resolver, Operation::Check);
    let mut reports: Vec<Report> = Vec::new();
    let err = engine.check(&mut executor, true, &mut reports).unwrap_err();
    assert_eq!(err.msg, "connection lost");
    // The order was [leaf, mid, top]: leaf was checked and reported, mid's
    // dispatch failed, top was never dispatched.
    let checks: Vec<&(String, Operation)> =
        executor.log.iter().filter(|(_, op)| *op == Operation::Check).collect();
    assert_eq!(checks.len(), 2);
    assert_eq!(checks[0].0, "leaf");
    assert_eq!(checks[1].0, "mid");
    assert_eq!(reports.len(), 1);
    assert_eq!(reports[0].execution.unit_name, "leaf");
    assert!(matches!(state_of(&engine, "leaf"), ApplicationState::Applied));
    assert!(matches!(state_of(&engine, "top"), ApplicationState::Unknown));
}
