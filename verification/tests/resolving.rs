//! Dependency resolution: dependency-first ordering, cycle detection, and
//! the `deps` output grammar, driven by a scripted executor.

use sysunit::error::Error;
use sysunit::execution::{Execution, Executor};
use sysunit::operation::Operation;
use sysunit::resolver::{parse_dependency, Resolver};
use sysunit::resolver::loader::{FileStat, FsProbe};
use sysunit::unit::{Definition, Instance};

struct AllExecutable;

impl FsProbe for AllExecutable {
    fn stat(&mut self, _path: &String) -> FileStat {
        FileStat::ExecutableFile
    }
}

/// Answers each `deps` run from a script of (unit name, stdout) pairs.
struct DepsScript {
    deps: Vec<(String, String)>,
}

impl DepsScript {
    fn stdout_for(&self, name: &str) -> String {
        self.deps
            .iter()
            .find(|(n, _)| n == name)
            .map(|(_, out)| out.clone())
            .unwrap_or_default()
    }
}

impl Executor for DepsScript {
    fn init(&mut self) -> Result<(), Error> {
        Ok(())
    }

    fn execute(
        &mut self,
        unit: &Instance,
        _definition: &Definition,
        operation: Operation,
    ) -> Result<Execution, Error> {
        let stdout = match operation {
            Operation::Deps => self.stdout_for(&unit.id.name),
            _ => String::new(),
        };
        Ok(Execution {
            unit_name: unit.id.name.clone(),
            exit_code: 0,
            stdout,
            stderr: String::new(),
        })
    }
}

fn search_dirs() -> Vec<String> {
    vec!["units".to_string()]
}

fn script(entries: &[(&str, &str)]) -> DepsScript {
    DepsScript { deps: entries.iter().map(|(n, o)| (n.to_string(), o.to_string())).collect() }
}

fn resolved_names(resolver: &Resolver) -> Vec<String> {
    resolver
        .ordered_instances
        .iter()
        .map(|&i| resolver.instance_cache.instances[i].id.name.clone())
        .collect()
}

#[test]
fn chain_resolves_dependency_first() {
    let mut executor = script(&[("a", "b\n"), ("b", "c\n"), ("c", "")]);
    let mut probe = AllExecutable;
    let mut resolver = Resolver::new(search_dirs());
    resolver.resolve(&mut executor, &mut probe, "a", "").unwrap();
    assert_eq!(resolved_names(&resolver), vec!["c", "b", "a"]);
}

#[test]
fn cycle_is_reported_with_a_unit_name() {
    let mut executor = script(&[("a", "b\n"), ("b", "a\n")]);
    let mut probe = AllExecutable;
    let mut resolver = Resolver::new(search_dirs());
    let err = resolver.resolve(&mut executor, &mut probe, "a", "").unwrap_err();
    assert!(err.msg.starts_with("Circular dependency on "));
    assert!(err.msg.contains('a') || err.msg.contains('b'));
}

#[test]
fn shared_dependency_is_visited_once() {
    let mut executor = script(&[("a", "b\nc\n"), ("b", "d\n"), ("c", "d\n"), ("d", "")]);
    let mut probe = AllExecutable;
    let mut resolver = Resolver::new(search_dirs());
    resolver.resolve(&mut executor, &mut probe, "a", "").unwrap();
    assert_eq!(resolved_names(&resolver), vec!["d", "b", "c", "a"]);
}

#[test]
fn dependency_arguments_make_distinct_instances() {
    let mut executor = script(&[("a", "b:x=1\nb:x=2\n"), ("b", "")]);
    let mut probe = AllExecutable;
    let mut resolver = Resolver::new(search_dirs());
    resolver.resolve(&mut executor, &mut probe, "a", "").unwrap();
    assert_eq!(resolved_names(&resolver), vec!["b", "b", "a"]);
    assert_eq!(resolver.instance_cache.instances.len(), 3);
}

#[test]
fn blank_dependency_lines_are_ignored() {
    let mut executor = script(&[("a", "\nb\n\n"), ("b", "")]);
    let mut probe = AllExecutable;
    let mut resolver = Resolver::new(search_dirs());
    resolver.resolve(&mut executor, &mut probe, "a", "").unwrap();
    assert_eq!(resolved_names(&resolver), vec!["b", "a"]);
}

#[test]
fn failed_deps_run_is_a_hard_error() {
    struct FailingDeps;
    impl Executor for FailingDeps {
        fn init(&mut self) -> Result<(), Error> {
            Ok(())
        }

        fn execute(
            &mut self,
            unit: &Instance,
            _definition: &Definition,
            _operation: Operation,
        ) -> Result<Execution, Error> {
            Ok(Execution {
                unit_name: unit.id.name.clone(),
                exit_code: 3,
                stdout: String::new(),
                stderr: "boom".to_string(),
            })
        }
    }
    let mut executor = FailingDeps;
    let mut probe = AllExecutable;
    let mut resolver = Resolver::new(search_dirs());
    let err = resolver.resolve(&mut executor, &mut probe, "a", "").unwrap_err();
    assert_eq!(err.msg, "Unit a deps exited with 3: boom");
}

#[test]
fn parse_dependency_accepts_bare_names_and_one_colon() {
    let bare = parse_dependency("parent", "leaf").unwrap();
    assert_eq!(bare.name, "leaf");
    assert_eq!(bare.args.vec.len(), 0);

    let with_args = parse_dependency("parent", "leaf:x=1,y=2").unwrap();
    assert_eq!(with_args.name, "leaf");
    assert_eq!(with_args.args.vec.len(), 2);

    let err = parse_dependency("parent", "a:b:c").unwrap_err();
    assert!(err.msg.contains("parent"));
    assert!(err.msg.contains("a:b:c"));
}
