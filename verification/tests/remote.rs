//! The remote execution protocol's computations: staging paths, permission
//! masking, shell escaping, command lines, the staging cache, and report
//! line prefixing.

use std::borrow::Cow;

use sysunit::execution::remote::{
    env_assignments,
    remote_command,
    remote_path,
    shell_escape,
    staged_mode,
    StagingCache,
};
use sysunit::operation::Operation;
use sysunit::reporting::prefix_lines;
use sysunit::unit::{ArgSet, DefinitionType};

#[test]
fn remote_path_is_deterministic() {
    assert_eq!(remote_path("leaf"), "/tmp/sysunit-leaf");
}

#[test]
fn staged_mode_clears_setuid_setgid_and_sticky() {
    assert_eq!(staged_mode(0o4755), 0o755);
    assert_eq!(staged_mode(0o2644), 0o644);
    assert_eq!(staged_mode(0o1777), 0o777);
    assert_eq!(staged_mode(0o100755), 0o755);
}

#[test]
fn shell_escape_matches_the_reference_escaper() {
    let samples = [
        "",
        "plain",
        "--aaa=bbb-ccc",
        "with space",
        "don't",
        "bang!",
        "a\"b",
        "'!\\$` ",
        "path/to.file,x+y=z",
    ];
    for s in samples {
        assert_eq!(
            shell_escape(s),
            shell_escape::unix::escape(Cow::from(s)).into_owned(),
            "escaping {:?}",
            s
        );
    }
}

#[test]
fn env_assignments_render_escaped_values() {
    let args = ArgSet::parse("a=1,b=two words").unwrap();
    assert_eq!(env_assignments(&args), "a=1 b='two words'");
    assert_eq!(env_assignments(&ArgSet::new()), "");
}

#[test]
fn remote_command_for_an_executable_unit() {
    let args = ArgSet::parse("x=1").unwrap();
    assert_eq!(
        remote_command(DefinitionType::Executable, "leaf", &args, Operation::Check),
        "x=1 /tmp/sysunit-leaf check"
    );
}

#[test]
fn remote_command_for_a_directory_unit() {
    let args = ArgSet::parse("x=a b").unwrap();
    assert_eq!(
        remote_command(DefinitionType::Directory, "web", &args, Operation::Apply),
        "cd /tmp/sysunit-web; x='a b' ./unit apply"
    );
}

#[test]
fn staging_cache_transports_each_signature_once() {
    let mut cache = StagingCache::new();
    assert!(cache.stage_decision("leaf-abc"));
    assert!(!cache.stage_decision("leaf-abc"));
    assert!(cache.stage_decision("root-def"));
    assert!(!cache.stage_decision("leaf-abc"));
    assert!(!cache.stage_decision("root-def"));
}

#[test]
fn prefix_lines_prefixes_each_line() {
    assert_eq!(prefix_lines("a\nb\n", "1>"), "1>a1>b");
    assert_eq!(prefix_lines("", "2>"), "");
    assert_eq!(prefix_lines("one\r\ntwo", "> "), "> one> two");
}
