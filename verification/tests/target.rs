//! Target addressing: URL parsing at the boundary and the verified backend
//! selection on the parsed parts.

use sysunit::execution::adapter::Adapter;
use sysunit::execution::target::{
    check_local_host,
    parse_target_url,
    select_target_kind,
    ssh_username,
    TargetKind,
};
use sysunit::resolver::loader::{FileStat, FsProbe};

struct NoFiles;

impl FsProbe for NoFiles {
    fn stat(&mut self, _path: &String) -> FileStat {
        FileStat::Absent
    }
}

struct OneExecutable(String);

impl FsProbe for OneExecutable {
    fn stat(&mut self, path: &String) -> FileStat {
        if *path == self.0 {
            FileStat::ExecutableFile
        } else {
            FileStat::Absent
        }
    }
}

#[test]
fn parse_target_url_extracts_the_parts() {
    let parts = parse_target_url("ssh://admin@box:2222/").unwrap();
    assert_eq!(parts.scheme, "ssh");
    assert_eq!(parts.host.as_deref(), Some("box"));
    assert_eq!(parts.username, "admin");
    assert_eq!(parts.port, Some(2222));
}

#[test]
fn parse_target_url_rejects_non_urls() {
    assert!(parse_target_url("not a url").is_err());
}

#[test]
fn selection_defaults_to_local() {
    assert!(matches!(select_target_kind(&None, &None), TargetKind::Local));
}

#[test]
fn selection_follows_the_url_scheme() {
    let url = Some(parse_target_url("ssh://admin@box/").unwrap());
    assert!(matches!(select_target_kind(&url, &None), TargetKind::Ssh));
}

#[test]
fn an_explicit_adapter_name_overrides_the_scheme() {
    let url = Some(parse_target_url("ssh://admin@box/").unwrap());
    match select_target_kind(&url, &Some("podman".to_string())) {
        TargetKind::Adapter(name) => assert_eq!(name, "podman"),
        other => panic!("expected an adapter, got {:?}", other),
    }
}

#[test]
fn local_targets_reject_foreign_hosts() {
    assert!(check_local_host(&None).is_ok());
    let localhost = Some(parse_target_url("local://localhost/").unwrap());
    assert!(check_local_host(&localhost).is_ok());
    let remote = Some(parse_target_url("local://elsewhere/").unwrap());
    let err = check_local_host(&remote).unwrap_err();
    assert_eq!(err.msg, "Can not operate on host: elsewhere");
}

#[test]
fn ssh_requires_a_username() {
    assert!(ssh_username(&None).is_err());
    let anonymous = Some(parse_target_url("ssh://box/").unwrap());
    assert!(ssh_username(&anonymous).is_err());
    let named = Some(parse_target_url("ssh://admin@box/").unwrap());
    assert_eq!(ssh_username(&named).unwrap(), "admin");
}

#[test]
fn adapter_resolution_searches_the_adapter_path() {
    let dirs = vec!["/usr/lib/sysunit/adapters".to_string()];
    let mut probe = OneExecutable("/usr/lib/sysunit/adapters/podman".to_string());
    let adapter = Adapter::try_new("podman", &dirs, &mut probe).0.unwrap();
    assert_eq!(adapter.path, "/usr/lib/sysunit/adapters/podman");

    let mut empty = NoFiles;
    let err = Adapter::try_new("podman", &dirs, &mut empty).0.unwrap_err();
    assert!(err.msg.contains("Could not find executable adapter podman"));
}
