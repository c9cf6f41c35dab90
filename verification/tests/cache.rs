//! Definition loading and instance memoization: one filesystem resolution
//! per unit name, one shared instance per distinct signature.

use sysunit::instance_cache::{DefinitionCache, InstanceCache};
use sysunit::resolver::loader::{load_unit, FileStat, FsProbe};
use sysunit::unit::{ApplicationState, DefinitionType, InstanceId};

struct ScriptProbe {
    executables: Vec<String>,
    directories: Vec<String>,
    others: Vec<String>,
    stats: usize,
}

impl ScriptProbe {
    fn new() -> ScriptProbe {
        ScriptProbe { executables: Vec::new(), directories: Vec::new(), others: Vec::new(), stats: 0 }
    }
}

impl FsProbe for ScriptProbe {
    fn stat(&mut self, path: &String) -> FileStat {
        self.stats += 1;
        if self.executables.iter().any(|p| p == path) {
            FileStat::ExecutableFile
        } else if self.directories.iter().any(|p| p == path) {
            FileStat::Directory
        } else if self.others.iter().any(|p| p == path) {
            FileStat::Other
        } else {
            FileStat::Absent
        }
    }
}

fn dirs(list: &[&str]) -> Vec<String> {
    list.iter().map(|d| d.to_string()).collect()
}

#[test]
fn load_unit_finds_an_executable_unit() {
    let mut probe = ScriptProbe::new();
    probe.executables.push("units/leaf".to_string());
    let d = load_unit("leaf", &dirs(&["units"]), &mut probe).0.unwrap();
    assert_eq!(d.name, "leaf");
    assert_eq!(d.path, "units/leaf");
    assert!(matches!(d.definition_type, DefinitionType::Executable));
}

#[test]
fn load_unit_finds_a_directory_unit() {
    let mut probe = ScriptProbe::new();
    probe.directories.push("units/web".to_string());
    probe.executables.push("units/web/unit".to_string());
    let d = load_unit("web", &dirs(&["units"]), &mut probe).0.unwrap();
    assert_eq!(d.path, "units/web");
    assert!(matches!(d.definition_type, DefinitionType::Directory));
}

#[test]
fn load_unit_searches_directories_in_order() {
    let mut probe = ScriptProbe::new();
    probe.executables.push("/etc/units/leaf".to_string());
    let d = load_unit("leaf", &dirs(&["./units", "/etc/units"]), &mut probe).0.unwrap();
    assert_eq!(d.path, "/etc/units/leaf");
}

#[test]
fn load_unit_reports_a_malformed_directory_unit() {
    let mut probe = ScriptProbe::new();
    probe.directories.push("units/web".to_string());
    let err = load_unit("web", &dirs(&["units"]), &mut probe).0.unwrap_err();
    assert!(err.msg.contains("units/web"));
    assert!(err.msg.contains("does not contain an executable ./unit file"));
}

#[test]
fn load_unit_reports_an_absent_unit() {
    let mut probe = ScriptProbe::new();
    let err = load_unit("ghost", &dirs(&["units"]), &mut probe).0.unwrap_err();
    assert!(err.msg.contains("Could not find unit `ghost`"));
}

#[test]
fn definition_cache_resolves_each_name_once() {
    let mut probe = ScriptProbe::new();
    probe.executables.push("units/leaf".to_string());
    let search = dirs(&["units"]);
    let mut cache = DefinitionCache::new();
    let first = cache.get("leaf", &search, &mut probe).unwrap();
    let stats_after_first = probe.stats;
    let second = cache.get("leaf", &search, &mut probe).unwrap();
    assert_eq!(first, second);
    assert_eq!(probe.stats, stats_after_first);
}

#[test]
fn instance_cache_shares_one_instance_per_signature() {
    let mut probe = ScriptProbe::new();
    probe.executables.push("units/leaf".to_string());
    let search = dirs(&["units"]);
    let mut cache = InstanceCache::new();
    let a = cache
        .get(InstanceId::build("leaf", "x=1").unwrap(), &search, &mut probe)
        .unwrap();
    let b = cache
        .get(InstanceId::build("leaf", "x=1").unwrap(), &search, &mut probe)
        .unwrap();
    assert_eq!(a, b);
    assert_eq!(cache.instances.len(), 1);

    // A state change made through one reference is seen through the other.
    cache.set_application_state(a, ApplicationState::Applied);
    assert!(matches!(cache.instances[b].application_state, ApplicationState::Applied));
}

#[test]
fn instance_cache_distinguishes_different_arguments() {
    let mut probe = ScriptProbe::new();
    probe.executables.push("units/leaf".to_string());
    let search = dirs(&["units"]);
    let mut cache = InstanceCache::new();
    let a = cache
        .get(InstanceId::build("leaf", "x=1").unwrap(), &search, &mut probe)
        .unwrap();
    let b = cache
        .get(InstanceId::build("leaf", "x=2").unwrap(), &search, &mut probe)
        .unwrap();
    assert_ne!(a, b);
    assert_eq!(cache.instances.len(), 2);
}

#[test]
fn definition_lookup_is_retried_after_a_failed_search() {
    let mut probe = ScriptProbe::new();
    let search = dirs(&["units"]);
    let mut cache = DefinitionCache::new();
    assert!(cache.get("leaf", &search, &mut probe).is_err());
    probe.executables.push("units/leaf".to_string());
    assert!(cache.get("leaf", &search, &mut probe).is_ok());
}

#[test]
fn cached_lookups_succeed_without_the_filesystem() {
    let mut probe = ScriptProbe::new();
    probe.executables.push("units/leaf".to_string());
    let search = dirs(&["units"]);
    let mut cache = InstanceCache::new();
    let a = cache
        .get(InstanceId::build("leaf", "x=1").unwrap(), &search, &mut probe)
        .unwrap();
    // The unit disappears from disk; the cached signature still answers.
    probe.executables.clear();
    let b = cache
        .get(InstanceId::build("leaf", "x=1").unwrap(), &search, &mut probe)
        .unwrap();
    assert_eq!(a, b);
    // A cached definition also serves new argument sets without the disk.
    let c = cache
        .get(InstanceId::build("leaf", "x=2").unwrap(), &search, &mut probe)
        .unwrap();
    assert_ne!(a, c);
}
