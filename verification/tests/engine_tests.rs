use deps::codec::{render_snapshot_line, parse_snapshot_line, load_snapshots, render_manifest,
    render_registry_json};
use deps::engine::{sync_module, ModuleClass};
use deps::module::{Module, Snapshot};
use deps::registries::{RegistryId, registry_info};
use deps::version::Version;

fn module(name: &str, versions: &[&str]) -> Module {
    Module {
        name: name.to_string(),
        desc: None,
        repo: None,
        reg: RegistryId::X,
        vers: versions.iter().map(|v| Version::parse(v).unwrap()).collect(),
    }
}

#[test]
fn new_module_end_to_end() {
    let m = module("foo", &["1.0.0"]);
    let outcome = sync_module(&m, None);
    assert_eq!(outcome.class, ModuleClass::New);
    assert_eq!(outcome.to_append.len(), 1);
    let line = render_snapshot_line(&outcome.to_append[0]);
    assert_eq!(
        line,
        "{\"name\":\"foo\",\"desc\":null,\"repo\":null,\"reg\":\"x\",\"vers\":\"1.0.0\"}"
    );
}

#[test]
fn updated_module_appends_only_novel() {
    let first = sync_module(&module("foo", &["1.0.0"]), None);
    let lines: Vec<String> = first.to_append.iter().map(render_snapshot_line).collect();
    let existing = load_snapshots(&lines).unwrap();

    let m = module("foo", &["1.0.0", "1.1.0"]);
    let outcome = sync_module(&m, Some(&existing));
    assert_eq!(outcome.class, ModuleClass::Updated);
    assert_eq!(outcome.to_append.len(), 1);
    assert_eq!(outcome.to_append[0].vers.display(), "1.1.0");
}

#[test]
fn unchanged_module_appends_nothing() {
    let first = sync_module(&module("foo", &["1.0.0", "1.1.0"]), None);
    let lines: Vec<String> = first.to_append.iter().map(render_snapshot_line).collect();
    let existing = load_snapshots(&lines).unwrap();

    let subset = module("foo", &["1.0.0"]);
    let outcome = sync_module(&subset, Some(&existing));
    assert_eq!(outcome.class, ModuleClass::Unchanged);
    assert_eq!(outcome.to_append.len(), 0);
}

#[test]
fn second_run_is_idempotent() {
    let m = module("foo", &["1.0.0", "2.0.0-rc.1"]);
    let first = sync_module(&m, None);
    assert_eq!(first.class, ModuleClass::New);

    let lines: Vec<String> = first.to_append.iter().map(render_snapshot_line).collect();
    let existing = load_snapshots(&lines).unwrap();
    let second = sync_module(&m, Some(&existing));
    assert_eq!(second.class, ModuleClass::Unchanged);
    assert_eq!(second.to_append.len(), 0);
}

#[test]
fn snapshots_are_sorted_ascending() {
    let m = module("foo", &["2.0.0", "1.0.0", "1.5.0", "1.0.0-alpha"]);
    let snaps = m.get_snapshots();
    let shown: Vec<String> = snaps.iter().map(|s| s.vers.display()).collect();
    assert_eq!(shown, vec!["1.0.0-alpha", "1.0.0", "1.5.0", "2.0.0"]);
}

#[test]
fn prefix_equality_prevents_duplicate_append() {
    let first = sync_module(&module("foo", &["v1.0.0"]), None);
    let lines: Vec<String> = first.to_append.iter().map(render_snapshot_line).collect();
    let existing = load_snapshots(&lines).unwrap();

    let outcome = sync_module(&module("foo", &["1.0.0"]), Some(&existing));
    assert_eq!(outcome.class, ModuleClass::Unchanged);
    assert_eq!(outcome.to_append.len(), 0);
}

#[test]
fn snapshot_line_round_trips() {
    let snap = Snapshot {
        name: "we\"ird\\name".to_string(),
        desc: Some("a \"quoted\" description\nwith a newline".to_string()),
        repo: Some("https://example.invalid/repo".to_string()),
        reg: RegistryId::Nest,
        vers: Version::parse("v1.2.3-alpha.1+build").unwrap(),
    };
    let line = render_snapshot_line(&snap);
    let back = parse_snapshot_line(&line).expect("canonical line must parse");
    assert_eq!(back.name, snap.name);
    assert_eq!(back.desc, snap.desc);
    assert_eq!(back.repo, snap.repo);
    assert_eq!(back.reg, snap.reg);
    assert!(back.vers == snap.vers);
    assert_eq!(render_snapshot_line(&back), line);
}

#[test]
fn corrupt_line_fails_the_load() {
    let good = "{\"name\":\"foo\",\"desc\":null,\"repo\":null,\"reg\":\"x\",\"vers\":\"1.0.0\"}";
    let lines = vec![good.to_string(), "not json".to_string()];
    assert_eq!(load_snapshots(&lines).err(), Some(deps::error::DepsError::Invalid));

    let only_good = vec![good.to_string()];
    assert_eq!(load_snapshots(&only_good).unwrap().len(), 1);
}

#[test]
fn canonical_escapes_only() {
    // The reader accepts the writer's escape forms and nothing else: the
    // same control character written with upper-case hex is corrupt.
    let snap = Snapshot {
        name: "foo".to_string(),
        desc: Some("a\nb".to_string()),
        repo: None,
        reg: RegistryId::X,
        vers: Version::parse("1.0.0").unwrap(),
    };
    let line = render_snapshot_line(&snap);
    assert!(line.contains("\\u000a"));
    assert!(parse_snapshot_line(&line).is_some());
    let upper = line.replace("\\u000a", "\\u000A");
    assert!(parse_snapshot_line(&upper).is_none());
}

#[test]
fn non_canonical_line_is_rejected() {
    // Valid JSON, but with a spurious space: not the canonical form.
    let line = "{\"name\": \"foo\",\"desc\":null,\"repo\":null,\"reg\":\"x\",\"vers\":\"1.0.0\"}";
    assert!(parse_snapshot_line(line).is_none());
}

#[test]
fn manifest_renders_expected_json() {
    let m = module("foo", &["1.0.0", "1.1.0"]);
    let json = render_manifest(&vec![m]);
    assert_eq!(
        json,
        "[{\"name\":\"foo\",\"desc\":null,\"repo\":null,\"reg\":\"x\",\"vers\":[\"1.0.0\",\"1.1.0\"]}]"
    );
    let empty: Vec<Module> = Vec::new();
    assert_eq!(render_manifest(&empty), "[]");
}

#[test]
fn registry_descriptor_renders() {
    let info = registry_info(RegistryId::Nest);
    let json = render_registry_json(&info, RegistryId::Nest);
    assert_eq!(
        json,
        "{\"raw_url\":\"https://x.nest.land/{name}@{version}/{...rest}\"}"
    );
}
