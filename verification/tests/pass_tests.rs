use deps::engine::ModuleClass;
use deps::module::Module;
use deps::pass::{sync_pass, ShardEntry, ShardStore};
use deps::registries::RegistryId;
use deps::version::Version;

fn module(name: &str, versions: &[&str]) -> Module {
    Module {
        name: name.to_string(),
        desc: None,
        repo: None,
        reg: RegistryId::X,
        vers: versions.iter().map(|v| Version::parse(v).unwrap()).collect(),
    }
}

fn empty_store() -> ShardStore {
    ShardStore { entries: Vec::new() }
}

#[test]
fn pass_classifies_and_builds_manifests() {
    let store = ShardStore {
        entries: vec![ShardEntry {
            path: deps::shard::resolve("old"),
            snaps: sync_pass(&empty_store(), &vec![module("old", &["1.0.0"])])
                .appends
                .remove(0)
                .snaps,
        }],
    };

    let modules = vec![
        module("old", &["1.0.0", "1.1.0"]),
        module("fresh", &["0.1.0"]),
        module("same", &["2.0.0"]),
    ];
    let store = ShardStore {
        entries: {
            let mut entries = store.entries;
            entries.push(ShardEntry {
                path: deps::shard::resolve("same"),
                snaps: sync_pass(&empty_store(), &vec![module("same", &["2.0.0"])])
                    .appends
                    .remove(0)
                    .snaps,
            });
            entries
        },
    };

    let report = sync_pass(&store, &modules);
    assert_eq!(
        report.classes,
        vec![ModuleClass::Updated, ModuleClass::New, ModuleClass::Unchanged]
    );
    assert_eq!(report.new_modules.len(), 1);
    assert_eq!(report.new_modules[0].name, "fresh");
    assert_eq!(report.updated_modules.len(), 1);
    assert_eq!(report.updated_modules[0].name, "old");
    let novel: Vec<String> = report.updated_modules[0]
        .vers
        .iter()
        .map(|v| v.display())
        .collect();
    assert_eq!(novel, vec!["1.1.0"]);
    assert_eq!(report.appends[2].snaps.len(), 0);
}

#[test]
fn second_pass_reports_nothing() {
    let modules = vec![module("oak", &["1.0.0", "2.0.0"]), module("elm", &["0.3.0"])];

    let first = sync_pass(&empty_store(), &modules);
    assert_eq!(first.new_modules.len(), 2);

    let store = ShardStore {
        entries: first
            .appends
            .into_iter()
            .map(|a| ShardEntry {
                path: a.path,
                snaps: a.snaps,
            })
            .collect(),
    };
    let second = sync_pass(&store, &modules);
    assert_eq!(
        second.classes,
        vec![ModuleClass::Unchanged, ModuleClass::Unchanged]
    );
    assert!(second.new_modules.is_empty());
    assert!(second.updated_modules.is_empty());
    assert!(second.appends.iter().all(|a| a.snaps.is_empty()));
}
