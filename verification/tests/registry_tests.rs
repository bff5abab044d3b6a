use deps::error::DepsError;
use deps::registries::{RegistryId, registry_info};
use deps::tagger::Tag;
use deps::x;
use deps::nest;

fn x_raw(name: &str, versions: &[&str]) -> x::Module {
    x::Module::from(
        x::SearchResult {
            name: name.to_string(),
            description: Some("a module".to_string()),
            star_count: 7,
        },
        x::VersionInfo {
            latest: versions.last().map(|v| v.to_string()),
            versions: versions.iter().map(|v| v.to_string()).collect(),
        },
    )
}

fn nest_raw(name: &str, uploads: &[&str]) -> nest::Module {
    nest::Module {
        name: name.to_string(),
        normalized_name: name.to_string(),
        owner: "someone".to_string(),
        description: None,
        repository: Some("https://example.invalid/repo".to_string()),
        latest_version: None,
        latest_stable_version: None,
        package_upload_names: uploads.iter().map(|v| v.to_string()).collect(),
        locked: None,
        malicious: None,
        unlisted: None,
        created_at: None,
        updated_at: None,
    }
}

#[test]
fn x_normalize_keeps_valid_versions() {
    let raw = x_raw("oak", &["1.0.0", "garbage", "v1.1.0"]);
    let m = raw.normalize().expect("two versions parse");
    assert_eq!(m.name, "oak");
    assert_eq!(m.reg, RegistryId::X);
    let shown: Vec<String> = m.vers.iter().map(|v| v.display()).collect();
    assert_eq!(shown, vec!["1.0.0", "v1.1.0"]);
}

#[test]
fn x_normalize_drops_duplicate_versions() {
    let raw = x_raw("oak", &["1.0.0", "v1.0.0", "1.0.0+meta"]);
    let m = raw.normalize().unwrap();
    assert_eq!(m.vers.len(), 1);
    assert_eq!(m.vers[0].display(), "1.0.0");
}

#[test]
fn zero_valid_versions_excludes_the_module() {
    let raw = x_raw("oak", &["garbage", "also garbage", ""]);
    assert!(raw.normalize().is_none());

    let raw = nest_raw("maple", &["no-at-sign", "maple@not;a;version"]);
    assert!(raw.normalize().is_none());
}

#[test]
fn empty_name_excludes_the_module() {
    let raw = x_raw("", &["1.0.0"]);
    assert!(raw.normalize().is_none());
}

#[test]
fn x_normalize_builds_repository_url() {
    let search = x::SearchResult {
        name: "oak".to_string(),
        description: None,
        star_count: 0,
    };
    let info = x::VersionInfo {
        latest: Some("1.0.0".to_string()),
        versions: vec!["1.0.0".to_string()],
    };
    let meta = x::VersionMetaInfo {
        uploaded_at: None,
        directory_listing: Vec::new(),
        upload_options: x::UploadOptions {
            upload_tyupe: "github".to_string(),
            repository: "owner/oak".to_string(),
            subdir: None,
            git_ref: "main".to_string(),
        },
    };
    let raw = x::Module::from_ext(search, info, meta);
    let m = raw.normalize().unwrap();
    assert_eq!(m.repo, Some("https://github.com/owner/oak".to_string()));
}

#[test]
fn nest_normalize_uses_upload_names() {
    let raw = nest_raw("maple", &["maple@1.0.0", "maple@v2.0.0", "README.md"]);
    let m = raw.normalize().unwrap();
    assert_eq!(m.reg, RegistryId::Nest);
    let shown: Vec<String> = m.vers.iter().map(|v| v.display()).collect();
    assert_eq!(shown, vec!["1.0.0", "v2.0.0"]);
    assert_eq!(m.repo, Some("https://example.invalid/repo".to_string()));
}

#[test]
fn total_pages_is_a_ceiling() {
    assert_eq!(x::total_pages(0, 100), 0);
    assert_eq!(x::total_pages(1, 100), 1);
    assert_eq!(x::total_pages(100, 100), 1);
    assert_eq!(x::total_pages(101, 100), 2);
    assert_eq!(x::total_pages(250, 100), 3);
}

#[test]
fn registry_names_and_ids() {
    assert_eq!(RegistryId::X.name(), "x");
    assert_eq!(RegistryId::Nest.name(), "nest");
    assert_eq!(RegistryId::from_name("x"), RegistryId::X);
    assert_eq!(RegistryId::from_name("nest"), RegistryId::Nest);
    assert_eq!(RegistryId::from_name("elsewhere"), RegistryId::X);
}

#[test]
fn registry_info_templates() {
    assert_eq!(
        registry_info(RegistryId::X).raw_url,
        "https://cdn.deno.land/{name}/versions/{version}/raw/{...rest}"
    );
    assert_eq!(
        registry_info(RegistryId::Nest).raw_url,
        "https://x.nest.land/{name}@{version}/{...rest}"
    );
}

#[test]
fn deps_error_messages() {
    assert_eq!(DepsError::Invalid.message(), "invalid data provided");
    assert_eq!(DepsError::Other("boom".to_string()).message(), "boom");
}

#[test]
fn tag_holds_label_and_words() {
    let t = Tag::new("web".to_string(), vec!["http".to_string(), "server".to_string()]);
    assert_eq!(t.label, "web");
    assert_eq!(t.words.len(), 2);
}
