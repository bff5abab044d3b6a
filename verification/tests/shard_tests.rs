use deps::shard::resolve;
use deps::module::Module;
use deps::registries::RegistryId;

#[test]
fn resolve_one_letter() {
    assert_eq!(resolve("a"), vec!["1".to_string(), "a".to_string()]);
}

#[test]
fn resolve_two_letters() {
    assert_eq!(resolve("ab"), vec!["2".to_string(), "ab".to_string()]);
}

#[test]
fn resolve_three_letters() {
    assert_eq!(
        resolve("abc"),
        vec!["3".to_string(), "a".to_string(), "abc".to_string()]
    );
}

#[test]
fn resolve_longer_names() {
    assert_eq!(
        resolve("abcde"),
        vec!["ab".to_string(), "cd".to_string(), "abcde".to_string()]
    );
    assert_eq!(
        resolve("abcd"),
        vec!["ab".to_string(), "cd".to_string(), "abcd".to_string()]
    );
}

#[test]
fn resolve_is_deterministic() {
    assert_eq!(resolve("oak"), resolve("oak"));
}

#[test]
fn resolve_preserves_case() {
    assert_eq!(
        resolve("AbCdE"),
        vec!["Ab".to_string(), "Cd".to_string(), "AbCdE".to_string()]
    );
}

#[test]
fn index_path_matches_resolve() {
    let m = Module {
        name: "oak".to_string(),
        desc: None,
        repo: None,
        reg: RegistryId::X,
        vers: Vec::new(),
    };
    assert_eq!(m.index_path(), resolve("oak"));
}
