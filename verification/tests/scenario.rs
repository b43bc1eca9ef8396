use cmdvault::codec::{parse_vault, serialize_vault};
use cmdvault::store_name::store_file_name;
use cmdvault::vault::Vault;

// The full session for one project directory: register an alias, list it,
// look it up for dispatch, remove it, list again. Spawning the shell
// itself is left to the binary; the dispatch decision is the lookup.
#[test]
fn project_session() {
    let store = store_file_name("/tmp/proj");
    assert!(store.ends_with(".json"));
    assert_eq!(store.len(), 32 + ".json".len());
    assert!(store[..32].chars().all(|c| c.is_ascii_hexdigit()));

    let mut vault = Vault::new();
    vault.add(String::from("build"), String::from("make -j4"));
    let lines = vault.render_lines();
    assert!(lines.contains(&String::from("build → make -j4")));

    // `run build` looks the alias up and hands "make -j4" to the shell.
    assert_eq!(vault.get(&String::from("build")), Some(&String::from("make -j4")));

    vault.remove(&String::from("build"));
    let lines = vault.render_lines();
    assert!(!lines.iter().any(|l| l.contains("build")));
}

// Two working directories use two store files; a mutation persisted for
// one is invisible when the other is loaded.
#[test]
fn directory_isolation() {
    let store_a = store_file_name("/tmp/proj-a");
    let store_b = store_file_name("/tmp/proj-b");
    assert_ne!(store_a, store_b);

    let mut vault_a = parse_vault("").expect("a missing store starts empty");
    let vault_b = parse_vault("").expect("a missing store starts empty");
    vault_a.add(String::from("deploy"), String::from("scp out host:"));
    let persisted_a = serialize_vault(&vault_a);
    let persisted_b = serialize_vault(&vault_b);
    assert_ne!(persisted_a, persisted_b);

    let reloaded_b = parse_vault(&persisted_b).expect("a saved store is valid");
    assert_eq!(reloaded_b.get(&String::from("deploy")), None);
    let reloaded_a = parse_vault(&persisted_a).expect("a saved store is valid");
    assert_eq!(reloaded_a.get(&String::from("deploy")), Some(&String::from("scp out host:")));
}
