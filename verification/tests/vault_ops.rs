use cmdvault::vault::Vault;

#[test]
fn empty_vault_has_nothing() {
    let v = Vault::new();
    assert_eq!(v.len(), 0);
    assert!(v.render_lines().is_empty());
    assert_eq!(v.get(&String::from("build")), None);
}

#[test]
fn add_then_list_shows_once() {
    let mut v = Vault::new();
    v.add(String::from("build"), String::from("make -j4"));
    let lines = v.render_lines();
    assert_eq!(lines.len(), 1);
    assert_eq!(lines[0], "build → make -j4");
    let shown = lines.iter().filter(|l| l.as_str() == "build → make -j4").count();
    assert_eq!(shown, 1);
}

#[test]
fn add_is_idempotent() {
    let mut v = Vault::new();
    v.add(String::from("test"), String::from("cargo test"));
    v.add(String::from("test"), String::from("cargo test"));
    assert_eq!(v.len(), 1);
    assert_eq!(v.get(&String::from("test")), Some(&String::from("cargo test")));
}

#[test]
fn add_overwrites_last_wins() {
    let mut v = Vault::new();
    v.add(String::from("n"), String::from("c1"));
    v.add(String::from("n"), String::from("c2"));
    assert_eq!(v.len(), 1);
    assert_eq!(v.get(&String::from("n")), Some(&String::from("c2")));
    let lines = v.render_lines();
    assert_eq!(lines, vec![String::from("n → c2")]);
}

#[test]
fn remove_is_idempotent() {
    let mut v = Vault::new();
    v.add(String::from("a"), String::from("x"));
    v.remove(&String::from("missing"));
    assert_eq!(v.len(), 1);
    assert_eq!(v.get(&String::from("a")), Some(&String::from("x")));
    v.remove(&String::from("a"));
    assert_eq!(v.len(), 0);
    v.remove(&String::from("a"));
    assert_eq!(v.len(), 0);
}

#[test]
fn get_missing_is_none() {
    let mut v = Vault::new();
    v.add(String::from("build"), String::from("make"));
    assert_eq!(v.get(&String::from("deploy")), None);
}

#[test]
fn several_aliases_all_listed() {
    let mut v = Vault::new();
    v.add(String::from("build"), String::from("make"));
    v.add(String::from("test"), String::from("make test"));
    v.add(String::from("clean"), String::from("make clean"));
    assert_eq!(v.len(), 3);
    let lines = v.render_lines();
    assert!(lines.contains(&String::from("build → make")));
    assert!(lines.contains(&String::from("test → make test")));
    assert!(lines.contains(&String::from("clean → make clean")));
}
