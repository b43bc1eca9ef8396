use cmdvault::codec::{parse_vault, serialize_vault, StoreError};
use cmdvault::vault::Vault;

#[test]
fn serialize_exact_form() {
    let mut v = Vault::new();
    v.add(String::from("a"), String::from("b"));
    assert_eq!(serialize_vault(&v), "a\tb\n");
    v.add(String::from("c"), String::from("d e"));
    assert_eq!(serialize_vault(&v), "a\tb\nc\td e\n");
}

#[test]
fn serialize_escapes_specials() {
    let mut v = Vault::new();
    v.add(String::from("ta\tb"), String::from("n\nc\\d"));
    assert_eq!(serialize_vault(&v), "ta\\tb\tn\\nc\\\\d\n");
}

#[test]
fn empty_vault_round_trip() {
    let v = Vault::new();
    let data = serialize_vault(&v);
    assert_eq!(data, "");
    let w = parse_vault(&data).expect("an empty store is valid");
    assert_eq!(w.len(), 0);
}

#[test]
fn round_trip_keeps_mapping() {
    let mut v = Vault::new();
    v.add(String::from("build"), String::from("make -j4"));
    v.add(String::from("test"), String::from("cargo test --all"));
    v.add(String::from("greet"), String::from("echo hello"));
    let w = parse_vault(&serialize_vault(&v)).expect("a saved store is valid");
    assert_eq!(w.len(), 3);
    assert_eq!(w.get(&String::from("build")), Some(&String::from("make -j4")));
    assert_eq!(w.get(&String::from("test")), Some(&String::from("cargo test --all")));
    assert_eq!(w.get(&String::from("greet")), Some(&String::from("echo hello")));
}

#[test]
fn round_trip_keeps_special_characters() {
    let mut v = Vault::new();
    v.add(String::from("tabs\tand\\slashes"), String::from("line1\nline2\t\\end"));
    v.add(String::from("unicode → name"), String::from("echo Ünïcødé ♥"));
    v.add(String::from(""), String::from(""));
    let w = parse_vault(&serialize_vault(&v)).expect("a saved store is valid");
    assert_eq!(w.len(), 3);
    assert_eq!(
        w.get(&String::from("tabs\tand\\slashes")),
        Some(&String::from("line1\nline2\t\\end"))
    );
    assert_eq!(w.get(&String::from("unicode → name")), Some(&String::from("echo Ünïcødé ♥")));
    assert_eq!(w.get(&String::from("")), Some(&String::from("")));
}

#[test]
fn save_load_save_reproduces_text() {
    let mut v = Vault::new();
    v.add(String::from("build"), String::from("make -j4"));
    v.add(String::from("odd\tname"), String::from("echo \\ done"));
    let first = serialize_vault(&v);
    let loaded = parse_vault(&first).expect("a saved store is valid");
    let second = serialize_vault(&loaded);
    assert_eq!(first, second);
}

#[test]
fn parse_rejects_missing_final_newline() {
    assert!(matches!(parse_vault("a\tb"), Err(StoreError::Corrupt)));
}

#[test]
fn parse_rejects_plain_garbage() {
    assert!(matches!(parse_vault("not a store"), Err(StoreError::Corrupt)));
}

#[test]
fn parse_rejects_line_without_tab() {
    assert!(matches!(parse_vault("ab\n"), Err(StoreError::Corrupt)));
}

#[test]
fn parse_rejects_bad_escape() {
    assert!(matches!(parse_vault("a\\zb\tc\n"), Err(StoreError::Corrupt)));
}

#[test]
fn parse_rejects_dangling_backslash() {
    assert!(matches!(parse_vault("a\tb\\\n"), Err(StoreError::Corrupt)));
}

#[test]
fn parse_rejects_raw_tab_in_command() {
    assert!(matches!(parse_vault("a\tb\tc\n"), Err(StoreError::Corrupt)));
}

#[test]
fn parse_accepts_valid_store() {
    let v = parse_vault("x\techo hi\n").expect("a valid store parses");
    assert_eq!(v.len(), 1);
    assert_eq!(v.get(&String::from("x")), Some(&String::from("echo hi")));
}

#[test]
fn parse_duplicate_names_last_wins() {
    let v = parse_vault("n\t1\nn\t2\n").expect("a valid store parses");
    assert_eq!(v.len(), 1);
    assert_eq!(v.get(&String::from("n")), Some(&String::from("2")));
}
