use cmdvault::store_name::{store_file_name, to_hex};

#[test]
fn hex_exact_form() {
    assert_eq!(to_hex(&vec![0x00u8, 0xff, 0x1a]), "00ff1a");
    assert_eq!(to_hex(&vec![]), "");
}

#[test]
fn store_name_is_path_digest() {
    assert_eq!(store_file_name(""), "d41d8cd98f00b204e9800998ecf8427e.json");
    assert_eq!(store_file_name("a"), "0cc175b9c0f1b6a831c399e269772661.json");
}

#[test]
fn store_name_is_deterministic() {
    assert_eq!(store_file_name("/tmp/proj"), store_file_name("/tmp/proj"));
}

#[test]
fn distinct_directories_get_distinct_stores() {
    assert_ne!(store_file_name("/tmp/a"), store_file_name("/tmp/b"));
    assert_ne!(store_file_name("/home/one/proj"), store_file_name("/home/two/proj"));
}
