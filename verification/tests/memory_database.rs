use jerusalem::byte_map::{bytes_equal, copy_bytes, ByteMap};
use jerusalem::handle_connection::{handle_del, handle_incr, parse_i64};
use jerusalem::memory_database::MemoryDatabase;

fn b(s: &str) -> Vec<u8> {
    s.as_bytes().to_vec()
}

fn keys(items: &[&str]) -> Vec<String> {
    items.iter().map(|s| s.to_string()).collect()
}

#[test]
fn memory_database_stores_and_removes() {
    let mut db = MemoryDatabase::new("main");
    assert_eq!(db.insert("k", (b("v"), None)), None);
    assert_eq!(db.insert("k", (b("w"), Some(50))), Some((b("v"), None)));
    assert_eq!(db.get("k", 50), Some(b("w")));
    assert_eq!(db.remove("k"), Some((b("w"), Some(50))));
    assert_eq!(db.get("k", 0), None);
    assert_eq!(db.remove("k"), None);
}

#[test]
fn memory_database_drops_expired_values() {
    let mut db = MemoryDatabase::new("main");
    db.insert("k", (b("v"), Some(10)));
    assert_eq!(db.get("k", 11), None);
    assert_eq!(db.remove("k"), None);
}

#[test]
fn parse_i64_reads_like_rust() {
    assert_eq!(parse_i64(b"42"), Some(42));
    assert_eq!(parse_i64(b"+42"), Some(42));
    assert_eq!(parse_i64(b"-42"), Some(-42));
    assert_eq!(parse_i64(b"-9223372036854775808"), Some(i64::MIN));
    assert_eq!(parse_i64(b"9223372036854775808"), None);
    assert_eq!(parse_i64(b""), None);
    assert_eq!(parse_i64(b"-"), None);
    assert_eq!(parse_i64(b"4 2"), None);
    for text in ["0", "+7", "-13", "9223372036854775807", "x", "--1"] {
        assert_eq!(parse_i64(text.as_bytes()), text.parse::<i64>().ok());
    }
}

#[test]
fn handle_del_counts_removed_keys() {
    let mut db = MemoryDatabase::new("main");
    db.insert("a", (b("1"), None));
    db.insert("b", (b("2"), None));
    assert_eq!(handle_del(&mut db, 4, keys(&["a", "a", "zz"])), b(":1\r\n"));
    assert_eq!(db.get("a", 0), None);
    assert_eq!(db.get("b", 0), Some(b("2")));
    assert_eq!(handle_del(&mut db, 1, keys(&["b"])), b("-ERR fuk are you playin at?\r\n"));
    assert_eq!(db.get("b", 0), Some(b("2")));
}

#[test]
fn handle_incr_counts_up() {
    let mut db = MemoryDatabase::new("main");
    assert_eq!(handle_incr(&mut db, 2, "n", 0), b(":1\r\n"));
    assert_eq!(handle_incr(&mut db, 2, "n", 0), b(":2\r\n"));
    assert_eq!(db.get("n", 0), Some(b("2")));
    db.insert("t", (b("text"), None));
    assert_eq!(
        handle_incr(&mut db, 2, "t", 0),
        b("-ERR invalid use of INCR, value not in number form.\r\n")
    );
    assert_eq!(handle_incr(&mut db, 3, "n", 0), b("-ERR Protocol Error\r\n"));
    db.insert("m", (b("-5"), Some(100)));
    assert_eq!(handle_incr(&mut db, 2, "m", 0), b(":-4\r\n"));
    assert_eq!(db.get("m", 200), Some(b("-4")));
    db.insert("max", (b("9223372036854775807"), None));
    assert_eq!(
        handle_incr(&mut db, 2, "max", 0),
        b("-ERR invalid use of INCR, value not in number form.\r\n")
    );
}

#[test]
fn byte_map_keeps_one_value_per_key() {
    let mut map: ByteMap<u32> = ByteMap::new();
    assert_eq!(map.insert(b("a"), 1), None);
    assert_eq!(map.insert(b("b"), 2), None);
    assert_eq!(map.insert(b("a"), 3), Some(1));
    assert_eq!(map.len(), 2);
    assert_eq!(map.get(&b("a")), Some(&3));
    assert_eq!(map.remove(&b("a")), Some(3));
    assert_eq!(map.get(&b("a")), None);
    assert_eq!(map.len(), 1);
    let at = map.find(&b("b")).unwrap();
    assert_eq!(map.key_at(at), &b("b"));
    assert_eq!(*map.value_at(at), 2);
    assert_eq!(map.replace_at(at, 9), 2);
    assert_eq!(map.remove_at(at), (b("b"), 9));
    assert_eq!(map.len(), 0);
}

#[test]
fn byte_strings_compare_and_copy() {
    assert!(bytes_equal(&b("abc"), &b("abc")));
    assert!(!bytes_equal(&b("abc"), &b("abd")));
    assert!(!bytes_equal(&b("abc"), &b("ab")));
    assert_eq!(copy_bytes(&b("xyz")), b("xyz"));
}
