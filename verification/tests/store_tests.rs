use credstore::hashing::get_salt;
use credstore::hashing::hash_password;
use credstore::store::UserCredentials;

#[test]
fn new_store_is_empty() {
    let s = UserCredentials::new("unused-path");
    assert!(s.list_users().is_empty());
    assert!(!s.contains("anyone"));
    assert!(s.get("anyone").is_none());
    assert_eq!(s.storage_location(), "unused-path");
}

#[test]
fn set_then_get() {
    let mut s = UserCredentials::new("p");
    s.set("alice", "h1");
    assert!(s.contains("alice"));
    assert_eq!(s.get("alice"), Some(&"h1".to_string()));
    assert!(s.get("bob").is_none());
}

#[test]
fn set_overwrites() {
    let mut s = UserCredentials::new("p");
    s.set("alice", "h1");
    s.set("alice", "h2");
    assert_eq!(s.get("alice"), Some(&"h2".to_string()));
    assert_eq!(s.list_users().len(), 1);
}

#[test]
fn remove_deletes_and_tolerates_absent() {
    let mut s = UserCredentials::new("p");
    s.set("alice", "h1");
    s.set("bob", "h2");
    s.remove("alice");
    assert!(!s.contains("alice"));
    assert!(s.contains("bob"));
    s.remove("nobody");
    assert!(s.contains("bob"));
    assert_eq!(s.list_users(), vec!["bob"]);
}

#[test]
fn store_round_trip_through_contents() {
    let mut s = UserCredentials::new("p");
    s.set("alice", "$sha256iter-1$4$AQID$BAUG$");
    s.set("bob", "other-hash");
    let text = s.to_file_contents();
    drop(s);
    let reloaded = UserCredentials::from_contents("p", &text);
    assert_eq!(
        reloaded.get("alice"),
        Some(&"$sha256iter-1$4$AQID$BAUG$".to_string())
    );
    assert_eq!(reloaded.get("bob"), Some(&"other-hash".to_string()));
    assert_eq!(reloaded.list_users().len(), 2);
}

#[test]
fn contents_format_one_line_per_record() {
    let mut s = UserCredentials::new("p");
    s.set("alice", "h1");
    assert_eq!(s.to_file_contents(), "alice:h1\n");
}

#[test]
fn dedup_on_load_first_wins() {
    let s = UserCredentials::from_contents("p", "bob:first\nbob:second\n");
    assert_eq!(s.get("bob"), Some(&"first".to_string()));
    assert_eq!(s.list_users(), vec!["bob"]);
}

#[test]
fn malformed_lines_are_skipped() {
    let s = UserCredentials::from_contents("p", "just a header\nalice:h\n\ncarol:h2");
    assert!(!s.contains("just a header"));
    assert_eq!(s.get("alice"), Some(&"h".to_string()));
    // The last record has no trailing newline; it still loads.
    assert_eq!(s.get("carol"), Some(&"h2".to_string()));
    assert_eq!(s.list_users().len(), 2);
}

#[test]
fn hash_with_colon_survives_round_trip() {
    // Only the first `:` splits a line; the hash may contain more.
    let s = UserCredentials::from_contents("p", "u:a:b:c\n");
    assert_eq!(s.get("u"), Some(&"a:b:c".to_string()));
}

#[test]
fn authenticate_end_to_end() {
    let salt = get_salt(None).expect("secure random source failed");
    let h = hash_password("correct-horse", &salt, 4).unwrap();
    let mut store = UserCredentials::new("p");
    store.set("u", &h);
    assert!(store.authenticate("u", "correct-horse"));
    assert!(!store.authenticate("u", "wrong"));
    assert!(!store.authenticate("nouser", "anything"));
}

#[test]
fn authenticate_survives_reload() {
    let salt = get_salt(None).expect("secure random source failed");
    let h = hash_password("pass-phrase", &salt, 3).unwrap();
    let mut store = UserCredentials::new("p");
    store.set("u", &h);
    let text = store.to_file_contents();
    let mut reloaded = UserCredentials::from_contents("p", &text);
    assert!(reloaded.authenticate("u", "pass-phrase"));
    assert!(!reloaded.authenticate("u", "pass-phrase "));
}

#[test]
fn malformed_stored_hash_fails_closed() {
    let mut store = UserCredentials::new("p");
    // Wrong field count.
    store.set("u", "$sha256iter-1$4$AQID$");
    assert!(!store.authenticate("u", "anything"));
    // No framing at all.
    store.set("u", "plaintext");
    assert!(!store.authenticate("u", "plaintext"));
    // Unparsable cost.
    store.set("u", "$sha256iter-1$four$AQID$BAUG$");
    assert!(!store.authenticate("u", "anything"));
    // Invalid base64 salt.
    store.set("u", "$sha256iter-1$4$!!$BAUG$");
    assert!(!store.authenticate("u", "anything"));
}

#[test]
fn authenticate_rejects_foreign_tag() {
    let salt = "AQID";
    let h = hash_password("pw", salt, 2).unwrap();
    let foreign = h.replace("sha256iter-1", "md5iter-9");
    let mut store = UserCredentials::new("p");
    store.set("u", &foreign);
    assert!(!store.authenticate("u", "pw"));
}

#[test]
fn authenticate_rejects_overflowing_cost() {
    // A stored cost of 64 would overflow the iteration counter: fail closed.
    let mut store = UserCredentials::new("p");
    store.set("u", "$sha256iter-1$64$AQID$BAUG$");
    assert!(!store.authenticate("u", "anything"));
}
