use base64::Engine;
use credstore::hashing::get_salt;
use credstore::hashing::hash_password;
use credstore::sha256::sha256;
use credstore::DEF_SALT_LEN;

fn hex_to_bytes(s: &str) -> Vec<u8> {
    let chars: Vec<u8> = s.bytes().collect();
    let mut out = Vec::new();
    for pair in chars.chunks(2) {
        let hi = (pair[0] as char).to_digit(16).unwrap() as u8;
        let lo = (pair[1] as char).to_digit(16).unwrap() as u8;
        out.push(hi * 16 + lo);
    }
    out
}

#[test]
fn derive_is_deterministic() {
    let a = credstore::hashing::derive(b"hunter2", &[9, 8, 7, 6], 3);
    let b = credstore::hashing::derive(b"hunter2", &[9, 8, 7, 6], 3);
    assert_eq!(a, b);
}

#[test]
fn derive_cost_zero_is_one_hash() {
    let mut seeded = b"pw".to_vec();
    seeded.extend_from_slice(&[1, 2, 3]);
    assert_eq!(credstore::hashing::derive(b"pw", &[1, 2, 3], 0), sha256(seeded));
    assert_eq!(
        credstore::hashing::derive(b"pw", &[1, 2, 3], 0),
        hex_to_bytes("f90dc6810aa9f16394f7829a95b87cc6d025bae293eb43a6a13459df5a39d466")
    );
}

#[test]
fn derive_cost_one_rehashes_once() {
    let once = credstore::hashing::derive(b"pw", &[1, 2, 3], 0);
    assert_eq!(credstore::hashing::derive(b"pw", &[1, 2, 3], 1), sha256(once));
    assert_eq!(
        credstore::hashing::derive(b"pw", &[1, 2, 3], 1),
        hex_to_bytes("763103b8185de6f3792f64a41cb972ff1e47d1836bb091d862907adafd9b93f0")
    );
}

#[test]
fn derive_costs_differ() {
    let c0 = credstore::hashing::derive(b"pw", &[1, 2, 3], 0);
    let c1 = credstore::hashing::derive(b"pw", &[1, 2, 3], 1);
    assert_ne!(c0, c1);
}

#[test]
fn derive_salt_sensitivity() {
    let a = credstore::hashing::derive(b"pw", &[1, 2, 3], 2);
    let b = credstore::hashing::derive(b"pw", &[1, 2, 4], 2);
    assert_ne!(a, b);
}

#[test]
fn get_salt_default_length() {
    let salt = get_salt(None).expect("secure random source failed");
    let raw = base64::engine::general_purpose::STANDARD
        .decode(&salt)
        .expect("salt is not canonical base64");
    assert_eq!(raw.len(), DEF_SALT_LEN);
}

#[test]
fn get_salt_requested_length() {
    let salt = get_salt(Some(32)).expect("secure random source failed");
    let raw = base64::engine::general_purpose::STANDARD
        .decode(&salt)
        .expect("salt is not canonical base64");
    assert_eq!(raw.len(), 32);
}

#[test]
fn fresh_salts_differ() {
    let s1 = get_salt(None).expect("secure random source failed");
    let s2 = get_salt(None).expect("secure random source failed");
    assert_ne!(s1, s2);
    let h1 = hash_password("pw", &s1, 2).unwrap();
    let h2 = hash_password("pw", &s2, 2).unwrap();
    assert_ne!(h1, h2);
}

#[test]
fn hash_password_exact_encoding() {
    let h = hash_password("secret", "AQID", 2).unwrap();
    assert_eq!(h, "$sha256iter-1$2$AQID$UuHpPrV36r5IEwSKyJHWG3V2qLKy0s0WCe0CnssvkdI=$");
}

#[test]
fn hash_password_rejects_bad_salt() {
    assert!(hash_password("pw", "not base64!", 2).is_none());
    // Non-canonical padding is rejected too.
    assert!(hash_password("pw", "AQI", 2).is_none());
}

#[test]
fn hash_password_rejects_overflowing_cost() {
    assert!(hash_password("pw", "AQID", 64).is_none());
    assert!(hash_password("pw", "AQID", 9999).is_none());
}
