use credstore::sha256::sha256;

fn hex_to_bytes(s: &str) -> Vec<u8> {
    let chars: Vec<u8> = s.bytes().collect();
    assert!(chars.len() % 2 == 0);
    let mut out = Vec::new();
    for pair in chars.chunks(2) {
        let hi = (pair[0] as char).to_digit(16).unwrap() as u8;
        let lo = (pair[1] as char).to_digit(16).unwrap() as u8;
        out.push(hi * 16 + lo);
    }
    out
}

#[test]
fn empty_message_digest() {
    let digest = sha256(Vec::new());
    assert_eq!(
        digest,
        hex_to_bytes("e3b0c44298fc1c149afbf4c8996fb92427ae41e4649b934ca495991b7852b855")
    );
}

#[test]
fn abc_digest() {
    let digest = sha256(b"abc".to_vec());
    assert_eq!(
        digest,
        hex_to_bytes("ba7816bf8f01cfea414140de5dae2223b00361a396177a9cb410ff61f20015ad")
    );
}

#[test]
fn two_block_digest() {
    // 56 bytes: the padding spills into a second 512-bit chunk.
    let msg = b"abcdbcdecdefdefgefghfghighijhijkijkljklmklmnlmnomnopnopq".to_vec();
    assert_eq!(msg.len(), 56);
    let digest = sha256(msg);
    assert_eq!(
        digest,
        hex_to_bytes("248d6a61d20638b8e5c026930c3e6039a33ce45964ff2167f6ecedd419db06c1")
    );
}

#[test]
fn boundary_length_messages() {
    // 55 bytes: the length field just fits the first chunk.
    let digest55 = sha256(vec![b'a'; 55]);
    assert_eq!(
        digest55,
        hex_to_bytes("9f4390f8d30c2dd92ec9f095b65e2b9ae9b0a925a5258e241c9f1e910f734318")
    );
    // 64 bytes: exactly one unpadded chunk.
    let digest64 = sha256(vec![b'a'; 64]);
    assert_eq!(
        digest64,
        hex_to_bytes("ffe054fe7ae0cb6dc65c3af9b61d5209f439851db43d0ba5997337df154668eb")
    );
}

#[test]
fn digest_is_32_bytes() {
    assert_eq!(sha256(b"x".to_vec()).len(), 32);
    assert_eq!(sha256(vec![0u8; 1000]).len(), 32);
}
