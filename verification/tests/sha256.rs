use mazu::sha256::{sha256, short_hex};

fn hex(b: &[u8]) -> String {
    b.iter().map(|x| format!("{:02x}", x)).collect()
}

#[test]
fn known_digests() {
    assert_eq!(
        hex(&sha256(b"")),
        "e3b0c44298fc1c149afbf4c8996fb92427ae41e4649b934ca495991b7852b855"
    );
    assert_eq!(
        hex(&sha256(b"abc")),
        "ba7816bf8f01cfea414140de5dae2223b00361a396177a9cb410ff61f20015ad"
    );
    assert_eq!(
        hex(&sha256(b"abcdbcdecdefdefgefghfghighijhijkijkljklmklmnlmnomnopnopq")),
        "248d6a61d20638b8e5c026930c3e6039a33ce45964ff2167f6ecedd419db06c1"
    );
}

#[test]
fn digest_of_a_message_filling_the_padding_block() {
    // 55 bytes fit with the padding in one block, 56 need a second one.
    let a55 = vec![b'a'; 55];
    let a56 = vec![b'a'; 56];
    assert_eq!(
        hex(&sha256(&a55)),
        "9f4390f8d30c2dd92ec9f095b65e2b9ae9b0a925a5258e241c9f1e910f734318"
    );
    assert_eq!(
        hex(&sha256(&a56)),
        "b35439a4ac6f0948b6d6f9e3c6af0f5f590ce20f1bde7090ef7970686ec6738a"
    );
}

#[test]
fn short_hex_keeps_sixteen_digits() {
    assert_eq!(short_hex(b"abc"), "ba7816bf8f01cfea");
    assert_eq!(short_hex(b""), "e3b0c44298fc1c14");
}
