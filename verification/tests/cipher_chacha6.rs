use nf_wgobfs::cipher::chacha6::{quarter_round, ChaCha6};

#[test]
fn test_chacha6_xor_reversible() {
    let key = [0x42u8; 32];
    let nonce = [0x24u8; 8];
    let mut cipher = ChaCha6::new(&key, &nonce);
    let mut data = [0xAAu8; 64];
    let orig = data.clone();
    cipher.xor(&mut data);

    let mut cipher2 = ChaCha6::new(&key, &nonce);
    cipher2.xor(&mut data);
    assert_eq!(data, orig);
}

#[test]
fn test_chacha6_endian_independence() {
    let key = [1u8; 32];
    let nonce = [2u8; 8];
    let mut cipher = ChaCha6::new(&key, &nonce);
    let mut data = [0x55u8; 32];
    let orig = data.clone();
    cipher.xor(&mut data);

    let mut cipher2 = ChaCha6::new(&key, &nonce);
    cipher2.xor(&mut data);
    assert_eq!(data, orig);
}

/// The quarter round of the ChaCha definition on its published example.
#[test]
fn quarter_round_matches_the_published_example() {
    let mut state = [0x11111111u32, 0x01020304, 0x9b8d6f43, 0x01234567];
    quarter_round(&mut state, 0, 1, 2, 3);
    assert_eq!(state, [0xea2a92f4, 0xcb1cf8ce, 0x4581472e, 0x5881c4bb]);
}

/// Bytes fixed by the definition of the cipher, whatever the host.
#[test]
fn chacha6_has_the_expected_ciphertext() {
    let mut cipher = ChaCha6::new(&[0x42u8; 32], &[0x24u8; 8]);
    let mut data = [0xAAu8; 64];
    cipher.xor(&mut data);
    let expected: [u8; 64] = [
        66, 57, 17, 245, 37, 122, 20, 168, 66, 186, 80, 20, 135, 100, 8, 192, 255, 131, 242, 33,
        182, 32, 121, 12, 93, 70, 0, 99, 92, 132, 24, 149, 9, 91, 161, 154, 219, 162, 32, 168,
        205, 166, 239, 180, 223, 13, 16, 112, 177, 18, 199, 159, 81, 103, 207, 88, 121, 56, 208,
        118, 91, 114, 33, 88,
    ];
    assert_eq!(data, expected);
}

/// Seventy bytes take two blocks; the second block has counter one.
#[test]
fn chacha6_keystream_runs_over_block_boundaries() {
    let key: Vec<u8> = (0..32u8).collect();
    let nonce: Vec<u8> = (100..108u8).collect();
    let mut cipher = ChaCha6::new(&key, &nonce);
    let mut data = [0u8; 70];
    cipher.xor(&mut data);
    let expected: [u8; 70] = [
        181, 66, 143, 249, 162, 180, 24, 26, 18, 201, 118, 34, 126, 61, 21, 87, 176, 56, 193, 81,
        167, 189, 160, 109, 111, 14, 62, 99, 14, 64, 14, 126, 242, 33, 36, 24, 50, 71, 116, 114,
        115, 105, 26, 70, 14, 27, 177, 247, 244, 138, 215, 228, 24, 213, 158, 254, 157, 144, 93,
        161, 35, 150, 132, 43, 102, 82, 164, 176, 70, 126,
    ];
    assert_eq!(data, expected);
}

/// Each call starts a fresh block: what is left of a block is not reused.
#[test]
fn chacha6_calls_continue_block_by_block() {
    let key: Vec<u8> = (0..32u8).collect();
    let nonce: Vec<u8> = (100..108u8).collect();
    let mut whole = ChaCha6::new(&key, &nonce);
    let mut stream = [0u8; 128];
    whole.xor(&mut stream);

    let mut parts = ChaCha6::new(&key, &nonce);
    let mut first = [0u8; 10];
    let mut second = [0u8; 10];
    parts.xor(&mut first);
    parts.xor(&mut second);
    assert_eq!(&first[..], &stream[..10]);
    assert_eq!(&second[..], &stream[64..74]);

    let mut block = parts.generate_block();
    assert_ne!(&block[..], &stream[..64]);
    let mut third = ChaCha6::new(&key, &nonce);
    block = third.generate_block();
    assert_eq!(&block[..], &stream[..64]);
}

#[test]
fn chacha6_on_empty_data_changes_nothing() {
    let mut cipher = ChaCha6::new(&[7u8; 32], &[9u8; 8]);
    let mut nothing: [u8; 0] = [];
    cipher.xor(&mut nothing);
    let mut fresh = ChaCha6::new(&[7u8; 32], &[9u8; 8]);
    let mut a = [0u8; 16];
    let mut b = [0u8; 16];
    cipher.xor(&mut a);
    fresh.xor(&mut b);
    assert_eq!(a, b);
}
