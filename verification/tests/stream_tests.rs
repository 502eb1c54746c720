//! RFC 7539 test vectors and stream behaviour at the edges.

use chacha::{ChaChaState, Error};

#[test]
fn rfc_7539_permute_20() {
    let mut xs = [
        0x61707865, 0x3320646e, 0x79622d32, 0x6b206574, 0x03020100, 0x07060504, 0x0b0a0908,
        0x0f0e0d0c, 0x13121110, 0x17161514, 0x1b1a1918, 0x1f1e1d1c, 0x00000001, 0x09000000,
        0x4a000000, 0x00000000,
    ];

    chacha::permute_only(20, &mut xs);

    assert_eq!(
        xs,
        [
            0x837778ab, 0xe238d763, 0xa67ae21e, 0x5950bb2f, 0xc4f2d0c7, 0xfc62bb2f, 0x8fa018fc,
            0x3f5ec7b7, 0x335271c2, 0xf29489f3, 0xeabda8fc, 0x82e46ebd, 0xd19c12b4, 0xb04e16de,
            0x9e83d0cb, 0x4e3c50a2,
        ]
    );
}

#[test]
fn rfc_7539_permute_and_add_20() {
    let mut xs = [
        0x61707865, 0x3320646e, 0x79622d32, 0x6b206574, 0x03020100, 0x07060504, 0x0b0a0908,
        0x0f0e0d0c, 0x13121110, 0x17161514, 0x1b1a1918, 0x1f1e1d1c, 0x00000001, 0x09000000,
        0x4a000000, 0x00000000,
    ];

    chacha::permute_and_add(20, &mut xs);

    assert_eq!(
        xs,
        [
            0xe4e7f110, 0x15593bd1, 0x1fdd0f50, 0xc47120a3, 0xc7f4d1c7, 0x0368c033, 0x9aaa2204,
            0x4e6cd4c3, 0x466482d2, 0x09aa9f07, 0x05d7c214, 0xa2028bd9, 0xd19c12b5, 0xb94e16de,
            0xe883d0cb, 0x4e3c50a2,
        ]
    );
}

#[test]
fn rfc_7539_case_1() {
    let mut st = ChaChaState::new(
        &[
            0x00, 0x01, 0x02, 0x03, 0x04, 0x05, 0x06, 0x07, 0x08, 0x09, 0x0a, 0x0b, 0x0c, 0x0d,
            0x0e, 0x0f, 0x10, 0x11, 0x12, 0x13, 0x14, 0x15, 0x16, 0x17, 0x18, 0x19, 0x1a, 0x1b,
            0x1c, 0x1d, 0x1e, 0x1f,
        ],
        &[0x00, 0x00, 0x00, 0x09, 0x00, 0x00, 0x00, 0x4a, 0x00, 0x00, 0x00, 0x00],
    );

    let mut buf = [0u8; 128];
    st.xor_read(&mut buf).unwrap();
    assert_eq!(
        buf[64..].to_vec(),
        [
            0x10, 0xf1, 0xe7, 0xe4, 0xd1, 0x3b, 0x59, 0x15, 0x50, 0x0f, 0xdd, 0x1f, 0xa3, 0x20,
            0x71, 0xc4, 0xc7, 0xd1, 0xf4, 0xc7, 0x33, 0xc0, 0x68, 0x03, 0x04, 0x22, 0xaa, 0x9a,
            0xc3, 0xd4, 0x6c, 0x4e, 0xd2, 0x82, 0x64, 0x46, 0x07, 0x9f, 0xaa, 0x09, 0x14, 0xc2,
            0xd7, 0x05, 0xd9, 0x8b, 0x02, 0xa2, 0xb5, 0x12, 0x9c, 0xd1, 0xde, 0x16, 0x4e, 0xb9,
            0xcb, 0xd0, 0x83, 0xe8, 0xa2, 0x50, 0x3c, 0x4e,
        ]
        .to_vec()
    );
}

const SUNSCREEN_KEY: [u8; 32] = [
    0x00, 0x01, 0x02, 0x03, 0x04, 0x05, 0x06, 0x07, 0x08, 0x09, 0x0a, 0x0b, 0x0c, 0x0d, 0x0e,
    0x0f, 0x10, 0x11, 0x12, 0x13, 0x14, 0x15, 0x16, 0x17, 0x18, 0x19, 0x1a, 0x1b, 0x1c, 0x1d,
    0x1e, 0x1f,
];

const SUNSCREEN_NONCE: [u8; 12] = [
    0x00, 0x00, 0x00, 0x00, 0x00, 0x00, 0x00, 0x4a, 0x00, 0x00, 0x00, 0x00,
];

const SUNSCREEN_CIPHERTEXT: [u8; 114] = [
    0x6e, 0x2e, 0x35, 0x9a, 0x25, 0x68, 0xf9, 0x80, 0x41, 0xba, 0x07, 0x28, 0xdd, 0x0d, 0x69,
    0x81, 0xe9, 0x7e, 0x7a, 0xec, 0x1d, 0x43, 0x60, 0xc2, 0x0a, 0x27, 0xaf, 0xcc, 0xfd, 0x9f,
    0xae, 0x0b, 0xf9, 0x1b, 0x65, 0xc5, 0x52, 0x47, 0x33, 0xab, 0x8f, 0x59, 0x3d, 0xab, 0xcd,
    0x62, 0xb3, 0x57, 0x16, 0x39, 0xd6, 0x24, 0xe6, 0x51, 0x52, 0xab, 0x8f, 0x53, 0x0c, 0x35,
    0x9f, 0x08, 0x61, 0xd8, 0x07, 0xca, 0x0d, 0xbf, 0x50, 0x0d, 0x6a, 0x61, 0x56, 0xa3, 0x8e,
    0x08, 0x8a, 0x22, 0xb6, 0x5e, 0x52, 0xbc, 0x51, 0x4d, 0x16, 0xcc, 0xf8, 0x06, 0x81, 0x8c,
    0xe9, 0x1a, 0xb7, 0x79, 0x37, 0x36, 0x5a, 0xf9, 0x0b, 0xbf, 0x74, 0xa3, 0x5b, 0xe6, 0xb4,
    0x0b, 0x8e, 0xed, 0xf2, 0x78, 0x5e, 0x42, 0x87, 0x4d,
];

const SUNSCREEN_PLAINTEXT: &[u8; 114] = b"Ladies and Gentlemen of the class of '99: If I could offer you only one tip for the future, sunscreen would be it.";

#[test]
fn rfc_7539_case_2() {
    let mut st = ChaChaState::new(&SUNSCREEN_KEY, &SUNSCREEN_NONCE);

    let mut buf = [0u8; 178];
    for (dest, src) in buf[64..].iter_mut().zip(SUNSCREEN_PLAINTEXT.iter()) {
        *dest = *src;
    }
    st.xor_read(&mut buf[..]).unwrap();

    assert_eq!(buf[64..].to_vec(), SUNSCREEN_CIPHERTEXT.to_vec());
}

#[test]
fn rfc_7539_case_2_chunked() {
    let mut st = ChaChaState::new(&SUNSCREEN_KEY, &SUNSCREEN_NONCE);

    let mut buf = [0u8; 178];
    for (dest, src) in buf[64..].iter_mut().zip(SUNSCREEN_PLAINTEXT.iter()) {
        *dest = *src;
    }
    st.xor_read(&mut buf[..40]).unwrap();
    st.xor_read(&mut buf[40..78]).unwrap();
    st.xor_read(&mut buf[78..79]).unwrap();
    st.xor_read(&mut buf[79..128]).unwrap();
    st.xor_read(&mut buf[128..]).unwrap();

    assert_eq!(buf[64..].to_vec(), SUNSCREEN_CIPHERTEXT.to_vec());
}

#[test]
fn seek_off_end() {
    let mut st = ChaChaState::new(&[0xff; 32], &[0; 12]);

    assert_eq!(st.seek_to(0x40_0000_0000), Err(Error::EndReached));
    assert_eq!(st.xor_read(&mut [0u8; 1]), Err(Error::EndReached));

    assert_eq!(st.seek_to(1), Ok(()));
    assert!(st.xor_read(&mut [0u8; 1]).is_ok());
}

#[test]
fn read_last_bytes() {
    let mut st = ChaChaState::new(&[0xff; 32], &[0; 12]);

    st.seek_to(0x40_0000_0000 - 10).expect("should be able to seek to near the end");
    st.xor_read(&mut [0u8; 10]).expect("should be able to read last 10 bytes");
    assert!(st.xor_read(&mut [0u8; 1]).is_err());
    assert!(st.xor_read(&mut [0u8; 10]).is_err());

    st.seek_to(0x40_0000_0000 - 10).unwrap();
    assert!(st.xor_read(&mut [0u8; 11]).is_err());
}

#[test]
fn seek_consistency() {
    let mut st = ChaChaState::new(&[0x50; 32], &[0x44; 12]);

    let mut continuous = [0u8; 1000];
    st.xor_read(&mut continuous).unwrap();

    let mut chunks = [0u8; 1000];

    st.seek_to(128).unwrap();
    st.xor_read(&mut chunks[128..300]).unwrap();

    st.seek_to(0).unwrap();
    st.xor_read(&mut chunks[0..10]).unwrap();

    st.seek_to(300).unwrap();
    st.xor_read(&mut chunks[300..533]).unwrap();

    st.seek_to(533).unwrap();
    st.xor_read(&mut chunks[533..]).unwrap();

    st.seek_to(10).unwrap();
    st.xor_read(&mut chunks[10..128]).unwrap();

    assert_eq!(continuous.to_vec(), chunks.to_vec());

    // Hitting the end with the small block counter must not disturb a nonce word.
    assert!(st.seek_to(0x40_0000_0000).is_err());
    let mut small = [0u8; 100];
    st.seek_to(0).unwrap();
    st.xor_read(&mut small).unwrap();
    assert_eq!(small.to_vec(), continuous[..100].to_vec());
}

#[test]
fn small_nonce_round_trip() {
    // Encrypt with the original-mode 8-byte nonce, seek back, decrypt.
    let key = [0x42u8; 32];
    let nonce = [0x24u8; 8];
    let plaintext = b"attack at dawn, retreat at dusk";

    let mut st = ChaChaState::new_with_small_nonce(&key, &nonce);
    let mut buf = [0u8; 31];
    buf.copy_from_slice(plaintext);
    st.xor_read(&mut buf).unwrap();
    assert_ne!(buf.to_vec(), plaintext.to_vec());

    st.seek_to(0).unwrap();
    st.xor_read(&mut buf).unwrap();
    assert_eq!(buf.to_vec(), plaintext.to_vec());
}

#[test]
fn small_nonce_chunking_matches_single_read() {
    let key = [0x07u8; 32];
    let nonce = [0x19u8; 8];

    let mut st = ChaChaState::new_with_small_nonce(&key, &nonce);
    let mut whole = [0u8; 200];
    st.xor_read(&mut whole).unwrap();

    let mut st2 = ChaChaState::new_with_small_nonce(&key, &nonce);
    let mut parts = [0u8; 200];
    st2.xor_read(&mut parts[..1]).unwrap();
    st2.xor_read(&mut parts[1..64]).unwrap();
    st2.xor_read(&mut parts[64..65]).unwrap();
    st2.xor_read(&mut parts[65..199]).unwrap();
    st2.xor_read(&mut parts[199..]).unwrap();

    assert_eq!(whole.to_vec(), parts.to_vec());
}

#[test]
fn seek_mid_block_matches_straight_read() {
    // A seek into the middle of a block resumes at the exact byte.
    let mut st = ChaChaState::new(&[0x50; 32], &[0x44; 12]);
    let mut straight = [0u8; 300];
    st.xor_read(&mut straight).unwrap();

    let mut st2 = ChaChaState::new(&[0x50; 32], &[0x44; 12]);
    st2.seek_to(77).unwrap();
    let mut tail = [0u8; 223];
    st2.xor_read(&mut tail).unwrap();
    assert_eq!(tail.to_vec(), straight[77..].to_vec());
}

#[test]
fn empty_read_always_succeeds() {
    let mut st = ChaChaState::new(&[0xff; 32], &[0; 12]);
    assert_eq!(st.xor_read(&mut []), Ok(()));
    assert!(st.seek_to(0x40_0000_0000).is_err());
    assert_eq!(st.xor_read(&mut []), Ok(()));
}
