use rc5::expanded_keys::generate_expanded_keys_array;
use rc5::{Rc5Error, Word, RC5, S_SIZE};

#[test]
fn test_key_too_long() {
    let rc = RC5::new(&[0_u8; 256]).expect_err("error should be returned");

    assert!(rc.message().contains("The max size of key is 255"));
}

#[test]
fn encrypt_0_payload() {
    let rc = RC5::new(&[0_u8]).expect("no error");
    let output = rc.encrypt_with_ecb(&[]);

    assert!(output.is_empty())
}

#[test]
fn encode_a() {
    let key = vec![
        0x00, 0x01, 0x02, 0x03, 0x04, 0x05, 0x06, 0x07, 0x08, 0x09, 0x0A, 0x0B, 0x0C, 0x0D, 0x0E,
        0x0F,
    ];
    let pt = vec![0x00, 0x11, 0x22, 0x33, 0x44, 0x55, 0x66, 0x77];
    let ct = vec![0x2D, 0xDC, 0x14, 0x9B, 0xCF, 0x08, 0x8B, 0x9E];

    let rc = RC5::new(&key).expect("instance should be created");
    let res = rc.encrypt_with_ecb(&pt);
    assert_eq!(&ct[..], &res[..]);
}

#[test]
fn encode_b() {
    let key = vec![
        0x2B, 0xD6, 0x45, 0x9F, 0x82, 0xC5, 0xB3, 0x00, 0x95, 0x2C, 0x49, 0x10, 0x48, 0x81, 0xFF,
        0x48,
    ];
    let pt = vec![0xEA, 0x02, 0x47, 0x14, 0xAD, 0x5C, 0x4D, 0x84];
    let ct = vec![0x11, 0xE4, 0x3B, 0x86, 0xD2, 0x31, 0xEA, 0x64];

    let rc = RC5::new(&key).expect("instance should be created");
    let res = rc.encrypt_with_ecb(&pt);
    assert_eq!(&ct[..], &res[..]);
}

#[test]
fn decode_a() {
    let key = vec![
        0x00, 0x01, 0x02, 0x03, 0x04, 0x05, 0x06, 0x07, 0x08, 0x09, 0x0A, 0x0B, 0x0C, 0x0D, 0x0E,
        0x0F,
    ];
    let pt = vec![0x96, 0x95, 0x0D, 0xDA, 0x65, 0x4A, 0x3D, 0x62];
    let ct = vec![0x00, 0x11, 0x22, 0x33, 0x44, 0x55, 0x66, 0x77];

    let rc = RC5::new(&key).expect("instance should be created");
    let res = rc.decrypt_with_ecb(&ct);
    assert_eq!(&pt[..], &res[..]);
}

#[test]
fn decode_b() {
    let key = vec![
        0x2B, 0xD6, 0x45, 0x9F, 0x82, 0xC5, 0xB3, 0x00, 0x95, 0x2C, 0x49, 0x10, 0x48, 0x81, 0xFF,
        0x48,
    ];
    let pt = vec![0x63, 0x8B, 0x3A, 0x5E, 0xF7, 0x2B, 0x66, 0x3F];
    let ct = vec![0xEA, 0x02, 0x47, 0x14, 0xAD, 0x5C, 0x4D, 0x84];

    let rc = RC5::new(&key).expect("instance should be created");
    let res = rc.decrypt_with_ecb(&ct);

    assert_eq!(&pt[..], &res[..]);
}

#[test]
fn decode_is_inverse_of_encode() {
    let key = vec![0x10, 0x20, 0x30, 0x40, 0x50];
    let pt = vec![0x01, 0x02, 0x03, 0x04, 0x05, 0x06, 0x07, 0x08];

    let rc = RC5::new(&key).expect("instance should be created");
    let ct = rc.encrypt_with_ecb(&pt);
    assert_ne!(&ct[..], &pt[..]);
    let back = rc.decrypt_with_ecb(&ct);
    assert_eq!(&back[..], &pt[..]);
}

#[test]
fn block_inverse_round_trip() {
    let rc = RC5::new(&[0xAA, 0xBB, 0xCC]).expect("instance should be created");
    let plaintext: [Word; 2] = [0xDEAD_BEEF, 0x0123_4567];
    let mut ciphertext: [Word; 2] = [0, 0];
    rc.encrypt_block(&plaintext, &mut ciphertext);
    let mut recovered: [Word; 2] = [0, 0];
    rc.decrypt_block(&ciphertext, &mut recovered);
    assert_eq!(recovered, plaintext);

    let mut forward_again: [Word; 2] = [0, 0];
    rc.encrypt_block(&recovered, &mut forward_again);
    assert_eq!(forward_again, ciphertext);
}

#[test]
fn encode_block_vector_a() {
    let key = vec![
        0x00, 0x01, 0x02, 0x03, 0x04, 0x05, 0x06, 0x07, 0x08, 0x09, 0x0A, 0x0B, 0x0C, 0x0D, 0x0E,
        0x0F,
    ];
    let rc = RC5::new(&key).expect("instance should be created");
    let plaintext: [Word; 2] = [0x3322_1100, 0x7766_5544];
    let mut ciphertext: [Word; 2] = [0, 0];
    rc.encrypt_block(&plaintext, &mut ciphertext);
    assert_eq!(ciphertext, [0x9B14_DC2D, 0x9E8B_08CF]);
}

#[test]
fn identical_keys_give_identical_ciphertext() {
    let key = vec![0x42, 0x42, 0x42, 0x42, 0x42, 0x42, 0x42, 0x42];
    let pt = vec![0x00, 0x01, 0x02, 0x03, 0x04, 0x05, 0x06, 0x07, 0x08];

    let first = RC5::new(&key).expect("instance should be created");
    let second = RC5::new(&key).expect("instance should be created");
    assert_eq!(first.encrypt_with_ecb(&pt), second.encrypt_with_ecb(&pt));
}

#[test]
fn key_length_255_succeeds() {
    let key = [0x5A_u8; 255];
    let rc = RC5::new(&key);
    assert!(rc.is_ok());
}

#[test]
fn empty_key_succeeds() {
    let rc = RC5::new(&[]).expect("zero-length key is legal");
    let ct = rc.encrypt_with_ecb(&[]);
    assert!(ct.is_empty());

    let pt = vec![0x11, 0x22, 0x33, 0x44, 0x55, 0x66, 0x77, 0x88];
    let round = rc.decrypt_with_ecb(&rc.encrypt_with_ecb(&pt));
    assert_eq!(round, pt);
}

#[test]
fn table_too_small_is_rejected() {
    let err = generate_expanded_keys_array(&[0x01, 0x02], 1).expect_err("size 1 must be rejected");
    assert_eq!(err, Rc5Error::TableTooSmall);
    assert!(err
        .message()
        .contains("the size of extended key table should be at least 2"));
}

#[test]
fn generate_expanded_keys_is_deterministic() {
    let key = [0x07_u8; 16];
    let a = generate_expanded_keys_array(&key, S_SIZE).expect("table should be generated");
    let b = generate_expanded_keys_array(&key, S_SIZE).expect("table should be generated");
    assert_eq!(a.len(), S_SIZE);
    assert_eq!(a, b);
}

#[test]
fn free_block_functions_round_trip() {
    let key = [0x33_u8, 0x44, 0x55];
    let table = generate_expanded_keys_array(&key, S_SIZE).expect("table should be generated");
    let plaintext: [Word; 2] = [0xCAFE_F00D, 0x8000_0001];
    let mut ciphertext: [Word; 2] = [0, 0];
    rc5::encrypt::encrypt_block(rc5::ROUNDS, &table, &plaintext, &mut ciphertext);
    let mut recovered: [Word; 2] = [0, 0];
    rc5::decrypt::decrypt_block(rc5::ROUNDS, &table, &ciphertext, &mut recovered);
    assert_eq!(recovered, plaintext);
}

#[test]
fn ecb_repeats_ciphertext_for_repeated_blocks() {
    let key = vec![0x01, 0x02, 0x03, 0x04];
    let block: Vec<u8> = vec![0xA0, 0xA1, 0xA2, 0xA3, 0xA4, 0xA5, 0xA6, 0xA7];
    let rc = RC5::new(&key).expect("instance should be created");

    let twice: Vec<u8> = [&block[..], &block[..]].concat();
    let thrice: Vec<u8> = [&block[..], &block[..], &block[..]].concat();

    let one_ct = rc.encrypt_with_ecb(&block);
    let twice_ct = rc.encrypt_with_ecb(&twice);
    let thrice_ct = rc.encrypt_with_ecb(&thrice);

    assert_eq!(one_ct.len(), 8);
    assert_eq!(twice_ct, [&one_ct[..], &one_ct[..]].concat());
    assert_eq!(thrice_ct, [&one_ct[..], &one_ct[..], &one_ct[..]].concat());
}
