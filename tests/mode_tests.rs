use cryptopals::detect::detect_aes_ecb;
use cryptopals::modes::{decrypt_aes_cbc, decrypt_aes_ecb, encrypt_aes_cbc, encrypt_aes_ecb, ModeError};
use cryptopals::padding::PaddingError;

const KEY: &[u8] = b"YELLOW SUBMARINE";

fn from_hex(s: &str) -> Vec<u8> {
    (0..s.len()).step_by(2).map(|i| u8::from_str_radix(&s[i..i + 2], 16).unwrap()).collect()
}

#[test]
fn ecb_matches_aes_known_answer() {
    let key = from_hex("000102030405060708090a0b0c0d0e0f");
    let pt = from_hex("00112233445566778899aabbccddeeff");
    let ct = encrypt_aes_ecb(&pt, &key);
    assert_eq!(ct.len(), 32);
    assert_eq!(ct[..16].to_vec(), from_hex("69c4e0d86a7b0430d8cdb78070b4c55a"));
}

#[test]
fn ecb_round_trip() {
    for n in [0usize, 1, 15, 16, 17, 31, 32, 100] {
        let pt: Vec<u8> = (0..n).map(|i| (i * 7 % 251) as u8).collect();
        let ct = encrypt_aes_ecb(&pt, KEY);
        assert!(ct.len() > pt.len() && ct.len() % 16 == 0);
        assert_eq!(decrypt_aes_ecb(&ct, KEY).unwrap(), pt);
    }
}

#[test]
fn ecb_rejects_partial_block() {
    assert_eq!(decrypt_aes_ecb(&[0u8; 17], KEY), Err(ModeError::InvalidLength));
}

#[test]
fn ecb_reports_bad_padding() {
    assert_eq!(decrypt_aes_ecb(&[], KEY), Err(ModeError::Padding(PaddingError::Invalid)));
}

#[test]
fn cbc_round_trip_zero_iv() {
    let pt = b"Rollin' in my 5.0 with my rag-top down so my hair can blow".to_vec();
    let ct = encrypt_aes_cbc(&pt, KEY, None).unwrap();
    assert_eq!(decrypt_aes_cbc(&ct, KEY, None).unwrap(), pt);
    let zero = [0u8; 16];
    assert_eq!(encrypt_aes_cbc(&pt, KEY, Some(&zero)).unwrap(), ct);
}

#[test]
fn cbc_round_trip_given_iv() {
    let iv: Vec<u8> = (0..16).collect();
    for n in [0usize, 5, 16, 33, 64] {
        let pt: Vec<u8> = (0..n).map(|i| (i * 13 % 256) as u8).collect();
        let ct = encrypt_aes_cbc(&pt, KEY, Some(&iv)).unwrap();
        assert_eq!(ct.len() % 16, 0);
        assert_eq!(decrypt_aes_cbc(&ct, KEY, Some(&iv)).unwrap(), pt);
    }
}

#[test]
fn cbc_first_block_is_ecb_of_xor_with_iv() {
    let iv = [0x11u8; 16];
    let pt = [0x22u8; 16];
    let ct = encrypt_aes_cbc(&pt, KEY, Some(&iv)).unwrap();
    let x = [0x33u8; 16];
    let ecb = encrypt_aes_ecb(&x, KEY);
    assert_eq!(ct[..16], ecb[..16]);
}

#[test]
fn cbc_rejects_bad_iv() {
    assert_eq!(encrypt_aes_cbc(b"abc", KEY, Some(&[0u8; 15])), Err(ModeError::InvalidIvLength));
    assert_eq!(decrypt_aes_cbc(&[0u8; 16], KEY, Some(&[0u8; 17])), Err(ModeError::InvalidIvLength));
}

#[test]
fn cbc_rejects_partial_block() {
    assert_eq!(decrypt_aes_cbc(&[0u8; 20], KEY, None), Err(ModeError::InvalidLength));
}

#[test]
fn ecb_detection_on_repeated_blocks() {
    let pt = [b'A'; 32];
    let ecb = encrypt_aes_ecb(&pt, KEY);
    assert_eq!(ecb[..16], ecb[16..32]);
    assert!(detect_aes_ecb(&ecb, 16));
    let cbc = encrypt_aes_cbc(&pt, KEY, None).unwrap();
    assert_ne!(cbc[..16], cbc[16..32]);
    assert!(!detect_aes_ecb(&cbc, 16));
}

#[test]
fn detection_counts_partial_last_chunk() {
    assert!(!detect_aes_ecb(b"abcdabc", 4));
    assert!(!detect_aes_ecb(b"abcxabc", 3));
    assert!(detect_aes_ecb(b"abcabcx", 3));
    assert!(detect_aes_ecb(b"xyabcdab", 2));
    assert!(!detect_aes_ecb(b"", 16));
}

#[test]
fn ecb_change_stays_in_its_block() {
    let mut pt = vec![0u8; 64];
    let c1 = encrypt_aes_ecb(&pt, KEY);
    pt[20] ^= 1;
    let c2 = encrypt_aes_ecb(&pt, KEY);
    assert_eq!(c1[..16], c2[..16]);
    assert_ne!(c1[16..32], c2[16..32]);
    assert_eq!(c1[32..], c2[32..]);
}

#[test]
fn cbc_change_spreads_forward() {
    let mut pt = vec![0u8; 64];
    let c1 = encrypt_aes_cbc(&pt, KEY, None).unwrap();
    pt[20] ^= 1;
    let c2 = encrypt_aes_cbc(&pt, KEY, None).unwrap();
    assert_eq!(c1[..16], c2[..16]);
    for b in 1..5 {
        assert_ne!(c1[16 * b..16 * b + 16], c2[16 * b..16 * b + 16]);
    }
}

#[test]
fn cbc_bit_flip_corrupts_two_blocks() {
    let pt: Vec<u8> = (0..64u8).collect();
    let mut ct = encrypt_aes_cbc(&pt, KEY, None).unwrap();
    ct[16 + 3] ^= 0x80;
    let mut raw = ct.clone();
    raw.extend_from_slice(&encrypt_aes_cbc(&[], KEY, Some(&ct[ct.len() - 16..])).unwrap());
    let out = decrypt_aes_cbc(&raw, KEY, None).unwrap();
    assert_eq!(out[..16], pt[..16]);
    assert_ne!(out[16..32], pt[16..32]);
    assert_eq!(out[32 + 3], pt[32 + 3] ^ 0x80);
    assert_eq!(out[48..64], pt[48..64]);
}
