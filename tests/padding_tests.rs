use cryptopals::padding::{is_pkcs7_padded, pkcs7_padding, pkcs7_unpadding, PaddingError};

#[test]
fn pads_partial_block() {
    let r = pkcs7_padding(b"YELLOW SUBMARINE", 20).unwrap();
    assert_eq!(r, b"YELLOW SUBMARINE\x04\x04\x04\x04".to_vec());
}

#[test]
fn pads_full_block_with_whole_block() {
    let r = pkcs7_padding(b"YELLOW SUBMARINE", 16).unwrap();
    assert_eq!(r.len(), 32);
    assert_eq!(&r[..16], b"YELLOW SUBMARINE");
    assert!(r[16..].iter().all(|&b| b == 16));
}

#[test]
fn pads_empty_input() {
    assert_eq!(pkcs7_padding(b"", 8).unwrap(), vec![8u8; 8]);
}

#[test]
fn pads_two_full_blocks() {
    let data = vec![7u8; 32];
    let r = pkcs7_padding(&data, 16).unwrap();
    assert_eq!(r.len(), 48);
    assert!(r[32..].iter().all(|&b| b == 16));
}

#[test]
fn rejects_zero_block_size() {
    assert_eq!(pkcs7_padding(b"abc", 0), Err(PaddingError::InvalidBlockSize));
    assert_eq!(pkcs7_padding(b"abc", 256), Err(PaddingError::InvalidBlockSize));
}

#[test]
fn recognises_valid_padding() {
    assert!(is_pkcs7_padded(b"ICE ICE BABY\x04\x04\x04\x04", 16));
    assert!(!is_pkcs7_padded(b"ICE ICE BABY\x05\x05\x05\x05", 16));
    assert!(!is_pkcs7_padded(b"ICE ICE BABY\x01\x02\x03\x04", 16));
    assert!(!is_pkcs7_padded(b"", 16));
    assert!(!is_pkcs7_padded(b"ICE ICE BABY\x04\x04\x04", 16));
    assert!(!is_pkcs7_padded(b"ICE ICE BABY\x04\x04\x04\x04", 0));
}

#[test]
fn strips_valid_padding() {
    assert_eq!(pkcs7_unpadding(b"ICE ICE BABY\x04\x04\x04\x04", 16).unwrap(), b"ICE ICE BABY".to_vec());
    let full = [16u8; 16];
    assert_eq!(pkcs7_unpadding(&full, 16).unwrap(), Vec::<u8>::new());
}

#[test]
fn strip_rejects_zero_last_byte() {
    let mut b = vec![1u8; 16];
    b[15] = 0;
    assert_eq!(pkcs7_unpadding(&b, 16), Err(PaddingError::Invalid));
}

#[test]
fn strip_rejects_last_byte_beyond_length() {
    let mut b = vec![3u8; 16];
    b[15] = 17;
    assert_eq!(pkcs7_unpadding(&b, 16), Err(PaddingError::Invalid));
    assert_eq!(pkcs7_unpadding(&[5u8, 5, 5, 5], 4), Err(PaddingError::Invalid));
}

#[test]
fn strip_rejects_mismatched_tail() {
    assert_eq!(pkcs7_unpadding(b"ICE ICE BABY\x01\x02\x03\x04", 16), Err(PaddingError::Invalid));
}

#[test]
fn pad_then_strip_round_trip() {
    for n in 0..40usize {
        let data: Vec<u8> = (0..n as u8).collect();
        let p = pkcs7_padding(&data, 16).unwrap();
        assert!(p.len() > data.len() && p.len() % 16 == 0);
        assert_eq!(pkcs7_unpadding(&p, 16).unwrap(), data);
    }
}
