use cryptopals::bytes::fixed_xor;
use cryptopals::hex::{decode_b64, encode_hex, hex_to_b64, parse_hex, InvalidBase64};
use cryptopals::xor::{
    decode_repeating_key_xor, decode_single_byte_xor_cipher, hamming_distance, infer_keysize,
    repeating_key_xor, score_key_byte, LengthMismatch,
};

const TEXT: &str = "It was a bright cold day in April, and the clocks were striking thirteen. \
Winston Smith, his chin nuzzled into his breast in an effort to escape the vile wind, slipped \
quickly through the glass doors of Victory Mansions, though not quickly enough to prevent a swirl \
of gritty dust from entering along with him. The hallway smelt of boiled cabbage and old rag mats. \
At one end of it a coloured poster, too large for indoor display, had been tacked to the wall. \
It depicted simply an enormous face, more than a metre wide: the face of a man of about forty-five, \
with a heavy black moustache and ruggedly handsome features.";

#[test]
fn hamming_distance_example() {
    assert_eq!(hamming_distance(b"this is a test", b"wokka wokka!!!"), Ok(37));
}

#[test]
fn hamming_distance_edge_cases() {
    assert_eq!(hamming_distance(b"", b""), Ok(0));
    assert_eq!(hamming_distance(&[0xff], &[0x00]), Ok(8));
    assert_eq!(hamming_distance(b"ab", b"abc"), Err(LengthMismatch));
}

#[test]
fn fixed_xor_example() {
    let a = parse_hex("1c0111001f010100061a024b53535009181c", true);
    let b = parse_hex("686974207468652062756c6c277320657965", true);
    assert_eq!(fixed_xor(&a, &b), parse_hex("746865206b696420646f6e277420706c6179", true));
    assert_eq!(fixed_xor(&[1, 2, 3], &[1]), vec![0]);
}

#[test]
fn repeating_key_xor_example() {
    let pt = b"Burning 'em, if you ain't quick and nimble\nI go crazy when I hear a cymbal";
    let expected = parse_hex(
        "0b3637272a2b2e63622c2e69692a23693a2a3c6324202d623d63343c2a26226324272765272a282b2f20430a652e2c652a3124333a653e2b2027630c692b20283165286326302e27282f",
        true,
    );
    assert_eq!(repeating_key_xor(pt, b"ICE"), expected);
}

#[test]
fn single_byte_key_recovered() {
    for k in [20u8, 65, 88, 125] {
        let ct: Vec<u8> = TEXT.bytes().map(|b| b ^ k).collect();
        let (key, score) = decode_single_byte_xor_cipher(&ct);
        assert_eq!(key, k);
        assert_eq!(score, score_key_byte(&ct, k));
    }
}

#[test]
fn single_byte_ties_go_to_smallest() {
    assert_eq!(decode_single_byte_xor_cipher(&[]), (20, 0));
    assert_eq!(score_key_byte(b"Hi, you!", 0), 7);
}

#[test]
fn repeating_key_recovered() {
    for key in [&b"Terminator"[..], &b"CryptoPals"[..], &b"BlackMagic"[..], &b"lemonadeQz"[..]] {
        let ct = repeating_key_xor(TEXT.as_bytes(), key);
        assert_eq!(infer_keysize(&ct), key.len());
        let (pt, k) = decode_repeating_key_xor(&ct);
        assert_eq!(k, key.to_vec());
        assert_eq!(pt, TEXT.as_bytes().to_vec());
    }
}

#[test]
fn parse_hex_both_widths() {
    assert_eq!(parse_hex("49276dFf", true), vec![0x49, 0x27, 0x6d, 0xff]);
    assert_eq!(parse_hex("a1F", false), vec![10, 1, 15]);
    assert_eq!(parse_hex("", true), Vec::<u8>::new());
}

#[test]
fn encode_hex_example() {
    assert_eq!(encode_hex("Hi\n"), "48690a");
    assert_eq!(encode_hex(""), "");
}

#[test]
fn hex_to_b64_example() {
    assert_eq!(
        hex_to_b64("49276d206b696c6c696e6720796f757220627261696e206c696b65206120706f69736f6e6f7573206d757368726f6f6d"),
        "SSdtIGtpbGxpbmcgeW91ciBicmFpbiBsaWtlIGEgcG9pc29ub3VzIG11c2hyb29t"
    );
    assert_eq!(hex_to_b64("ff"), "/w==");
}

#[test]
fn short_key_found_up_to_a_multiple() {
    let ct = repeating_key_xor(TEXT.as_bytes(), b"ICE");
    let k = infer_keysize(&ct);
    assert_eq!(k % 3, 0);
    assert!((2..=40).contains(&k));
}

#[test]
fn decode_b64_example() {
    assert_eq!(decode_b64("SGVsbG8="), Ok(b"Hello".to_vec()));
    assert_eq!(decode_b64(""), Ok(Vec::new()));
    assert_eq!(decode_b64("SGVsbG8*"), Err(InvalidBase64));
}
