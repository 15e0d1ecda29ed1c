//! Unit tests for the byte, hash and edit-distance codecs.

use mdict_reader::lzo::decompress;
use mdict_reader::lzo::Lzo1xDecompressor;
use mdict_reader::ripemd128::ripemd128;
use mdict_reader::utils::bytes_to_number;
use mdict_reader::utils::decode_string;
use mdict_reader::utils::levenshtein_distance;
use mdict_reader::utils::parse_header;
use mdict_reader::utils::strip_key;
use mdict_reader::utils::unescape_entities;
use mdict_reader::types::Encoding;

#[test]
fn test_decompress_empty() {
    let result = decompress(&[], 0);
    assert!(result.is_ok());
    assert!(result.unwrap().is_empty());
}

#[test]
fn test_lzo_in_tree_literal_and_match() {
    // lead byte 18: one literal byte; then 17: a three-byte match at
    // offset zero, which reads the zero region past the output
    let mut d = Lzo1xDecompressor::new();
    let out = d.decompress(&[18, 65, 17, 0, 0], 4).unwrap();
    assert_eq!(out, vec![65, 0, 0, 0]);
}

#[test]
fn test_lzo_roundtrip_via_minilzo() {
    let payload: Vec<u8> = (0..255u8).chain(0..255u8).collect();
    let mut lzo = minilzo_rs::LZO::init().unwrap();
    let compressed = lzo.compress(&payload).unwrap();
    let out = decompress(&compressed, payload.len()).unwrap();
    assert_eq!(out, payload);
}

#[test]
fn test_ripemd128_empty() {
    let result = ripemd128(&[]);
    let expected = [
        0xcd, 0xf2, 0x62, 0x13, 0xa1, 0x50, 0xdc, 0x3e, 0xcb, 0x61, 0x0f, 0x18, 0xf6, 0xb3, 0x8b,
        0x46,
    ];
    assert_eq!(result, expected.to_vec());
}

#[test]
fn test_ripemd128_a() {
    let result = ripemd128(b"a");
    let expected = [
        0x86, 0xbe, 0x7a, 0xfa, 0x33, 0x9d, 0x0f, 0xc7, 0xcf, 0xc7, 0x85, 0xe7, 0x2f, 0x57, 0x8d,
        0x33,
    ];
    assert_eq!(result, expected.to_vec());
}

#[test]
fn test_ripemd128_abc() {
    let result = ripemd128(b"abc");
    let expected = [
        0xc1, 0x4a, 0x12, 0x19, 0x9c, 0x66, 0xe4, 0xba, 0x84, 0x63, 0x6b, 0x0f, 0x69, 0x14, 0x4c,
        0x77,
    ];
    assert_eq!(result, expected.to_vec());
}

#[test]
fn test_ripemd128_message_digest() {
    let result = ripemd128(b"message digest");
    let expected = [
        0x9e, 0x32, 0x7b, 0x3d, 0x6e, 0x52, 0x30, 0x62, 0xaf, 0xc1, 0x13, 0x2d, 0x7d, 0xf9, 0xd1,
        0xb8,
    ];
    assert_eq!(result, expected.to_vec());
}

#[test]
fn test_ripemd128_alphabet() {
    let result = ripemd128(b"abcdefghijklmnopqrstuvwxyz");
    let expected = [
        0xfd, 0x2a, 0xa6, 0x07, 0xf7, 0x1d, 0xc8, 0xf5, 0x10, 0x71, 0x49, 0x22, 0xb3, 0x71, 0x83,
        0x4e,
    ];
    assert_eq!(result, expected.to_vec());
}

#[test]
fn test_ripemd128_alphanumeric() {
    let result = ripemd128(b"ABCDEFGHIJKLMNOPQRSTUVWXYZabcdefghijklmnopqrstuvwxyz0123456789");
    let expected = [
        0xd1, 0xe9, 0x59, 0xeb, 0x17, 0x9c, 0x91, 0x1f, 0xae, 0xa4, 0x62, 0x4c, 0x60, 0xc5, 0xc7,
        0x02,
    ];
    assert_eq!(result, expected.to_vec());
}

#[test]
fn test_read_u32_be() {
    let bytes = [0x00, 0x00, 0x04, 0xa6];
    assert_eq!(bytes_to_number(&bytes), 1190);
}

#[test]
fn test_read_u64_be() {
    let bytes = [0x00, 0x00, 0x04, 0xa6, 0x01, 0x02, 0x03, 0x04];
    assert_eq!(bytes_to_number(&bytes), 5111027991300);
}

#[test]
fn test_read_u64_be_2() {
    let bytes = [0x00, 0x00, 0x04, 0xa6, 0x00, 0x00, 0x01, 0x64];
    assert_eq!(bytes_to_number(&bytes), 5111011082596);
}

#[test]
fn test_read_u64_be_max_safe() {
    let bytes = [0x00, 0x1f, 0xff, 0xff, 0xff, 0xff, 0xff, 0xff];
    assert_eq!(bytes_to_number(&bytes), 9007199254740991);
}

#[test]
fn test_read_u64_be_various() {
    let bytes1 = [0x00, 0x00, 0x00, 0x10, 0x00, 0x00, 0x00, 0x00];
    assert_eq!(bytes_to_number(&bytes1), 0x1000000000);

    let bytes2 = [0x00, 0x00, 0x00, 0x00, 0x00, 0x00, 0x00, 0x01];
    assert_eq!(bytes_to_number(&bytes2), 0x01);

    let bytes3 = [0x00, 0x00, 0x00, 0x00, 0x00, 0x00, 0x01, 0x00];
    assert_eq!(bytes_to_number(&bytes3), 0x0100);

    let bytes4 = [0x00, 0x00, 0x00, 0x00, 0x00, 0x01, 0x00, 0x00];
    assert_eq!(bytes_to_number(&bytes4), 0x010000);

    let bytes5 = [0x00, 0x00, 0x00, 0x00, 0x01, 0x00, 0x00, 0x00];
    assert_eq!(bytes_to_number(&bytes5), 0x01000000);

    let bytes6 = [0x00, 0x00, 0x00, 0x01, 0x00, 0x00, 0x00, 0x00];
    assert_eq!(bytes_to_number(&bytes6), 0x0100000000);

    let bytes7 = [0x00, 0x00, 0x01, 0x00, 0x00, 0x00, 0x00, 0x00];
    assert_eq!(bytes_to_number(&bytes7), 0x010000000000);

    let bytes8 = [0x00, 0x00, 0x11, 0x00, 0x00, 0x00, 0x00, 0x00];
    assert_eq!(bytes_to_number(&bytes8), 0x110000000000);

    let bytes9 = [0x00, 0x01, 0x11, 0x00, 0x00, 0x00, 0x00, 0x00];
    assert_eq!(bytes_to_number(&bytes9), 0x01110000000000);

    let bytes10 = [0x00, 0x11, 0x11, 0x00, 0x00, 0x00, 0x00, 0x00];
    assert_eq!(bytes_to_number(&bytes10), 0x11110000000000);

    let bytes11 = [0x00, 0x11, 0x11, 0x11, 0x11, 0x11, 0x11, 0x11];
    assert_eq!(bytes_to_number(&bytes11), 0x11111111111111);
}

#[test]
fn test_read_u16_be() {
    let bytes1 = [0x00, 0x20];
    assert_eq!(bytes_to_number(&bytes1), 0x20);

    let bytes2 = [0x20, 0x20];
    assert_eq!(bytes_to_number(&bytes2), 0x2020);
}

#[test]
fn test_read_u8() {
    let bytes1 = [0x1a];
    assert_eq!(bytes_to_number(&bytes1), 0x1a);

    let bytes2 = [0x20];
    assert_eq!(bytes_to_number(&bytes2), 0x20);
}

#[test]
fn test_levenshtein_distance() {
    assert_eq!(levenshtein_distance("hello", "hello"), 0);
    assert_eq!(levenshtein_distance("hello", "helo"), 1);
    assert_eq!(levenshtein_distance("hello", "world"), 4);
    assert_eq!(levenshtein_distance("", "abc"), 3);
    assert_eq!(levenshtein_distance("abc", ""), 3);
}

#[test]
fn test_unescape_entities() {
    assert_eq!(unescape_entities("&lt;b&gt;x&amp;y&quot;&apos;"), "<b>x&y\"'");
    assert_eq!(unescape_entities("plain"), "plain");
}

#[test]
fn test_parse_header_attrs() {
    let attrs = parse_header("<Dict Name=\"My &amp; Dict\" Encoding=\"UTF-8\"/>");
    assert_eq!(attrs.len(), 2);
    assert_eq!(attrs[0].0, "Name");
    assert_eq!(attrs[0].1, "My & Dict");
    assert_eq!(attrs[1].0, "Encoding");
    assert_eq!(attrs[1].1, "UTF-8");
}

#[test]
fn test_strip_key_mdx() {
    assert_eq!(strip_key("Hello, World!", false), "helloworld");
    assert_eq!(strip_key("  Mixed-Case_Key  ", false), "mixedcasekey");
}

#[test]
fn test_strip_key_mdd() {
    assert_eq!(strip_key("\\A_B.PNG", true), "\\a!b");
}

#[test]
fn test_decode_string_gb18030() {
    let bytes = [0xd6u8, 0xd0];
    let s = decode_string(&bytes, Encoding::Gb18030).unwrap();
    assert_eq!(s, "\u{4e2d}");
}

#[test]
fn test_decode_string_big5() {
    let bytes = [0xa4u8, 0xa4];
    let s = decode_string(&bytes, Encoding::Big5).unwrap();
    assert_eq!(s, "\u{4e2d}");
}

#[test]
fn test_decode_string_utf8_rejects_invalid() {
    let bytes = [0xffu8, 0xfe, 0xfd];
    assert!(decode_string(&bytes, Encoding::Utf8).is_err());
}
