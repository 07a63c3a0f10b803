use iptv_epg::chain::{decode_hex_to_string, hash_url};

#[test]
fn test_decode_hex_to_string_with_prefix() {
    let hex = "0x48656c6c6f";
    assert_eq!(decode_hex_to_string(hex), Some("Hello".to_string()));
}

#[test]
fn test_decode_hex_to_string_without_prefix() {
    let hex = "48656c6c6f";
    assert_eq!(decode_hex_to_string(hex), Some("Hello".to_string()));
}

#[test]
fn test_decode_hex_invalid_utf8() {
    // 0xff 0xfe is not valid UTF-8
    let hex = "0xfffe";
    assert_eq!(decode_hex_to_string(hex), None);
}

#[test]
fn test_decode_hex_skips_bad_pairs() {
    // "zz" is not a hex pair and is skipped; the rest decodes.
    assert_eq!(decode_hex_to_string("48zz69"), Some("Hi".to_string()));
}

#[test]
fn test_decode_hex_empty() {
    assert_eq!(decode_hex_to_string(""), Some(String::new()));
}

#[test]
fn test_hash_url_deterministic() {
    let url = "http://example.com/stream.m3u8";
    assert_eq!(hash_url(url), hash_url(url));
}

#[test]
fn test_hash_url_different_for_different_urls() {
    assert_ne!(
        hash_url("http://example.com/a.m3u8"),
        hash_url("http://example.com/b.m3u8")
    );
}

#[test]
fn test_hash_url_known_value() {
    // djb2 over an empty string is the initial basis.
    assert_eq!(hash_url(""), 5381);
    // one step: 5381 * 33 + 'a'
    assert_eq!(hash_url("a"), 5381u64.wrapping_mul(33).wrapping_add(97));
}
