use iptv_epg::iptv_org::{decompress_gzip, IptvOrgChannel, IptvOrgGuide, IptvOrgIndex};
use std::io::Write;

fn make_index() -> IptvOrgIndex {
    let mut index = IptvOrgIndex::new();
    index.update(
        vec![
            IptvOrgChannel {
                id: "TF1.fr".to_string(),
                name: "TF1".to_string(),
                alt_names: vec!["Télévision française 1".to_string()],
                country: "FR".to_string(),
                categories: vec![],
            },
            IptvOrgChannel {
                id: "CNN.us".to_string(),
                name: "CNN".to_string(),
                alt_names: vec![],
                country: "US".to_string(),
                categories: vec![],
            },
        ],
        vec![
            IptvOrgGuide {
                channel: Some("TF1.fr".to_string()),
                site: "canalplus.com".to_string(),
                lang: "fr".to_string(),
            },
            IptvOrgGuide {
                channel: Some("CNN.us".to_string()),
                site: "directv.com".to_string(),
                lang: "en".to_string(),
            },
        ],
    );
    index
}

#[test]
fn index_starts_stale() {
    let index = IptvOrgIndex::new();
    assert!(index.is_stale());
}

#[test]
fn index_fresh_after_update() {
    let index = make_index();
    assert!(!index.is_stale());
}

#[test]
fn find_by_tvg_id() {
    let index = make_index();
    assert_eq!(
        index.find_iptv_org_id(Some("TF1.fr"), "Whatever"),
        Some("TF1.fr".to_string())
    );
}

#[test]
fn find_by_name() {
    let index = make_index();
    assert_eq!(
        index.find_iptv_org_id(None, "CNN"),
        Some("CNN.us".to_string())
    );
}

#[test]
fn find_by_alt_name() {
    let index = make_index();
    assert_eq!(
        index.find_iptv_org_id(None, "Télévision française 1"),
        Some("TF1.fr".to_string())
    );
}

#[test]
fn find_case_insensitive() {
    let index = make_index();
    assert_eq!(
        index.find_iptv_org_id(None, "cnn"),
        Some("CNN.us".to_string())
    );
}

#[test]
fn find_unknown_returns_none() {
    let index = make_index();
    assert!(index.find_iptv_org_id(None, "Unknown Channel").is_none());
}

#[test]
fn directory_resolution_by_id_and_accented_name() {
    // requesting with the explicit id resolves directly; requesting with a
    // lowercased accented alternate name resolves through the name index to
    // the same entry.
    let index = make_index();
    assert_eq!(
        index.find_iptv_org_id(Some("TF1.fr"), "anything else"),
        Some("TF1.fr".to_string())
    );
    assert_eq!(
        index.find_iptv_org_id(None, "télévision française 1"),
        Some("TF1.fr".to_string())
    );
}

#[test]
fn exact_id_wins_over_name_match() {
    // both strategies would succeed; the explicit id decides.
    let index = make_index();
    assert_eq!(
        index.find_iptv_org_id(Some("CNN.us"), "TF1"),
        Some("CNN.us".to_string())
    );
}

#[test]
fn channel_names_include_alternates() {
    let index = make_index();
    assert_eq!(
        index.get_channel_names("TF1.fr"),
        vec!["TF1".to_string(), "Télévision française 1".to_string()]
    );
    assert!(index.get_channel_names("Nobody.nowhere").is_empty());
}

#[test]
fn guide_url_for_tf1() {
    let index = make_index();
    assert_eq!(
        index.get_guide_url("TF1.fr").unwrap(),
        "https://iptv-epg.org/files/epg-fr.xml"
    );
}

#[test]
fn guide_url_for_cnn() {
    let index = make_index();
    assert_eq!(
        index.get_guide_url("CNN.us").unwrap(),
        "https://iptv-epg.org/files/epg-us.xml"
    );
}

#[test]
fn guide_url_uses_country_suffix() {
    let index = make_index();
    // Any directory id produces a URL based on the country suffix.
    assert_eq!(
        index.get_guide_url("Unknown.xx").unwrap(),
        "https://iptv-epg.org/files/epg-xx.xml"
    );
}

#[test]
fn decompress_gzip_rejects_non_gzip() {
    let plain = b"hello world";
    assert!(decompress_gzip(plain).is_none());
}

#[test]
fn decompress_gzip_round_trip() {
    let text = b"<tv><programme channel=\"CH1\"></programme></tv>";
    let mut encoder = flate2::write::GzEncoder::new(Vec::new(), flate2::Compression::default());
    encoder.write_all(text).unwrap();
    let compressed = encoder.finish().unwrap();
    let decompressed = decompress_gzip(&compressed).unwrap();
    assert_eq!(decompressed, text.to_vec());
}

#[test]
fn parse_guide_body_handles_gzip_and_plain() {
    let xml = "<tv><programme start=\"20260211100000 +0000\" stop=\"20260211110000 +0000\" \
               channel=\"CH1\"><title>Show</title></programme></tv>";

    let plain = iptv_epg::iptv_org::parse_guide_body(xml.as_bytes(), "GB").unwrap();
    assert_eq!(plain.schedules.len(), 1);
    assert_eq!(plain.schedules.get("CH1").unwrap().programs[0].title, "Show");

    let mut encoder = flate2::write::GzEncoder::new(Vec::new(), flate2::Compression::default());
    encoder.write_all(xml.as_bytes()).unwrap();
    let compressed = encoder.finish().unwrap();
    let unzipped = iptv_epg::iptv_org::parse_guide_body(&compressed, "GB").unwrap();
    assert_eq!(unzipped.schedules.len(), 1);
    assert_eq!(
        unzipped.schedules.get("CH1").unwrap().programs[0].title,
        "Show"
    );
}

#[test]
fn parse_guide_body_oversized_reads_empty() {
    let huge = vec![b'y'; iptv_epg::iptv_org::MAX_GUIDE_SIZE + 1];
    let out = iptv_epg::iptv_org::parse_guide_body(&huge, "GB").unwrap();
    assert!(out.schedules.is_empty());
    assert!(out.display_names.is_empty());
}

#[test]
fn parse_guide_body_invalid_utf8_reads_empty() {
    let body = [0xff, 0xfe, 0x00, 0x41];
    let out = iptv_epg::iptv_org::parse_guide_body(&body, "GB").unwrap();
    assert!(out.schedules.is_empty());
}
