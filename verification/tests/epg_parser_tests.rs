use iptv_epg::epg_parser::{
    country_utc_offset, parse_tz_offset, parse_xmltv, parse_xmltv_datetime, EpgParseError,
    MAX_XML_SIZE,
};
use iptv_epg::timeutil::timestamp_utc;

#[test]
fn parse_basic_xmltv() {
    let xml = r#"<?xml version="1.0" encoding="UTF-8"?>
<tv>
  <channel id="CNN.us">
    <display-name>CNN</display-name>
  </channel>
  <programme start="20260211100000 +0000" stop="20260211110000 +0000" channel="CNN.us">
    <title>Morning News</title>
    <desc>The latest news from around the world.</desc>
    <category>News</category>
    <icon src="https://example.com/morning.png" />
  </programme>
  <programme start="20260211110000 +0000" stop="20260211120000 +0000" channel="CNN.us">
    <title>Noon Report</title>
  </programme>
</tv>"#;

    let parsed = parse_xmltv(xml, &["CNN.us"], 0).unwrap();
    assert_eq!(parsed.schedules.len(), 1);

    let schedule = parsed.schedules.get("CNN.us").unwrap();
    assert_eq!(schedule.programs.len(), 2);
    assert_eq!(schedule.programs[0].title, "Morning News");
    assert_eq!(
        schedule.programs[0].description.as_deref(),
        Some("The latest news from around the world.")
    );
    assert_eq!(schedule.programs[0].category.as_deref(), Some("News"));
    assert_eq!(
        schedule.programs[0].icon_url.as_deref(),
        Some("https://example.com/morning.png")
    );
    assert_eq!(schedule.programs[1].title, "Noon Report");
    assert!(schedule.programs[1].description.is_none());

    // Display name extracted from the channel element.
    assert_eq!(parsed.display_names.get("cnn"), Some(&"CNN.us".to_string()));
}

#[test]
fn filters_unknown_channels() {
    let xml = r#"<?xml version="1.0" encoding="UTF-8"?>
<tv>
  <programme start="20260211100000 +0000" stop="20260211110000 +0000" channel="CNN.us">
    <title>News</title>
  </programme>
  <programme start="20260211100000 +0000" stop="20260211110000 +0000" channel="BBC.uk">
    <title>UK News</title>
  </programme>
</tv>"#;

    let parsed = parse_xmltv(xml, &["BBC.uk"], 0).unwrap();
    assert!(!parsed.schedules.contains_key("CNN.us"));
    assert_eq!(parsed.schedules.get("BBC.uk").unwrap().programs.len(), 1);
}

#[test]
fn empty_filter_accepts_all() {
    let xml = r#"<?xml version="1.0" encoding="UTF-8"?>
<tv>
  <programme start="20260211100000 +0000" stop="20260211110000 +0000" channel="CNN.us">
    <title>News</title>
  </programme>
  <programme start="20260211100000 +0000" stop="20260211110000 +0000" channel="BBC.uk">
    <title>UK News</title>
  </programme>
</tv>"#;

    let parsed = parse_xmltv(xml, &[], 0).unwrap();
    assert_eq!(parsed.schedules.len(), 2);
    assert!(parsed.schedules.contains_key("CNN.us"));
    assert!(parsed.schedules.contains_key("BBC.uk"));
}

#[test]
fn rejects_oversized_input() {
    let huge = "x".repeat(MAX_XML_SIZE + 1);
    let err = parse_xmltv(&huge, &[], 0).unwrap_err();
    assert!(matches!(err, EpgParseError::TooLarge));
}

#[test]
fn accepts_input_of_exactly_max_size() {
    // a single comment padded to exactly the cap
    let mut doc = String::from("<!--");
    doc.push_str(&"x".repeat(MAX_XML_SIZE - 7));
    doc.push_str("-->");
    assert_eq!(doc.len(), MAX_XML_SIZE);
    let parsed = parse_xmltv(&doc, &[], 0).unwrap();
    assert_eq!(parsed.schedules.len(), 0);
}

#[test]
fn parse_xmltv_datetime_utc() {
    let dt = parse_xmltv_datetime("20260211140000 +0000".as_bytes(), 0).unwrap();
    assert_eq!(dt, timestamp_utc(2026, 2, 11, 14, 0, 0).unwrap());
}

#[test]
fn parse_xmltv_datetime_with_offset() {
    let dt = parse_xmltv_datetime("20260211150000 +0100".as_bytes(), 0).unwrap();
    // +0100 means local 15:00 is UTC 14:00.
    assert_eq!(dt, timestamp_utc(2026, 2, 11, 14, 0, 0).unwrap());
}

#[test]
fn parse_xmltv_datetime_no_tz_uses_default() {
    // With default=0 (UTC), 14:00 stays 14:00 UTC.
    let dt = parse_xmltv_datetime("20260211140000".as_bytes(), 0).unwrap();
    assert_eq!(dt, timestamp_utc(2026, 2, 11, 14, 0, 0).unwrap());

    // With default=3600 (CET +0100), 14:00 CET = 13:00 UTC.
    let dt = parse_xmltv_datetime("20260211140000".as_bytes(), 3600).unwrap();
    assert_eq!(dt, timestamp_utc(2026, 2, 11, 13, 0, 0).unwrap());
}

#[test]
fn explicit_offset_overrides_default() {
    // Explicit +0100 overrides the default of 0 (UTC).
    let dt = parse_xmltv_datetime("20260211150000 +0100".as_bytes(), 0).unwrap();
    assert_eq!(dt, timestamp_utc(2026, 2, 11, 14, 0, 0).unwrap());

    // Explicit +0100 overrides a different default too.
    let dt = parse_xmltv_datetime("20260211150000 +0100".as_bytes(), -18000).unwrap();
    assert_eq!(dt, timestamp_utc(2026, 2, 11, 14, 0, 0).unwrap());
}

#[test]
fn parse_xmltv_datetime_rejects_malformed() {
    assert!(parse_xmltv_datetime("2026021114".as_bytes(), 0).is_none());
    assert!(parse_xmltv_datetime("2026021x140000".as_bytes(), 0).is_none());
    // month 13 does not exist
    assert!(parse_xmltv_datetime("20261311140000".as_bytes(), 0).is_none());
    // 30 February does not exist
    assert!(parse_xmltv_datetime("20260230140000".as_bytes(), 0).is_none());
}

#[test]
fn country_utc_offset_known_countries() {
    assert_eq!(country_utc_offset("FR"), 3600);
    assert_eq!(country_utc_offset("US"), -18000);
    assert_eq!(country_utc_offset("GB"), 0);
    assert_eq!(country_utc_offset("JP"), 32400);
    assert_eq!(country_utc_offset("IN"), 19800);
    // Unknown defaults to 0.
    assert_eq!(country_utc_offset("XX"), 0);
}

#[test]
fn country_utc_offset_is_case_insensitive() {
    assert_eq!(country_utc_offset("fr"), 3600);
    assert_eq!(country_utc_offset("Us"), -18000);
}

#[test]
fn parse_tz_offset_values() {
    assert_eq!(parse_tz_offset("+0000"), Some(0));
    assert_eq!(parse_tz_offset("+0100"), Some(3600));
    assert_eq!(parse_tz_offset("-0530"), Some(-19800));
    assert_eq!(parse_tz_offset(""), Some(0));
}

#[test]
fn parse_tz_offset_rejects_malformed() {
    assert_eq!(parse_tz_offset("+01"), None);
    assert_eq!(parse_tz_offset("abcd"), None);
}

#[test]
fn parse_with_country_default_offset() {
    // XMLTV times without explicit offsets, parsed with CET default (+0100).
    let xml = r#"<?xml version="1.0" encoding="UTF-8"?>
<tv>
  <programme start="20260211190000" stop="20260211200000" channel="France2">
    <title>Journal 19h</title>
  </programme>
</tv>"#;

    let cet_offset = country_utc_offset("FR");
    let parsed = parse_xmltv(xml, &["France2"], cet_offset).unwrap();
    let schedule = parsed.schedules.get("France2").unwrap();
    // 19:00 CET = 18:00 UTC.
    assert_eq!(
        schedule.programs[0].start,
        timestamp_utc(2026, 2, 11, 18, 0, 0).unwrap()
    );
}

#[test]
fn skips_programmes_without_title() {
    let xml = r#"<?xml version="1.0" encoding="UTF-8"?>
<tv>
  <programme start="20260211100000 +0000" stop="20260211110000 +0000" channel="CNN.us">
    <desc>No title here</desc>
  </programme>
</tv>"#;

    let parsed = parse_xmltv(xml, &["CNN.us"], 0).unwrap();
    assert!(parsed.schedules.is_empty());
}

#[test]
fn sorts_programmes_by_start_time() {
    let xml = r#"<?xml version="1.0" encoding="UTF-8"?>
<tv>
  <programme start="20260211120000 +0000" stop="20260211130000 +0000" channel="CH1">
    <title>Later</title>
  </programme>
  <programme start="20260211100000 +0000" stop="20260211110000 +0000" channel="CH1">
    <title>Earlier</title>
  </programme>
</tv>"#;

    let parsed = parse_xmltv(xml, &["CH1"], 0).unwrap();
    let schedule = parsed.schedules.get("CH1").unwrap();
    assert_eq!(schedule.programs[0].title, "Earlier");
    assert_eq!(schedule.programs[1].title, "Later");
}

#[test]
fn unescapes_named_entities_in_text() {
    let xml = r#"<tv>
  <programme start="20260211100000 +0000" stop="20260211110000 +0000" channel="CH1">
    <title>Tom &amp; Jerry &lt;live&gt;</title>
  </programme>
</tv>"#;
    let parsed = parse_xmltv(xml, &[], 0).unwrap();
    let schedule = parsed.schedules.get("CH1").unwrap();
    assert_eq!(schedule.programs[0].title, "Tom & Jerry <live>");
}

#[test]
fn programme_id_derives_from_channel_and_start() {
    let xml = r#"<tv>
  <programme start="20260211100000 +0000" stop="20260211110000 +0000" channel="CH1">
    <title>Show</title>
  </programme>
</tv>"#;
    let parsed = parse_xmltv(xml, &[], 0).unwrap();
    let schedule = parsed.schedules.get("CH1").unwrap();
    let start = timestamp_utc(2026, 2, 11, 10, 0, 0).unwrap();
    assert_eq!(schedule.programs[0].id, format!("CH1-{start}"));
    // re-parsing the same guide yields the same id
    let again = parse_xmltv(xml, &[], 0).unwrap();
    assert_eq!(
        again.schedules.get("CH1").unwrap().programs[0].id,
        schedule.programs[0].id
    );
}
