use iptv_epg::epg::{EpgCache, EpgProgram, EpgSchedule};
use iptv_epg::epg_flow::{apply_fetched_guide, parse_tz_param, playlist_lookup, status_is_live};
use iptv_epg::iptv_org::FetchedEpg;
use iptv_epg::kvmap::KvMap;
use iptv_epg::models::Channel;
use iptv_epg::timeutil::{
    chrono_now_iso8601, days_to_ymd, format_iso8601_utc, format_rfc3339, is_leap_year,
    timestamp_utc,
};

fn prog(channel: &str, start: i64, end: i64, title: &str) -> EpgProgram {
    EpgProgram {
        id: format!("{channel}-{start}"),
        channel_id: channel.to_string(),
        title: title.to_string(),
        description: None,
        start,
        end,
        category: None,
        icon_url: None,
    }
}

fn fetched_with(entries: Vec<(&str, Vec<EpgProgram>)>, names: Vec<(&str, &str)>) -> FetchedEpg {
    let mut schedules = KvMap::new();
    for (id, programs) in entries {
        schedules.insert(
            id.to_string(),
            EpgSchedule { channel_id: id.to_string(), programs },
        );
    }
    let mut display_names = KvMap::new();
    for (name, id) in names {
        display_names.insert(name.to_string(), id.to_string());
    }
    FetchedEpg { schedules, display_names }
}

#[test]
fn alias_uses_directory_id_first() {
    // the guide carries the directory id itself, so no name candidate is
    // consulted even though one would match
    let mut cache = EpgCache::new();
    let fetched = fetched_with(
        vec![
            ("TF1.fr", vec![prog("TF1.fr", 100, 200, "Direct")]),
            ("Other", vec![prog("Other", 100, 200, "ViaName")]),
        ],
        vec![("requested", "Other")],
    );
    apply_fetched_guide(
        &mut cache,
        &fetched,
        "Requested",
        "TF1.fr",
        "Requested",
        &Vec::new(),
        7,
    );
    let aliased = cache.get_schedule("Requested").unwrap();
    assert_eq!(aliased.programs[0].title, "Direct");
    assert_eq!(cache.last_updated, Some(7));
}

#[test]
fn alias_candidates_tried_in_order() {
    // the directory id is absent from the guide; the local display name is
    // the first candidate and wins over later ones
    let mut cache = EpgCache::new();
    let fetched = fetched_with(
        vec![
            ("A", vec![prog("A", 100, 200, "FromLocalName")]),
            ("B", vec![prog("B", 100, 200, "FromDirName")]),
            ("C", vec![prog("C", 100, 200, "FromRequested")]),
        ],
        vec![
            ("local", "A"),
            ("dirname", "B"),
            ("requested.fr", "C"),
        ],
    );
    let dir_names = vec!["DirName".to_string()];
    apply_fetched_guide(
        &mut cache,
        &fetched,
        "Requested.fr",
        "Missing.fr",
        "Local",
        &dir_names,
        9,
    );
    let aliased = cache.get_schedule("Requested.fr").unwrap();
    assert_eq!(aliased.programs[0].title, "FromLocalName");

    // without the local name, the directory name is next
    let mut cache2 = EpgCache::new();
    let fetched2 = fetched_with(
        vec![
            ("B", vec![prog("B", 100, 200, "FromDirName")]),
            ("C", vec![prog("C", 100, 200, "FromRequested")]),
        ],
        vec![("dirname", "B"), ("requested.fr", "C")],
    );
    apply_fetched_guide(
        &mut cache2,
        &fetched2,
        "Requested.fr",
        "Missing.fr",
        "Local",
        &dir_names,
        9,
    );
    assert_eq!(
        cache2.get_schedule("Requested.fr").unwrap().programs[0].title,
        "FromDirName"
    );
}

#[test]
fn alias_falls_back_to_id_prefix() {
    // only the requested id's portion before the last dot matches
    let mut cache = EpgCache::new();
    let fetched = fetched_with(
        vec![("P", vec![prog("P", 100, 200, "FromPrefix")])],
        vec![("tf1", "P")],
    );
    apply_fetched_guide(
        &mut cache,
        &fetched,
        "TF1.fr",
        "Missing.fr",
        "NoSuchName",
        &Vec::new(),
        3,
    );
    assert_eq!(
        cache.get_schedule("TF1.fr").unwrap().programs[0].title,
        "FromPrefix"
    );
}

#[test]
fn alias_not_found_leaves_cache_without_entry() {
    let mut cache = EpgCache::new();
    let fetched = fetched_with(
        vec![("X", vec![prog("X", 100, 200, "Something")])],
        vec![("other", "X")],
    );
    apply_fetched_guide(
        &mut cache,
        &fetched,
        "Requested",
        "Missing",
        "Unmatched",
        &Vec::new(),
        5,
    );
    assert!(cache.get_schedule("Requested").is_none());
    // the merge still happened and the timestamp was still set
    assert!(cache.get_schedule("X").is_some());
    assert_eq!(cache.last_updated, Some(5));
}

#[test]
fn merged_schedules_stay_sorted() {
    // parse an out-of-order guide, merge it, and observe sorted storage
    let xml = r#"<tv>
  <programme start="20260211120000 +0000" stop="20260211130000 +0000" channel="CH1">
    <title>Later</title>
  </programme>
  <programme start="20260211100000 +0000" stop="20260211110000 +0000" channel="CH1">
    <title>Earlier</title>
  </programme>
</tv>"#;
    let parsed = iptv_epg::epg_parser::parse_xmltv(xml, &[], 0).unwrap();
    let mut cache = EpgCache::new();
    cache.merge_schedules(&parsed.schedules, 1);
    let sched = cache.get_schedule("CH1").unwrap();
    assert!(sched.programs.windows(2).all(|w| w[0].start <= w[1].start));
    assert_eq!(sched.programs[0].title, "Earlier");
}

#[test]
fn playlist_lookup_matches_and_falls_back() {
    let channels = vec![Channel {
        id: "abc123".to_string(),
        name: "CNN".to_string(),
        group: "News".to_string(),
        logo_url: None,
        stream_url: "https://s/cnn.m3u8".to_string(),
        is_live: false,
        tvg_id: Some("CNN.us".to_string()),
    }];
    let (tvg, name) = playlist_lookup(&channels, "CNN.us");
    assert_eq!(tvg.as_deref(), Some("CNN.us"));
    assert_eq!(name, "CNN");

    let (tvg, name) = playlist_lookup(&channels, "abc123");
    assert_eq!(tvg.as_deref(), Some("CNN.us"));
    assert_eq!(name, "CNN");

    let (tvg, name) = playlist_lookup(&channels, "Anything Else");
    assert_eq!(tvg.as_deref(), Some("Anything Else"));
    assert_eq!(name, "Anything Else");
}

#[test]
fn status_is_live_accepts_success_and_redirect() {
    assert!(status_is_live(200));
    assert!(status_is_live(302));
    assert!(!status_is_live(404));
    assert!(!status_is_live(500));
    assert!(!status_is_live(199));
}

#[test]
fn parse_tz_param_bounds_offsets() {
    assert_eq!(parse_tz_param("+0100"), Some(3600));
    assert_eq!(parse_tz_param("-0500"), Some(-18000));
    assert_eq!(parse_tz_param(""), Some(0));
    assert_eq!(parse_tz_param("+9900"), None);
    assert_eq!(parse_tz_param("junk"), None);
}

#[test]
fn calendar_round_trips() {
    assert!(is_leap_year(2024));
    assert!(!is_leap_year(2025));
    assert!(!is_leap_year(1900));
    assert!(is_leap_year(2000));
    assert_eq!(timestamp_utc(1970, 1, 1, 0, 0, 0), Some(0));
    assert_eq!(timestamp_utc(2026, 2, 11, 18, 0, 0), Some(1770832800));
    assert_eq!(days_to_ymd(0), (1970, 1, 1));
    assert_eq!(days_to_ymd(1770832800 / 86400), (2026, 2, 11));
}

#[test]
fn iso8601_formatting() {
    assert_eq!(format_iso8601_utc(0), "1970-01-01T00:00:00Z");
    assert_eq!(format_iso8601_utc(1770832800), "2026-02-11T18:00:00Z");
    let now = chrono_now_iso8601();
    assert_eq!(now.len(), 20);
    assert!(now.ends_with('Z'));
}

#[test]
fn rfc3339_formatting_with_offset() {
    assert_eq!(
        format_rfc3339(1770832800, 3600).unwrap(),
        "2026-02-11T19:00:00+01:00"
    );
    assert_eq!(
        format_rfc3339(1770832800, -18000).unwrap(),
        "2026-02-11T13:00:00-05:00"
    );
    assert!(format_rfc3339(-100, -3600).is_none());
}
