use iptv_epg::epg::{EpgCache, EpgProgram, EpgSchedule};
use iptv_epg::timeutil::timestamp_utc;

fn ts(hour: u64, min: u64) -> i64 {
    timestamp_utc(2026, 2, 11, hour, min, 0).unwrap()
}

fn make_program(channel: &str, start_hour: u64, end_hour: u64, title: &str) -> EpgProgram {
    EpgProgram {
        id: format!("{channel}-{start_hour}"),
        channel_id: channel.to_string(),
        title: title.to_string(),
        description: None,
        start: ts(start_hour, 0),
        end: ts(end_hour, 0),
        category: None,
        icon_url: None,
    }
}

#[test]
fn cache_starts_empty() {
    let cache = EpgCache::new();
    assert!(cache.schedules.is_empty());
    assert!(cache.last_updated.is_none());
}

#[test]
fn get_now_next_finds_current_program() {
    let mut cache = EpgCache::new();
    cache.schedules.insert(
        "CNN.us".to_string(),
        EpgSchedule {
            channel_id: "CNN.us".to_string(),
            programs: vec![
                make_program("CNN.us", 10, 11, "Morning News"),
                make_program("CNN.us", 11, 12, "Noon Report"),
                make_program("CNN.us", 12, 13, "Afternoon Show"),
            ],
        },
    );

    let now = ts(11, 30);
    let result = cache.get_now_next("CNN.us", now).unwrap();
    assert_eq!(result.now.as_ref().unwrap().title, "Noon Report");
    assert_eq!(result.next.as_ref().unwrap().title, "Afternoon Show");
}

#[test]
fn get_now_next_no_current_returns_next() {
    let mut cache = EpgCache::new();
    cache.schedules.insert(
        "BBC.uk".to_string(),
        EpgSchedule {
            channel_id: "BBC.uk".to_string(),
            programs: vec![make_program("BBC.uk", 14, 15, "Afternoon News")],
        },
    );

    let now = ts(13, 0);
    let result = cache.get_now_next("BBC.uk", now).unwrap();
    assert!(result.now.is_none());
    assert_eq!(result.next.as_ref().unwrap().title, "Afternoon News");
}

#[test]
fn get_now_next_unknown_channel() {
    let cache = EpgCache::new();
    let now = ts(12, 0);
    assert!(cache.get_now_next("nonexistent", now).is_none());
}

#[test]
fn get_now_next_interval_is_half_open() {
    let mut cache = EpgCache::new();
    cache.schedules.insert(
        "CH".to_string(),
        EpgSchedule {
            channel_id: "CH".to_string(),
            programs: vec![
                make_program("CH", 10, 11, "First"),
                make_program("CH", 11, 12, "Second"),
            ],
        },
    );
    // exactly at the boundary the second programme is current
    let result = cache.get_now_next("CH", ts(11, 0)).unwrap();
    assert_eq!(result.now.as_ref().unwrap().title, "Second");
    assert!(result.next.is_none());
}

#[test]
fn get_now_next_known_channel_nothing_airing() {
    let mut cache = EpgCache::new();
    cache.schedules.insert(
        "CH".to_string(),
        EpgSchedule {
            channel_id: "CH".to_string(),
            programs: vec![make_program("CH", 8, 9, "Old")],
        },
    );
    // known channel, but everything is in the past: a result with no fields
    let result = cache.get_now_next("CH", ts(20, 0)).unwrap();
    assert!(result.now.is_none());
    assert!(result.next.is_none());
}

#[test]
fn merge_replaces_schedules_wholesale() {
    let mut cache = EpgCache::new();
    cache.schedules.insert(
        "CH1".to_string(),
        EpgSchedule {
            channel_id: "CH1".to_string(),
            programs: vec![make_program("CH1", 8, 9, "Old")],
        },
    );

    let mut fetched = iptv_epg::kvmap::KvMap::new();
    fetched.insert(
        "CH1".to_string(),
        EpgSchedule {
            channel_id: "CH1".to_string(),
            programs: vec![make_program("CH1", 10, 11, "New")],
        },
    );

    cache.merge_schedules(&fetched, 42);
    let sched = cache.get_schedule("CH1").unwrap();
    assert_eq!(sched.programs.len(), 1);
    assert_eq!(sched.programs[0].title, "New");
    assert_eq!(cache.last_updated, Some(42));
}

#[test]
fn merge_twice_is_idempotent() {
    let mut once = EpgCache::new();
    let mut twice = EpgCache::new();
    for cache in [&mut once, &mut twice] {
        cache.schedules.insert(
            "KEPT".to_string(),
            EpgSchedule {
                channel_id: "KEPT".to_string(),
                programs: vec![make_program("KEPT", 7, 8, "Kept")],
            },
        );
    }

    let mut fetched = iptv_epg::kvmap::KvMap::new();
    fetched.insert(
        "CH1".to_string(),
        EpgSchedule {
            channel_id: "CH1".to_string(),
            programs: vec![
                make_program("CH1", 10, 11, "A"),
                make_program("CH1", 11, 12, "B"),
            ],
        },
    );

    once.merge_schedules(&fetched, 1);
    twice.merge_schedules(&fetched, 1);
    twice.merge_schedules(&fetched, 1);

    for key in ["KEPT", "CH1"] {
        let a = once.get_schedule(key).unwrap();
        let b = twice.get_schedule(key).unwrap();
        assert_eq!(a.programs.len(), b.programs.len());
        for (x, y) in a.programs.iter().zip(b.programs.iter()) {
            assert_eq!(x.id, y.id);
            assert_eq!(x.title, y.title);
            assert_eq!(x.start, y.start);
            assert_eq!(x.end, y.end);
        }
    }
    assert_eq!(once.schedules.len(), twice.schedules.len());
}
