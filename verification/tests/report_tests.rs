use songs_history::events::CommitRecord;
use songs_history::events::DeltaRecord;
use songs_history::events::DeltaStatus;
use songs_history::ids::IdSet;
use songs_history::paths::video_id_of_path;
use songs_history::render::build_report;
use songs_history::render::format_time;
use songs_history::render::format_video;
use songs_history::render::u64_dec;
use songs_history::render::u64_dec2;
use songs_history::summary::collect_ids;
use songs_history::summary::get_current_ids;

fn delta(status: DeltaStatus, path: &str) -> DeltaRecord {
    DeltaRecord { status, path: path.to_string() }
}

fn commit(seconds: i64, has_parent: bool, deltas: Vec<DeltaRecord>) -> CommitRecord {
    CommitRecord { seconds, offset_minutes: 0, has_parent, deltas }
}

#[test]
fn format_video_renders_link() {
    assert_eq!(format_video("abc123"), "[abc123](https://youtu.be/abc123)");
}

#[test]
fn decimal_rendering() {
    assert_eq!(u64_dec(0), "0");
    assert_eq!(u64_dec(7), "7");
    assert_eq!(u64_dec(907), "907");
    assert_eq!(u64_dec2(5), "05");
    assert_eq!(u64_dec2(0), "00");
    assert_eq!(u64_dec2(59), "59");
    assert_eq!(u64_dec2(123), "123");
}

#[test]
fn format_time_epoch() {
    assert_eq!(
        format_time(0, 0).unwrap(),
        "Thu Jan  1 00:00:00 1970 +0000"
    );
}

#[test]
fn format_time_negative_offset() {
    assert_eq!(
        format_time(0, -90).unwrap(),
        "Wed Dec 31 22:30:00 1969 -0130"
    );
}

#[test]
fn format_time_positive_offset() {
    assert_eq!(
        format_time(86400, 150).unwrap(),
        "Fri Jan  2 02:30:00 1970 +0230"
    );
}

#[test]
fn format_time_out_of_range() {
    assert_eq!(format_time(i64::MAX, 1), None);
    assert_eq!(format_time(i64::MAX, 0), None);
}

#[test]
fn format_time_calendar_bounds() {
    assert!(format_time(253402300799, 0).is_some());
    assert_eq!(format_time(253402300800, 0), None);
    assert!(format_time(-377705116800, 0).is_some());
    assert_eq!(format_time(-377705116801, 0), None);
    assert_eq!(format_time(253402300740, 1), None);
    assert!(format_time(253402300740, 0).is_some());
}

#[test]
fn current_ids_empty_document() {
    let ids = get_current_ids("");
    assert!(!ids.contains(""));
    assert!(!ids.contains("abc123"));
}

#[test]
fn video_id_extraction() {
    assert_eq!(video_id_of_path("output/songs/abc123.ext").unwrap(), "abc123");
    assert_eq!(video_id_of_path("output/songs/sub/x.mp3").unwrap(), "x");
    assert_eq!(video_id_of_path("output/songs/noext").unwrap(), "noext");
    assert_eq!(video_id_of_path("output/songs/a.b.c").unwrap(), "a.b");
    assert_eq!(video_id_of_path("output/songs/.hidden").unwrap(), ".hidden");
    assert_eq!(video_id_of_path("output/songs").unwrap(), "songs");
    assert_eq!(video_id_of_path("output/songsx/abc.ext"), None);
    assert_eq!(video_id_of_path("other/abc.ext"), None);
    assert_eq!(video_id_of_path("outside.txt"), None);
}

#[test]
fn idset_basics() {
    let mut s = IdSet::new();
    assert!(!s.contains("a"));
    s.insert("a");
    assert!(s.contains("a"));
    assert!(!s.contains("b"));
    s.insert("a");
    s.insert("b");
    assert!(s.contains("a"));
    assert!(s.contains("b"));
}

#[test]
fn collect_ids_reads_every_entry() {
    let values = vec![
        Some(vec![Some("a".to_string()), None, Some("b".to_string())]),
        None,
        Some(vec![]),
        Some(vec![Some("a".to_string())]),
    ];
    let ids = collect_ids(&values);
    assert!(ids.contains("a"));
    assert!(ids.contains("b"));
    assert!(!ids.contains("c"));
    let none = collect_ids(&vec![]);
    assert!(!none.contains("a"));
}

#[test]
fn current_ids_from_summary() {
    let ids = get_current_ids("{\"items\":[{\"id\":\"abc123\"}]}");
    assert!(ids.contains("abc123"));
    assert!(!ids.contains("xyz789"));
}

#[test]
fn current_ids_from_value_stream() {
    let ids = get_current_ids("{\"items\":[{\"id\":\"a\"}]}{\"items\":[{\"id\":\"b\"}]}");
    assert!(ids.contains("a"));
    assert!(ids.contains("b"));
}

#[test]
fn current_ids_skips_malformed() {
    let ids = get_current_ids("this is not a structured value");
    assert!(!ids.contains("this"));
    let ids2 = get_current_ids("{\"other\":true}");
    assert!(!ids2.contains("other"));
    let ids3 = get_current_ids("{\"items\":[{\"id\":5},{\"id\":\"ok\"},{\"name\":\"x\"}]}");
    assert!(ids3.contains("ok"));
    assert!(!ids3.contains("5"));
    assert!(!ids3.contains("x"));
}

#[test]
fn scenario_add_then_readd_and_delete() {
    let current = get_current_ids("{\"items\":[{\"id\":\"abc123\"}]}");
    let commits = vec![
        commit(0, true, vec![delta(DeltaStatus::Added, "output/songs/abc123.ext")]),
        commit(
            86400,
            true,
            vec![
                delta(DeltaStatus::Added, "output/songs/xyz789.ext"),
                delta(DeltaStatus::Deleted, "output/songs/abc123.ext"),
            ],
        ),
    ];
    let report = build_report(&commits, &current).unwrap();
    let expected = "# songs-history\n\
        ## Thu Jan  1 00:00:00 1970 +0000\n\
        Added [abc123](https://youtu.be/abc123)  \n\
        ## Fri Jan  2 00:00:00 1970 +0000\n\
        Added [xyz789](https://youtu.be/xyz789)  \n";
    assert_eq!(report, expected);
    assert!(!report.contains("Removed"));
}

#[test]
fn dedup_suppresses_second_add() {
    let current = IdSet::new();
    let commits = vec![
        commit(0, true, vec![delta(DeltaStatus::Added, "output/songs/v1.mp3")]),
        commit(86400, true, vec![delta(DeltaStatus::Added, "output/songs/v1.mp3")]),
    ];
    let report = build_report(&commits, &current).unwrap();
    let expected = "# songs-history\n\
        ## Thu Jan  1 00:00:00 1970 +0000\n\
        Added [v1](https://youtu.be/v1)  \n";
    assert_eq!(report, expected);
}

#[test]
fn inactive_deletion_is_reported() {
    let current = IdSet::new();
    let commits = vec![commit(
        0,
        true,
        vec![delta(DeltaStatus::Deleted, "output/songs/gone.mp3")],
    )];
    let report = build_report(&commits, &current).unwrap();
    let expected = "# songs-history\n\
        ## Thu Jan  1 00:00:00 1970 +0000\n\
        Removed [gone](https://youtu.be/gone)  \n";
    assert_eq!(report, expected);
}

#[test]
fn root_commit_yields_title_only() {
    let current = IdSet::new();
    let commits = vec![commit(0, false, vec![])];
    let report = build_report(&commits, &current).unwrap();
    assert_eq!(report, "# songs-history\n");
}

#[test]
fn untracked_paths_yield_no_section() {
    let current = IdSet::new();
    let commits = vec![commit(
        0,
        true,
        vec![
            delta(DeltaStatus::Added, "elsewhere/v9.mp3"),
            delta(DeltaStatus::Deleted, "README.md"),
        ],
    )];
    let report = build_report(&commits, &current).unwrap();
    assert_eq!(report, "# songs-history\n");
}

#[test]
fn other_statuses_are_ignored() {
    let current = IdSet::new();
    let commits = vec![commit(
        0,
        true,
        vec![delta(DeltaStatus::Other, "output/songs/touched.mp3")],
    )];
    let report = build_report(&commits, &current).unwrap();
    assert_eq!(report, "# songs-history\n");
}

#[test]
fn report_is_deterministic() {
    let current = get_current_ids("{\"items\":[{\"id\":\"keep\"}]}");
    let commits = vec![
        commit(0, true, vec![delta(DeltaStatus::Added, "output/songs/keep.mp3")]),
        commit(
            3600,
            true,
            vec![
                delta(DeltaStatus::Deleted, "output/songs/keep.mp3"),
                delta(DeltaStatus::Added, "output/songs/other.mp3"),
            ],
        ),
    ];
    let first = build_report(&commits, &current).unwrap();
    let second = build_report(&commits, &current).unwrap();
    assert_eq!(first, second);
}
