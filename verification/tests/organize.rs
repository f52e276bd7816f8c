use stillkit::calendar::{day_dir_name, iso_date_string, month_dir_name, month_name, Date};
use stillkit::group::{cluster_by_date, sort_photos, PhotoFile};
use stillkit::layout::{file_subdir, is_primary, is_raw, DateSource};
use stillkit::parsing::parse_exif_datetime;
use stillkit::plan::{
    any_primary, destination, ext_of, group_by_month, is_duplicate, plan_month_import, plan_sort,
    resolve_date, summary_message, ExecutionStats, FileOutcome,
};
use stillkit::scan::{find_matching_dir, find_matching_index, ExistingDir};

fn day(y: i32, m: u32, d: u32) -> Date {
    Date::from_ymd_opt(y, m, d).unwrap()
}

fn photo(path: &str, date: Date) -> PhotoFile {
    PhotoFile { path: path.to_string(), date }
}

fn names(files: &[PhotoFile]) -> Vec<String> {
    files.iter().map(|f| f.path.clone()).collect()
}

#[test]
fn dates_exist_only_on_calendar_days() {
    assert!(Date::from_ymd_opt(2024, 2, 29).is_some());
    assert!(Date::from_ymd_opt(2026, 2, 29).is_none());
    assert!(Date::from_ymd_opt(2026, 2, 30).is_none());
    assert!(Date::from_ymd_opt(2026, 13, 1).is_none());
    assert!(Date::from_ymd_opt(2026, 4, 0).is_none());
    let d = day(2026, 4, 15);
    assert_eq!((d.year(), d.month(), d.day()), (2026, 4, 15));
}

#[test]
fn days_between_dates_cross_months() {
    assert_eq!(day(2026, 4, 1).days_since(&day(2026, 3, 31)), 1);
    assert_eq!(day(2026, 4, 17).days_since(&day(2026, 4, 15)), 2);
    assert_eq!(day(2025, 1, 1).days_since(&day(2024, 1, 1)), 366);
    assert_eq!(day(2000, 3, 1).days_since(&day(1900, 3, 1)), 36525);
    assert_eq!(day(-4, 3, 1).days_since(&day(-4, 2, 28)), 2);
}

#[test]
fn directory_names_follow_the_layout() {
    assert_eq!(month_dir_name(&day(2026, 4, 15)), "2026 - 04 April");
    assert_eq!(month_dir_name(&day(2025, 12, 1)), "2025 - 12 December");
    assert_eq!(day_dir_name(&day(2026, 4, 15), &day(2026, 4, 15)), "2026-04-15");
    assert_eq!(
        day_dir_name(&day(2026, 4, 20), &day(2026, 4, 21)),
        "2026-04-20 - 2026-04-21"
    );
    assert_eq!(iso_date_string(&day(812, 1, 5)), "0812-01-05");
    assert_eq!(month_name(9), "September");
}

#[test]
fn primary_and_raw_extensions_ignore_case() {
    assert!(is_primary("JPG"));
    assert!(is_primary("heic"));
    assert!(is_primary("Mov"));
    assert!(!is_primary("raf"));
    assert!(is_raw("RAF"));
    assert!(is_raw("x3f"));
    assert!(!is_raw("jpg"));
    assert!(!is_raw(""));
}

#[test]
fn scenario_file_placement_within_a_day_directory() {
    assert_eq!(file_subdir("jpg", true), None);
    assert_eq!(file_subdir("raf", true), Some("RAW".to_string()));
    assert_eq!(file_subdir("RAF", true), Some("RAW".to_string()));
    assert_eq!(file_subdir("xmp", true), Some("XMP".to_string()));
    assert_eq!(file_subdir("raf", false), None);
    assert_eq!(file_subdir("", true), None);
}

#[test]
fn scenario_sort_mode_single_day() {
    let files = vec![
        photo("/Photos/IMG_001.jpg", day(2026, 4, 15)),
        photo("/Photos/IMG_002.heic", day(2026, 4, 15)),
        photo("/Photos/IMG_003.raf", day(2026, 4, 15)),
    ];
    let plan = plan_sort("/Photos", files);
    assert_eq!(plan.len(), 1);
    assert_eq!(plan[0].dest_root, "/Photos/2026 - 04 April/2026-04-15");
    assert!(plan[0].has_primaries);
    assert!(!plan[0].check_duplicates);
    let (dir, path) = destination(&plan[0].dest_root, plan[0].has_primaries, "/Photos/IMG_003.raf");
    assert_eq!(dir, "/Photos/2026 - 04 April/2026-04-15/RAW");
    assert_eq!(path, "/Photos/2026 - 04 April/2026-04-15/RAW/IMG_003.raf");
}

#[test]
fn scenario_gap_tolerance_grouping() {
    let files = vec![
        photo("IMG_003.jpg", day(2026, 4, 20)),
        photo("IMG_001.jpg", day(2026, 4, 15)),
        photo("IMG_004.jpg", day(2026, 4, 21)),
        photo("IMG_002.jpg", day(2026, 4, 17)),
    ];
    let clusters = cluster_by_date(files);
    assert_eq!(clusters.len(), 2);
    assert_eq!(names(&clusters[0].files), vec!["IMG_001.jpg", "IMG_002.jpg"]);
    assert_eq!(day_dir_name(&clusters[0].start, &clusters[0].end), "2026-04-15 - 2026-04-17");
    assert_eq!(names(&clusters[1].files), vec!["IMG_003.jpg", "IMG_004.jpg"]);
    assert_eq!(day_dir_name(&clusters[1].start, &clusters[1].end), "2026-04-20 - 2026-04-21");
}

#[test]
fn scenario_raw_only_group_stays_at_the_root() {
    let files = vec![
        photo("IMG_001.raf", day(2026, 4, 15)),
        photo("IMG_002.raf", day(2026, 4, 15)),
    ];
    assert!(!any_primary(&files));
    let plan = plan_sort("/Photos", files);
    assert!(!plan[0].has_primaries);
    let (dir, _) = destination(&plan[0].dest_root, plan[0].has_primaries, "IMG_001.raf");
    assert_eq!(dir, "/Photos/2026 - 04 April/2026-04-15");
}

#[test]
fn scenario_mixed_unlisted_types_get_their_own_directories() {
    let root = "/Photos/2026 - 04 April/2026-04-15";
    assert_eq!(destination(root, true, "IMG_001.jpg").0, root);
    assert_eq!(destination(root, true, "VID_001.mp4").0, root);
    assert_eq!(destination(root, true, "IMG_001.raf").0, format!("{root}/RAW"));
    assert_eq!(destination(root, true, "IMG_001.xmp").0, format!("{root}/XMP"));
}

#[test]
fn scenario_month_boundary_splits_groups() {
    let files = vec![
        photo("IMG_001.jpg", day(2026, 3, 31)),
        photo("IMG_002.jpg", day(2026, 4, 1)),
    ];
    let plan = plan_sort("/Photos", files);
    assert_eq!(plan.len(), 2);
    assert_eq!(plan[0].dest_root, "/Photos/2026 - 03 March/2026-03-31");
    assert_eq!(plan[1].dest_root, "/Photos/2026 - 04 April/2026-04-01");
}

#[test]
fn scenario_cross_month_import_batch() {
    let files = vec![
        photo("IMG_001.jpg", day(2026, 3, 30)),
        photo("IMG_002.jpg", day(2026, 3, 31)),
        photo("IMG_003.jpg", day(2026, 4, 1)),
        photo("IMG_004.jpg", day(2026, 4, 2)),
    ];
    let months = group_by_month(files);
    assert_eq!(months.len(), 2);
    assert_eq!((months[0].year, months[0].month), (2026, 3));
    assert_eq!((months[1].year, months[1].month), (2026, 4));
    let march = plan_month_import("/Photos/2026 - 03 March", &[], &[], months[0].files.iter().map(|f| photo(&f.path, f.date)).collect());
    assert_eq!(march.len(), 1);
    assert_eq!(march[0].dest_root, "/Photos/2026 - 03 March/2026-03-30 - 2026-03-31");
    let april = plan_month_import("/Photos/2026 - 04 April", &[], &[], months[1].files.iter().map(|f| photo(&f.path, f.date)).collect());
    assert_eq!(april[0].dest_root, "/Photos/2026 - 04 April/2026-04-01 - 2026-04-02");
}

#[test]
fn scenario_import_merges_into_a_named_existing_dir() {
    let hiking = ExistingDir::from_dates(
        "/Photos/2026 - 04 April/Hiking Trip".to_string(),
        vec![day(2026, 4, 15), day(2026, 4, 16), day(2026, 4, 15)],
    )
    .unwrap();
    assert_eq!(hiking.min_date(), day(2026, 4, 15));
    assert_eq!(hiking.max_date(), day(2026, 4, 16));
    let files = vec![
        photo("/Volumes/Camera/IMG_010.jpg", day(2026, 4, 15)),
        photo("/Volumes/Camera/IMG_011.raf", day(2026, 4, 16)),
    ];
    let plan = plan_month_import("/Photos/2026 - 04 April", &[hiking], &[true], files);
    assert_eq!(plan.len(), 1);
    assert_eq!(plan[0].dest_root, "/Photos/2026 - 04 April/Hiking Trip");
    assert!(plan[0].check_duplicates);
    assert!(plan[0].has_primaries);
    assert_eq!(names(&plan[0].files).len(), 2);
    assert_eq!(
        destination(&plan[0].dest_root, true, "/Volumes/Camera/IMG_011.raf").1,
        "/Photos/2026 - 04 April/Hiking Trip/RAW/IMG_011.raf"
    );
}

#[test]
fn scenario_date_within_an_existing_span_matches() {
    let hiking = ExistingDir::from_dates(
        "Hiking Trip".to_string(),
        vec![day(2026, 4, 16), day(2026, 4, 14)],
    )
    .unwrap();
    let dirs = vec![hiking];
    assert_eq!(find_matching_index(&dirs, day(2026, 4, 15)), Some(0));
    assert!(find_matching_dir(&dirs, day(2026, 4, 14)).is_some());
    assert!(find_matching_dir(&dirs, day(2026, 4, 13)).is_none());
    assert!(find_matching_dir(&dirs, day(2026, 4, 17)).is_none());
}

#[test]
fn scenario_new_photos_beside_an_existing_dir() {
    let hiking = ExistingDir::from_dates("Hiking Trip".to_string(), vec![day(2026, 4, 15)]).unwrap();
    let files = vec![
        photo("IMG_020.jpg", day(2026, 4, 20)),
        photo("IMG_021.jpg", day(2026, 4, 21)),
    ];
    let plan = plan_month_import("/Photos/2026 - 04 April", &[hiking], &[true], files);
    assert_eq!(plan.len(), 1);
    assert_eq!(plan[0].dest_root, "/Photos/2026 - 04 April/2026-04-20 - 2026-04-21");
    assert!(!plan[0].check_duplicates);
}

#[test]
fn scenario_duplicate_is_skipped() {
    let d = day(2026, 4, 15);
    assert!(is_duplicate(true, Some(d), d));
    assert!(!is_duplicate(true, None, d));
    assert!(!is_duplicate(true, Some(day(2026, 4, 16)), d));
    assert!(!is_duplicate(false, Some(d), d));
}

#[test]
fn first_matching_directory_wins() {
    let a = ExistingDir::from_dates("A".to_string(), vec![day(2026, 4, 1), day(2026, 4, 30)]).unwrap();
    let b = ExistingDir::from_dates("B".to_string(), vec![day(2026, 4, 10)]).unwrap();
    let dirs = vec![a, b];
    assert_eq!(find_matching_index(&dirs, day(2026, 4, 10)), Some(0));
    assert_eq!(find_matching_dir(&dirs, day(2026, 4, 10)).unwrap().path().as_str(), "A");
    assert!(ExistingDir::from_dates("empty".to_string(), vec![]).is_none());
}

#[test]
fn sorting_keeps_same_day_photos_in_order() {
    let files = vec![
        photo("b", day(2026, 4, 2)),
        photo("a1", day(2026, 4, 1)),
        photo("c", day(2026, 4, 3)),
        photo("a2", day(2026, 4, 1)),
    ];
    assert_eq!(names(&sort_photos(files)), vec!["a1", "a2", "b", "c"]);
}

#[test]
fn clustering_every_photo_lands_once() {
    let files = vec![
        photo("1", day(2026, 5, 3)),
        photo("2", day(2026, 5, 1)),
        photo("3", day(2026, 5, 9)),
        photo("4", day(2026, 6, 1)),
        photo("5", day(2026, 5, 2)),
    ];
    let clusters = cluster_by_date(files);
    let mut all: Vec<String> = clusters.iter().flat_map(|c| names(&c.files)).collect();
    assert_eq!(all, vec!["2", "5", "1", "3", "4"]);
    all.sort();
    assert_eq!(all, vec!["1", "2", "3", "4", "5"]);
    assert_eq!(clusters.len(), 3);
    assert!(cluster_by_date(Vec::new()).is_empty());
}

#[test]
fn months_group_in_order_of_first_appearance() {
    let files = vec![
        photo("x", day(2026, 5, 3)),
        photo("y", day(2025, 5, 1)),
        photo("z", day(2026, 5, 9)),
    ];
    let months = group_by_month(files);
    assert_eq!(months.len(), 2);
    assert_eq!((months[0].year, months[0].month), (2026, 5));
    assert_eq!(names(&months[0].files), vec!["x", "z"]);
    assert_eq!(names(&months[1].files), vec!["y"]);
}

#[test]
fn extensions_of_paths() {
    assert_eq!(ext_of("/a/b/photo.JPG"), "JPG");
    assert_eq!(ext_of("/a/b/photo"), "");
    assert_eq!(ext_of("/a/.hidden"), "");
}

#[test]
fn date_source_prefers_metadata() {
    let exif = Some(day(2026, 4, 15));
    let fs = Some(day(2026, 5, 1));
    assert_eq!(resolve_date(DateSource::Metadata, exif, fs), exif);
    assert_eq!(resolve_date(DateSource::Metadata, None, fs), fs);
    assert_eq!(resolve_date(DateSource::Filesystem, exif, fs), fs);
    assert_eq!(resolve_date(DateSource::Filesystem, exif, None), None);
}

#[test]
fn summaries_report_the_outcome() {
    let mut stats = ExecutionStats::new();
    stats.record(FileOutcome::Planned);
    stats.record(FileOutcome::Planned);
    assert_eq!(summary_message(&stats, true, "sort"), "Dry run complete: planned 2 files for sort.");
    let mut stats = ExecutionStats::new();
    stats.record(FileOutcome::Moved);
    assert_eq!(summary_message(&stats, false, "import"), "Completed import: moved 1 files.");
    stats.record(FileOutcome::Skipped);
    stats.record(FileOutcome::Failed);
    assert_eq!(stats.processed, 3);
    assert_eq!(
        summary_message(&stats, false, "import"),
        "Completed import: moved 1, skipped 1, failed 1."
    );
}

#[test]
fn exif_dates_are_read_from_the_first_ten_bytes() {
    assert_eq!(parse_exif_datetime("2026:04:15 10:20:30"), Some(day(2026, 4, 15)));
    assert_eq!(parse_exif_datetime("  2026:04:15\n"), Some(day(2026, 4, 15)));
    assert_eq!(parse_exif_datetime("2026:+4:+5 00:00:00"), Some(day(2026, 4, 5)));
    assert_eq!(parse_exif_datetime("2026:02:30 00:00:00"), None);
    assert_eq!(parse_exif_datetime("2026:04"), None);
    assert_eq!(parse_exif_datetime("abcd:04:15 00:00:00"), None);
    assert_eq!(parse_exif_datetime("2026-04-15"), Some(day(2026, 4, 15)));
}

#[test]
fn exif_dates_cut_inside_a_character_are_no_date() {
    assert_eq!(parse_exif_datetime("2026:0\u{e9}:15 10:00:00"), None);
    assert_eq!(parse_exif_datetime("202\u{e9}:04:15 10:00:00"), None);
    assert_eq!(parse_exif_datetime("2026:04:1\u{e9} 10:00:00"), None);
    assert_eq!(parse_exif_datetime("short"), None);
    assert_eq!(parse_exif_datetime("2026:02:30 00:00:00"), None);
}

#[test]
fn heif_and_hif_are_primary() {
    assert!(is_primary("HIF"));
    assert!(is_primary("heif"));
    assert!(is_primary("Mov"));
    assert!(!is_primary(""));
    assert!(!is_raw(""));
    assert_eq!(file_subdir("hif", true), None);
    assert_eq!(file_subdir("HEIF", true), None);
    assert_eq!(file_subdir("RAF", true), Some("RAW".to_string()));
    assert_eq!(file_subdir("xmp", true), Some("XMP".to_string()));
    assert_eq!(file_subdir("raf", false), None);
}
