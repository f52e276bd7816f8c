use stillkit::calendar::Date;
use stillkit::plan::{file_action, FileAction};
use stillkit::rating::{build_rated_file_name, ImageEntry};
use stillkit::exposure::{adjust_backends, exposure_settings, AdjustBackend, NameMode, OutputMode};
use stillkit::listing::sort_by_lowercase;
use stillkit::media::Pipeline;
use stillkit::previews::{preview_backends, select_previews, Backend, ExistingFileAction};
use stillkit::rating::{rename_conflict_message, ImportAction, ImportStats};

fn strings(v: &[&str]) -> Vec<String> {
    v.iter().map(|s| s.to_string()).collect()
}

#[test]
fn import_stats_count_each_outcome() {
    let mut stats = ImportStats::new(2);
    stats.record(ImportAction::Rerate(3), true);
    stats.record(ImportAction::Rerate(4), false);
    stats.record(ImportAction::Unchanged, false);
    stats.record(ImportAction::MissingSource, false);
    stats.record(ImportAction::MissingSource, false);
    assert_eq!(stats.updated, 1);
    assert_eq!(stats.failed, 1);
    assert_eq!(stats.unchanged, 1);
    assert_eq!(stats.missing_source, 2);
    assert_eq!(stats.source_unrated, 2);
    assert_eq!(
        stats.summary(),
        "Imported ratings: 1 updated, 1 unchanged, 2 without source match, 2 unrated sources ignored, 1 failed"
    );
}

#[test]
fn fresh_import_stats_are_zero() {
    assert_eq!(
        ImportStats::new(0).summary(),
        "Imported ratings: 0 updated, 0 unchanged, 0 without source match, 0 unrated sources ignored, 0 failed"
    );
}

#[test]
fn rename_conflict_names_both_paths() {
    assert_eq!(
        rename_conflict_message("a/x.jpg", "a/x_★☆☆☆☆.jpg"),
        "Cannot rename a/x.jpg because a/x_★☆☆☆☆.jpg already exists"
    );
}

#[test]
fn sorts_paths_without_regard_to_case() {
    assert_eq!(
        sort_by_lowercase(strings(&["b.jpg", "A.jpg", "a.JPG", "C.png"])),
        strings(&["A.jpg", "a.JPG", "b.jpg", "C.png"])
    );
    assert_eq!(sort_by_lowercase(Vec::new()), Vec::<String>::new());
}

#[test]
fn sorting_by_lowercase_keeps_equal_keys_in_order() {
    assert_eq!(sort_by_lowercase(strings(&["X", "x", "X"])), strings(&["X", "x", "X"]));
}

#[test]
fn preview_backends_follow_the_documented_order() {
    assert_eq!(
        preview_backends(Pipeline::Auto, true, false, true),
        vec![Backend::Sips, Backend::Magick, Backend::Convert, Backend::EmbeddedJpeg, Backend::DevelopRaw]
    );
    assert_eq!(
        preview_backends(Pipeline::Auto, false, true, false),
        vec![Backend::Magick, Backend::Convert, Backend::Decode]
    );
    assert_eq!(preview_backends(Pipeline::BuiltIn, true, true, true), vec![Backend::DevelopRaw]);
    assert_eq!(
        preview_backends(Pipeline::BuiltIn, false, false, true),
        vec![Backend::EmbeddedJpeg, Backend::DevelopRaw]
    );
}

#[test]
fn skip_keeps_only_images_without_previews() {
    let exists = vec![true, false, true, false];
    assert_eq!(select_previews(&exists, ExistingFileAction::Skip), (vec![1, 3], 2));
    assert_eq!(select_previews(&exists, ExistingFileAction::Overwrite), (vec![0, 1, 2, 3], 0));
    assert_eq!(select_previews(&Vec::new(), ExistingFileAction::Skip), (Vec::new(), 0));
}

#[test]
fn exposure_settings_choose_modes() {
    assert_eq!(
        exposure_settings(true, false, false, false, false, true, false),
        Ok((OutputMode::Directory, NameMode::Adjusted))
    );
    assert_eq!(
        exposure_settings(false, true, true, true, false, false, false),
        Ok((OutputMode::Overwrite, NameMode::Adjusted))
    );
    assert_eq!(
        exposure_settings(true, false, false, false, true, false, false),
        Ok((OutputMode::NextToOriginal, NameMode::Adjusted))
    );
    assert_eq!(
        exposure_settings(true, false, false, false, false, true, true),
        Ok((OutputMode::Directory, NameMode::Original))
    );
}

#[test]
fn exposure_settings_report_each_error() {
    assert_eq!(
        exposure_settings(false, true, false, false, false, true, false),
        Err("Provide --adjustment or both --start and --end.".to_string())
    );
    assert_eq!(
        exposure_settings(true, false, false, false, false, false, false),
        Err("Provide --output DIRECTORY, or choose --overwrite / --next-to-original.".to_string())
    );
    assert_eq!(
        exposure_settings(true, false, false, false, true, false, true),
        Err("--original-names can only be used with --output.".to_string())
    );
}

#[test]
fn adjust_backends_put_sips_first_for_heic_on_macos() {
    assert_eq!(
        adjust_backends(true, true, true),
        vec![AdjustBackend::Sips, AdjustBackend::Magick, AdjustBackend::Convert, AdjustBackend::Native]
    );
    assert_eq!(
        adjust_backends(true, true, false),
        vec![AdjustBackend::Magick, AdjustBackend::Convert, AdjustBackend::Native]
    );
    assert_eq!(adjust_backends(false, true, true), vec![AdjustBackend::Native]);
}

#[test]
fn file_actions_skip_duplicates_first() {
    let day = Date::from_ymd_opt(2026, 4, 15).unwrap();
    let other = Date::from_ymd_opt(2026, 4, 16).unwrap();
    assert_eq!(file_action(true, Some(day), day, true), FileAction::Skip);
    assert_eq!(file_action(true, Some(day), day, false), FileAction::Skip);
    assert_eq!(file_action(true, Some(other), day, true), FileAction::Report);
    assert_eq!(file_action(false, Some(day), day, false), FileAction::Move);
    assert_eq!(file_action(true, None, day, false), FileAction::Move);
}

#[test]
fn rated_file_in_a_directory_reads_back() {
    let name = build_rated_file_name("DSCF0655", Some("jpg"), 3);
    let entry = ImageEntry::from_path("photos/trip", format!("photos/trip/{name}"));
    assert_eq!(entry.original_stem, "DSCF0655");
    assert_eq!(entry.rating, Some(3));
    assert_eq!(entry.extension, Some("jpg".to_string()));
    assert_eq!(entry.display_title, "DSCF0655.jpg");
    assert_eq!(entry.display_path, entry.display_title);
}
