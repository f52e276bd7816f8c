use stillkit::media::{is_heic_family, is_raw, is_supported_image, Pipeline};
use stillkit::previews::{
    all_skipped_message, existing_prompt, generation_header, is_full_size, parse_existing_file_action_input,
    parse_max_dimension, preview_output_dir, preview_output_path, preview_size_label, previews_summary,
    ExistingFileAction, OutputFormat,
};

#[test]
fn tests_parses_existing_file_action_input() {
    assert_eq!(
        parse_existing_file_action_input("o"),
        Some(ExistingFileAction::Overwrite)
    );
    assert_eq!(
        parse_existing_file_action_input("overwrite"),
        Some(ExistingFileAction::Overwrite)
    );
    assert_eq!(
        parse_existing_file_action_input("s"),
        Some(ExistingFileAction::Skip)
    );
    assert_eq!(
        parse_existing_file_action_input(""),
        Some(ExistingFileAction::Skip)
    );
    assert_eq!(parse_existing_file_action_input("later"), None);
}

#[test]
fn mod_parses_existing_file_action_input() {
    assert_eq!(
        parse_existing_file_action_input("o"),
        Some(ExistingFileAction::Overwrite)
    );
    assert_eq!(
        parse_existing_file_action_input("overwrite"),
        Some(ExistingFileAction::Overwrite)
    );
    assert_eq!(
        parse_existing_file_action_input("s"),
        Some(ExistingFileAction::Skip)
    );
    assert_eq!(
        parse_existing_file_action_input(""),
        Some(ExistingFileAction::Skip)
    );
    assert_eq!(parse_existing_file_action_input("later"), None);
}

#[test]
fn answers_ignore_case_and_surrounding_space() {
    assert_eq!(parse_existing_file_action_input("  O \n"), Some(ExistingFileAction::Overwrite));
    assert_eq!(parse_existing_file_action_input("SKIP\r\n"), Some(ExistingFileAction::Skip));
    assert_eq!(parse_existing_file_action_input(" \t"), Some(ExistingFileAction::Skip));
}

#[test]
fn preview_size_label_reflects_full_mode() {
    assert_eq!(preview_size_label(1000, false), "max dimension: 1000");
    assert_eq!(preview_size_label(1000, true), "full size");
}

#[test]
fn supports_hif_as_heic_family_image() {
    assert!(is_supported_image("photo.hif"));
    assert!(is_supported_image("photo.HIF"));
    assert!(is_heic_family("photo.hif"));
}

#[test]
fn recognizes_camera_formats() {
    for name in [
        "photo.CR2",
        "photo.cR3",
        "photo.NEF",
        "photo.ARW",
        "photo.RAF",
        "photo.DNG",
        "photo.ORF",
        "photo.RW2",
        "photo.PEF",
    ] {
        assert!(is_raw(name), "{name}");
    }
    for name in ["photo", "photo.jpg", "photo.heic"] {
        assert!(!is_raw(name));
    }
}

#[test]
fn output_formats_by_name() {
    assert_eq!(OutputFormat::from_str("JPEG"), Some(OutputFormat::Jpeg));
    assert_eq!(OutputFormat::from_str("jpg"), Some(OutputFormat::Jpeg));
    assert_eq!(OutputFormat::from_str("WebP"), Some(OutputFormat::WebP));
    assert_eq!(OutputFormat::from_str("png"), Some(OutputFormat::Png));
    assert_eq!(OutputFormat::from_str("gif"), None);
    assert_eq!(OutputFormat::Jpeg.extension(), "jpg");
    assert_eq!(OutputFormat::WebP.extension(), "webp");
    assert_eq!(OutputFormat::default(), OutputFormat::Jpeg);
}

#[test]
fn max_size_argument() {
    assert_eq!(parse_max_dimension("640"), 640);
    assert_eq!(parse_max_dimension("+640"), 640);
    assert_eq!(parse_max_dimension("full"), 1000);
    assert_eq!(parse_max_dimension("99999999999"), 1000);
    assert!(is_full_size("FULL"));
    assert!(!is_full_size("fully"));
}

#[test]
fn previews_go_to_a_preview_directory() {
    assert_eq!(preview_output_dir("/photos", true, "preview"), "/photos/preview");
    assert_eq!(preview_output_dir("/a/one.jpg", false, "preview"), "/a/preview");
    assert_eq!(preview_output_dir("one.jpg", false, "preview"), "preview");
    assert_eq!(
        preview_output_path(Some("/photos"), "/photos/preview", "/photos/2024/one.CR2", "jpg"),
        "/photos/preview/2024/one.jpg"
    );
    assert_eq!(
        preview_output_path(None, "/a/preview", "/b/two.jpg", "webp"),
        "/a/preview/two.webp"
    );
}

#[test]
fn preview_messages() {
    assert_eq!(
        existing_prompt(1),
        "1 existing preview detected. Overwrite existing files or skip them? [o/s] "
    );
    assert_eq!(
        existing_prompt(3),
        "3 existing previews detected. Overwrite existing files or skip them? [o/s] "
    );
    assert_eq!(previews_summary(4, 2, 1), "Generated 4 previews (2 skipped, 1 errors)");
    assert_eq!(previews_summary(4, 0, 0), "Generated 4 previews (0 errors)");
    assert_eq!(all_skipped_message(5), "All 5 previews already exist. Skipping generation.");
    assert_eq!(
        generation_header(2, "full size", "jpg", 75, "/p"),
        "Generating previews: 2 images, full size, format: jpg, quality: 75, output: /p"
    );
}

#[test]
fn pipeline_follows_the_no_deps_flag() {
    assert!(Pipeline::from_no_deps(false).allows_tools());
    assert!(!Pipeline::from_no_deps(true).allows_tools());
}

#[test]
fn every_raw_format_is_a_supported_image() {
    for name in ["photo.ORF", "photo.CR3", "photo.pef", "photo.3fr", "photo.KDC", "photo.hif", "photo.HIF"] {
        assert!(is_supported_image(name), "{name}");
    }
    assert!(!is_supported_image("photo.txt"));
    assert!(!is_supported_image("photo"));
}
