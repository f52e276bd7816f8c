use stillkit::rating::{
    build_rated_file_name, build_rating_index, image_entry_for_path, normalized_name_key,
    parse_rating_suffix, rating_to_stars, split_file_name, split_rating_suffix, ImageEntry,
    ImportAction,
};

#[test]
fn tests_parses_rated_stems() {
    assert_eq!(split_rating_suffix("fish"), ("fish".to_string(), None));
    assert_eq!(
        split_rating_suffix("fish_★☆☆☆☆"),
        ("fish".to_string(), Some(1))
    );
    assert_eq!(
        split_rating_suffix("fish_☆☆☆☆☆"),
        ("fish".to_string(), Some(0))
    );
}

#[test]
fn mod_parses_rated_stems() {
    assert_eq!(split_rating_suffix("fish"), ("fish".to_string(), None));
    assert_eq!(split_rating_suffix("fish_★☆☆☆☆"), ("fish".to_string(), Some(1)));
    assert_eq!(split_rating_suffix("fish_☆☆☆☆☆"), ("fish".to_string(), Some(0)));
}

#[test]
fn tests_keeps_original_title_for_display() {
    let entry = ImageEntry::from_path("/photos", "/photos/fish_★★★☆☆.jpg".to_string());

    assert_eq!(entry.display_title, "fish.jpg");
    assert_eq!(entry.display_path, "fish.jpg");
    assert_eq!(entry.rating, Some(3));
}

#[test]
fn mod_keeps_original_title_for_display() {
    let entry = ImageEntry::from_path("/photos", "/photos/fish_★★★☆☆.jpg".to_string());

    assert_eq!(entry.display_title, "fish.jpg");
    assert_eq!(entry.display_path, "fish.jpg");
    assert_eq!(entry.rating, Some(3));
}

#[test]
fn tests_builds_rated_names() {
    assert_eq!(
        build_rated_file_name("fish", Some("jpg"), 1),
        "fish_★☆☆☆☆.jpg"
    );
    assert_eq!(
        build_rated_file_name("fish", Some("jpg"), 5),
        "fish_★★★★★.jpg"
    );
    assert_eq!(build_rated_file_name("fish", None, 0), "fish_☆☆☆☆☆");
}

#[test]
fn mod_builds_rated_names() {
    assert_eq!(build_rated_file_name("fish", Some("jpg"), 1), "fish_★☆☆☆☆.jpg");
    assert_eq!(build_rated_file_name("fish", Some("jpg"), 5), "fish_★★★★★.jpg");
    assert_eq!(build_rated_file_name("fish", None, 0), "fish_☆☆☆☆☆");
}

#[test]
fn stars_are_clamped_to_five() {
    assert_eq!(rating_to_stars(0), "☆☆☆☆☆");
    assert_eq!(rating_to_stars(3), "★★★☆☆");
    assert_eq!(rating_to_stars(9), "★★★★★");
}

#[test]
fn rating_suffix_must_be_five_stars() {
    assert_eq!(parse_rating_suffix("★★☆☆☆"), Some(2));
    assert_eq!(parse_rating_suffix("★★☆☆"), None);
    assert_eq!(parse_rating_suffix("★★x☆☆"), None);
}

#[test]
fn rated_name_round_trips_through_the_suffix() {
    let name = build_rated_file_name("DSCF0655", Some("webp"), 4);
    let (stem, ext) = split_file_name(&name);
    assert_eq!(ext, Some("webp".to_string()));
    assert_eq!(split_rating_suffix(&stem), ("DSCF0655".to_string(), Some(4)));
}

#[test]
fn name_keys_ignore_case() {
    assert_eq!(normalized_name_key("DSCF0655"), "dscf0655");
    assert_eq!(normalized_name_key("Ärger"), normalized_name_key("äRGER"));
}

#[test]
fn rating_index_keeps_the_first_rated_source() {
    let paths = vec![
        "/edited/DSCF0655_★☆☆☆☆.webp".to_string(),
        "/edited/DSCF0655_★★★★★.jpg".to_string(),
        "/edited/plain.jpg".to_string(),
    ];
    let (index, unrated) = build_rating_index(&paths);
    assert_eq!(unrated, 1);
    assert_eq!(index.get(&normalized_name_key("DSCF0655")), Some(1));
    assert_eq!(index.get(&normalized_name_key("plain")), None);
}

#[test]
fn import_entry_describes_its_file() {
    let entry = image_entry_for_path("/originals/DSCF0655_★★★☆☆.jpg".to_string());
    assert_eq!(entry.rating, Some(3));
    assert_eq!(entry.original_stem, "DSCF0655");
    assert_eq!(entry.extension, Some("jpg".to_string()));
    assert_eq!(entry.rating_label(), "★★★☆☆");
    assert_eq!(entry.rated_path(1), "/originals/DSCF0655_★☆☆☆☆.jpg");
}

#[test]
fn import_actions_cover_each_case() {
    let entry = image_entry_for_path("/originals/DSCF0655_★★★☆☆.jpg".to_string());
    let (index, _) = build_rating_index(&vec!["/edited/DSCF0655_★☆☆☆☆.webp".to_string()]);
    assert!(matches!(stillkit::rating::import_action(&entry, &index), ImportAction::Rerate(1)));
    let same = image_entry_for_path("/originals/DSCF0655_★☆☆☆☆.jpg".to_string());
    assert!(matches!(stillkit::rating::import_action(&same, &index), ImportAction::Unchanged));
    let other = image_entry_for_path("/originals/other.jpg".to_string());
    assert!(matches!(stillkit::rating::import_action(&other, &index), ImportAction::MissingSource));
}
