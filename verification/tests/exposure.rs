use stillkit::exposure::{
    common_relative_path, conflict_message, exposure_summary, find_output_conflict, output_path, scale,
    NameMode, OutputConflict, OutputMode,
};

fn strings(v: &[&str]) -> Vec<String> {
    v.iter().map(|s| s.to_string()).collect()
}

#[test]
fn overwrite_keeps_the_input_path_unless_it_is_heic_or_raw() {
    let dirs = Vec::new();
    assert_eq!(
        output_path("a/photo.png", &dirs, OutputMode::Overwrite, "", NameMode::Original, ""),
        Ok("a/photo.png".to_string())
    );
    assert_eq!(
        output_path("a/photo.CR2", &dirs, OutputMode::Overwrite, "", NameMode::Original, ""),
        Err("Cannot overwrite HEIC/RAW in its original format: a/photo.CR2. Use --output or --next-to-original to save PNG copies.".to_string())
    );
}

#[test]
fn adjusted_copies_beside_the_original() {
    let dirs = Vec::new();
    assert_eq!(
        output_path("a/photo.jpg", &dirs, OutputMode::NextToOriginal, "", NameMode::Adjusted, "photo_+1_5.jpg"),
        Ok("a/photo_+1_5.jpg".to_string())
    );
    assert_eq!(
        output_path("a/photo.heic", &dirs, OutputMode::NextToOriginal, "", NameMode::Adjusted, "photo_+1_0.heic"),
        Ok("a/photo_+1_0.png".to_string())
    );
    assert_eq!(
        output_path("a/..", &dirs, OutputMode::NextToOriginal, "", NameMode::Original, ""),
        Err("Input has no filename: a/..".to_string())
    );
}

#[test]
fn directory_output_keeps_the_place_below_the_input_directory() {
    let dirs = strings(&["/shots"]);
    assert_eq!(
        output_path("/shots/day1/photo.jpg", &dirs, OutputMode::Directory, "/out", NameMode::Original, ""),
        Ok("/out/day1/photo.jpg".to_string())
    );
    assert_eq!(
        output_path("/elsewhere/photo.RAF", &dirs, OutputMode::Directory, "/out", NameMode::Original, ""),
        Ok("/out/photo.png".to_string())
    );
    assert_eq!(common_relative_path("/shots/a/b.jpg", &dirs), "a/b.jpg");
    assert_eq!(common_relative_path("/x/b.jpg", &dirs), "b.jpg");
    assert_eq!(common_relative_path("/", &dirs), "image");
}

#[test]
fn output_conflicts_are_found_in_order() {
    let sources = strings(&["/a/1.jpg", "/a/2.jpg"]);
    let outputs = strings(&["/o/1.jpg", "/a/2.jpg", "/o/1.jpg"]);
    assert_eq!(find_output_conflict(&sources, &outputs, false), Some((1, OutputConflict::ReplacesInput)));
    assert_eq!(find_output_conflict(&sources, &outputs, true), Some((2, OutputConflict::Duplicate)));
    assert_eq!(find_output_conflict(&sources, &strings(&["/o/1.jpg"]), false), None);
    assert_eq!(
        conflict_message(OutputConflict::Duplicate, "/o/1.jpg"),
        "Multiple inputs produce /o/1.jpg. Process them separately or use distinct names."
    );
    assert_eq!(
        conflict_message(OutputConflict::ReplacesInput, "/a/2.jpg"),
        "Output would replace an input: /a/2.jpg. Use a separate output directory or --overwrite."
    );
}

#[test]
fn stops_scale_colors_and_preserve_alpha() {
    let mut rgba: Vec<u8> = vec![30, 90, 200, 71, 1, 2, 3, 4, 9];
    scale(&mut rgba, 4, 3, |v: u8| v.saturating_mul(2));
    assert_eq!(rgba, vec![60, 180, 255, 71, 2, 4, 6, 4, 9]);
    let mut gray: Vec<u16> = vec![12345];
    scale(&mut gray, 1, 1, |v: u16| v / 2 + v % 2);
    assert_eq!(gray, vec![6173]);
}

#[test]
fn exposure_closing_line() {
    assert_eq!(exposure_summary(3, 1), "Exposure complete: 3 generated, 1 errors");
}
