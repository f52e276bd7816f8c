use stillkit::terminal::{
    ascii_lines, color_rows, command_for_key, layout, map_intensity_to_char, move_selection, rating_status,
    rgb_to_256_index, rgba_to_rgb, Key, PreviewMode, UiCommand,
};

#[test]
fn preview_modes_toggle_and_describe_themselves() {
    assert_eq!(PreviewMode::Ascii.toggle(), PreviewMode::Color256);
    assert_eq!(PreviewMode::Color256.toggle().toggle(), PreviewMode::Color256);
    assert_eq!(PreviewMode::Ascii.label(), "ASCII");
    assert_eq!(PreviewMode::Color256.label(), "COLOR");
    assert_eq!(PreviewMode::Ascii.description(), "ASCII (default, fast, stable)");
    assert_eq!(PreviewMode::Color256.description(), "256-color (higher fidelity, best effort)");
}

#[test]
fn gray_levels_map_onto_the_ramp() {
    assert_eq!(map_intensity_to_char(0), ' ');
    assert_eq!(map_intensity_to_char(255), '@');
    assert_eq!(map_intensity_to_char(128), '5');
}

#[test]
fn colors_map_onto_the_cube() {
    assert_eq!(rgb_to_256_index(0, 0, 0), 16);
    assert_eq!(rgb_to_256_index(255, 255, 255), 231);
    assert_eq!(rgb_to_256_index(255, 0, 0), 196);
    assert_eq!(rgba_to_rgb(10, 20, 30, 255), (10, 20, 30));
    assert_eq!(rgba_to_rgb(255, 128, 0, 128), (128, 64, 0));
}

#[test]
fn ascii_picture_is_centered_in_the_panel() {
    assert_eq!(layout(2, 3, 6, 4), (2, 2, 1));
    let gray = vec![0, 255, 255, 255, 0, 0];
    let lines = ascii_lines(&gray, 2, 3, 6, 4);
    assert_eq!(lines, vec!["      ", "  2@  ", "      ", "      "]);
}

#[test]
fn color_cells_pair_two_pixel_rows() {
    let rgba = vec![255, 0, 0, 255, 0, 0, 0, 255, 255, 255, 255, 255];
    let rows = color_rows(&rgba, 1, 3);
    assert_eq!(rows, vec![vec![(196, 16)], vec![(231, 231)]]);
}

#[test]
fn keys_map_to_commands() {
    assert_eq!(command_for_key(Key::Char('q'), 3), UiCommand::Quit);
    assert_eq!(command_for_key(Key::Esc, 3), UiCommand::Quit);
    assert_eq!(command_for_key(Key::Char('j'), 3), UiCommand::Move(1));
    assert_eq!(command_for_key(Key::PageUp, 3), UiCommand::Move(-10));
    assert_eq!(command_for_key(Key::End, 3), UiCommand::Select(2));
    assert_eq!(command_for_key(Key::End, 0), UiCommand::Select(0));
    assert_eq!(command_for_key(Key::Char('4'), 3), UiCommand::Rate(4));
    assert_eq!(command_for_key(Key::Char('6'), 3), UiCommand::Ignore);
    assert_eq!(command_for_key(Key::Char('p'), 3), UiCommand::TogglePreview);
}

#[test]
fn selection_moves_within_the_list() {
    assert_eq!(move_selection(None, 1, 5), 0);
    assert_eq!(move_selection(Some(0), -1, 5), 0);
    assert_eq!(move_selection(Some(3), 10, 5), 4);
    assert_eq!(move_selection(Some(3), -10, 5), 0);
    assert_eq!(move_selection(Some(2), 1, 5), 3);
    assert_eq!(move_selection(Some(0), 1, 0), 0);
}

#[test]
fn rating_status_names_the_file() {
    assert_eq!(rating_status(2, "fish_★★☆☆☆.jpg"), "Updated rating to ★★☆☆☆ for fish_★★☆☆☆.jpg");
}
