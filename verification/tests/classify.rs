use stillkit::classify::{classify_moves, ignored_extensions, ExtensionMap};

fn strings(v: &[&str]) -> Vec<String> {
    v.iter().map(|s| s.to_string()).collect()
}

#[test]
fn files_move_into_extension_directories() {
    let map = ExtensionMap::from_args(&Vec::new());
    let moves = classify_moves(&strings(&["a.jpg", "b.PNG", "notes"]), &map, &Vec::new());
    assert_eq!(
        moves,
        vec![("a.jpg".to_string(), "JPG".to_string()), ("b.PNG".to_string(), "PNG".to_string())]
    );
}

#[test]
fn a_single_extension_is_left_alone() {
    let map = ExtensionMap::from_args(&Vec::new());
    assert!(classify_moves(&strings(&["a.jpg", "b.JPG", "c"]), &map, &Vec::new()).is_empty());
}

#[test]
fn custom_mappings_and_ignores() {
    let map = ExtensionMap::from_args(&strings(&["raf:RAW", "jpg:JPEGs", "bad", "JPG:Photos"]));
    assert_eq!(map.get(".raf"), Some("RAW".to_string()));
    assert_eq!(map.get(".jpg"), Some("Photos".to_string()));
    assert_eq!(map.get(".png"), None);
    let ignored = ignored_extensions(&strings(&["HEIC"]));
    assert_eq!(ignored, strings(&[".heic"]));
    let moves = classify_moves(&strings(&["a.raf", "b.jpg", "c.heic", "d.png"]), &map, &ignored);
    assert_eq!(
        moves,
        vec![
            ("a.raf".to_string(), "RAW".to_string()),
            ("b.jpg".to_string(), "Photos".to_string()),
            ("d.png".to_string(), "PNG".to_string()),
        ]
    );
    let all = ignored_extensions(&strings(&["all"]));
    let moves = classify_moves(&strings(&["a.raf", "d.png"]), &map, &all);
    assert_eq!(moves, vec![("a.raf".to_string(), "RAW".to_string())]);
}
