use leftright::paths::{ascii_lower, join_path, name_supported, scan_filter};
use leftright::decode::downscale_dims;

fn strings(names: &[&str]) -> Vec<String> {
    names.iter().map(|n| n.to_string()).collect()
}

#[test]
fn filter_keeps_exactly_supported_extensions() {
    let listing = strings(&[
        "a.jpg",
        "b.PNG",
        "c.txt",
        "noext",
        ".gitignore",
        "x.jpeg",
        "y.webp",
        "z.GIF",
        "w.jpg.bak",
        "dot.",
    ]);
    let kept = scan_filter(&listing);
    assert_eq!(kept, strings(&["a.jpg", "b.PNG", "x.jpeg", "y.webp", "z.GIF"]));
}

#[test]
fn supported_names_are_case_insensitive() {
    assert!(name_supported("photo.JPG"));
    assert!(name_supported("photo.JpEg"));
    assert!(name_supported("photo.png"));
    assert!(name_supported("photo.gif"));
    assert!(name_supported("photo.WEBP"));
    assert!(!name_supported("photo.tiff"));
    assert!(!name_supported("photo"));
    assert!(!name_supported(".jpg"));
    assert!(!name_supported("photo."));
    assert!(!name_supported("jpg"));
}

#[test]
fn ascii_lower_only_touches_ascii_uppercase() {
    assert_eq!(ascii_lower('A'), 'a');
    assert_eq!(ascii_lower('Z'), 'z');
    assert_eq!(ascii_lower('a'), 'a');
    assert_eq!(ascii_lower('.'), '.');
    assert_eq!(ascii_lower('É'), 'É');
}

#[test]
fn join_builds_category_slash_name() {
    let j = join_path(&"keep".to_string(), &"a.jpg".to_string());
    assert_eq!(j, "keep/a.jpg".to_string());
}

#[test]
fn downscale_caps_the_longer_side_at_1200() {
    assert_eq!(downscale_dims(2400, 1200), (1200, 600));
    assert_eq!(downscale_dims(800, 600), (800, 600));
    assert_eq!(downscale_dims(1000, 3000), (400, 1200));
    assert_eq!(downscale_dims(1200, 1200), (1200, 1200));
    assert_eq!(downscale_dims(2401, 1200), (1200, 599));
}
