use wallpaper_carousel::carousel::{
    find_next_image, find_random_image, get_supported_image_extensions, has_supported_extension,
    sort_paths, CarouselError,
};

fn listing(names: &[&str]) -> Vec<String> {
    names.iter().map(|s| s.to_string()).collect()
}

#[test]
fn supported_extensions_list() {
    let exts = get_supported_image_extensions();
    assert_eq!(exts, vec!["jpg", "jpeg", "png", "gif", "webp", "bmp", "ico", "tiff", "tif"]);
}

#[test]
fn extension_filtering() {
    assert!(has_supported_extension("/pics/a.jpg"));
    assert!(has_supported_extension("/pics/a.JPG"));
    assert!(has_supported_extension("b.TiFf"));
    assert!(has_supported_extension("/x/y/z.webp"));
    assert!(!has_supported_extension("/pics/a.txt"));
    assert!(!has_supported_extension("/pics/noext"));
    assert!(!has_supported_extension("/pics/.jpg"));
    assert!(!has_supported_extension(".png"));
    assert!(!has_supported_extension("/pics.jpg/archive"));
    assert!(has_supported_extension("/pics.d/photo.png"));
    assert!(!has_supported_extension(""));
}

#[test]
fn sorting_is_lexicographic() {
    let v = listing(&["/p/c.jpg", "/p/a.jpg", "/p/b.jpg", "/p/B.jpg"]);
    let sorted = sort_paths(v);
    assert_eq!(sorted, listing(&["/p/B.jpg", "/p/a.jpg", "/p/b.jpg", "/p/c.jpg"]));
}

#[test]
fn forward_steps_to_next_sorted_entry() {
    let entries = listing(&["/p/c.jpg", "/p/a.jpg", "/p/b.jpg", "/p/notes.txt"]);
    let next = find_next_image("/p/a.jpg", false, &entries).unwrap();
    assert_eq!(next, "/p/b.jpg");
}

#[test]
fn forward_wraps_around() {
    let entries = listing(&["/p/a.jpg", "/p/b.jpg", "/p/c.jpg"]);
    let next = find_next_image("/p/c.jpg", false, &entries).unwrap();
    assert_eq!(next, "/p/a.jpg");
}

#[test]
fn backward_wraps_around() {
    let entries = listing(&["/p/a.jpg", "/p/b.jpg", "/p/c.jpg"]);
    let prev = find_next_image("/p/a.jpg", true, &entries).unwrap();
    assert_eq!(prev, "/p/c.jpg");
}

#[test]
fn unknown_current_starts_at_the_edges() {
    let entries = listing(&["/p/a.jpg", "/p/b.jpg"]);
    assert_eq!(find_next_image("/q/zz.jpg", false, &entries).unwrap(), "/p/a.jpg");
    assert_eq!(find_next_image("/q/zz.jpg", true, &entries).unwrap(), "/p/b.jpg");
}

#[test]
fn forward_then_backward_returns_to_start() {
    let entries = listing(&["/p/d.png", "/p/a.jpg", "/p/c.gif", "/p/b.bmp"]);
    for start in ["/p/a.jpg", "/p/b.bmp", "/p/c.gif", "/p/d.png"] {
        let fwd = find_next_image(start, false, &entries).unwrap();
        let back = find_next_image(&fwd, true, &entries).unwrap();
        assert_eq!(back, start);
    }
}

#[test]
fn no_images_error() {
    let entries = listing(&["/p/readme.md", "/p/data.csv"]);
    assert_eq!(find_next_image("/p/a.jpg", false, &entries), Err(CarouselError::NoImages));
    assert_eq!(find_random_image("/p/a.jpg", &entries), Err(CarouselError::NoImages));
}

#[test]
fn only_one_image_error() {
    let entries = listing(&["/p/a.jpg"]);
    assert_eq!(find_next_image("/p/a.jpg", false, &entries), Err(CarouselError::OnlyOneImage));
    assert_eq!(find_random_image("/p/a.jpg", &entries), Err(CarouselError::OnlyOneImage));
}

#[test]
fn random_never_returns_current() {
    let entries = listing(&["/p/a.jpg", "/p/b.jpg", "/p/c.jpg"]);
    for _ in 0..50 {
        let pick = find_random_image("/p/b.jpg", &entries).unwrap();
        assert_ne!(pick, "/p/b.jpg");
        assert!(pick == "/p/a.jpg" || pick == "/p/c.jpg");
    }
}

#[test]
fn random_with_current_elsewhere_uses_all_entries() {
    let entries = listing(&["/p/a.jpg", "/p/b.jpg"]);
    let pick = find_random_image("/q/other.jpg", &entries).unwrap();
    assert!(pick == "/p/a.jpg" || pick == "/p/b.jpg");
}
