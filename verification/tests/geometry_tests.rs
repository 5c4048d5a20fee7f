use wallpaper_carousel::geometry::{active_displays, calculate_safe_area};

#[test]
fn example_scenario_two_displays() {
    // Image 3000x2000 on a 1920x1080 and a 2560x1440 display, both 16:9.
    // Per display: scale to width, center-crop vertically, map back.
    // 1920x1080: scaled height 1280, offset 100, band rows 156..1843.
    // 2560x1440: scaled height 1706, offset 133, band rows 155..1842.
    // Intersection: rows 156..1842, full width.
    let sa = calculate_safe_area(3000, 2000, &[(1920, 1080), (2560, 1440)]);
    assert_eq!(sa.x, 0);
    assert_eq!(sa.y, 156);
    assert_eq!(sa.width, 3000);
    assert_eq!(sa.height, 1686);
}

#[test]
fn empty_display_set_yields_full_image() {
    let sa = calculate_safe_area(800, 600, &[]);
    assert_eq!((sa.x, sa.y, sa.width, sa.height), (0, 0, 800, 600));
}

#[test]
fn same_aspect_displays_yield_full_image() {
    let sa = calculate_safe_area(3000, 2000, &[(1500, 1000), (3000, 2000), (750, 500)]);
    assert_eq!((sa.x, sa.y, sa.width, sa.height), (0, 0, 3000, 2000));
}

#[test]
fn safe_area_stays_inside_image() {
    let cases: Vec<(u32, u32, Vec<(u32, u32)>)> = vec![
        (100, 100, vec![(1920, 1080)]),
        (1, 1, vec![(1920, 1080), (1080, 1920)]),
        (4096, 4096, vec![(640, 480), (3840, 2160), (1, 1)]),
        (50, 5000, vec![(5000, 50)]),
    ];
    for (w, h, ds) in cases {
        let sa = calculate_safe_area(w, h, &ds);
        assert!(sa.x.checked_add(sa.width).unwrap() <= w);
        assert!(sa.y.checked_add(sa.height).unwrap() <= h);
    }
}

#[test]
fn opposed_aspects_shrink_both_axes() {
    // A very wide and a very tall display leave only a central region.
    let sa = calculate_safe_area(1000, 1000, &[(4000, 1000), (1000, 4000)]);
    assert!(sa.width <= 250);
    assert!(sa.height <= 250);
    // Adding a display never grew the safe area of either single display.
    let wide_only = calculate_safe_area(1000, 1000, &[(4000, 1000)]);
    assert!(sa.width <= wide_only.width && sa.height <= wide_only.height);
}

#[test]
fn wider_image_crops_horizontally() {
    // Image 2000x1000 (2:1) on a 1000x1000 (1:1) display: scaled width 2000,
    // offset 500, visible columns 500..1500.
    let sa = calculate_safe_area(2000, 1000, &[(1000, 1000)]);
    assert_eq!((sa.x, sa.y, sa.width, sa.height), (500, 0, 1000, 1000));
}

#[test]
fn active_displays_keeps_only_active_modes() {
    let outputs = vec![(1920, 1080, true), (1280, 720, false), (2560, 1440, true)];
    let ds = active_displays(&outputs);
    assert_eq!(ds, vec![(1920, 1080), (2560, 1440)]);
}
