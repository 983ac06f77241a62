use ambilight::frame::{Rgb, RgbImage};
use ambilight::imageprocessing::blackborder::bounding_box::{bounding_box, fuzzy_match, trim};
use ambilight::imageprocessing::blackborder::{refresh_bounds, Bounds};

fn image_from_fn(width: u32, height: u32, f: impl Fn(u32, u32) -> Rgb) -> RgbImage {
    let mut buf = Vec::new();
    for y in 0..height {
        for x in 0..width {
            buf.extend_from_slice(&f(x, y).0);
        }
    }
    RgbImage::from_raw(width, height, buf).unwrap()
}

// 0 -- black
// 1 -- gray
// 2- white
// 3 -- gray
// 4 --black
fn banded_frame() -> RgbImage {
    image_from_fn(200, 150, |x, y| match (y / 30) as i32 {
        0 | 4 => {
            let range = 10..21;
            if range.contains(&x) && range.contains(&y) {
                Rgb([10; 3])
            } else {
                Rgb([0; 3])
            }
        }
        1 | 3 => Rgb([6; 3]),
        _ => Rgb([255; 3]),
    })
}

#[test]
fn blackborder_trim() {
    let image = banded_frame();
    let bounds = bounding_box(&image).unwrap();
    assert_eq!(bounds, Bounds { x: 0, y: 10, width: 200, height: 110 });
    let trimmed = trim(image, &bounds);
    assert_eq!((trimmed.width(), trimmed.height()), (200, 110));
    assert_eq!(trimmed.get_pixel(15, 5), Rgb([10; 3]));
    assert_eq!(trimmed.get_pixel(0, 60), Rgb([255; 3]));
}

#[test]
fn uniform_frame_has_no_picture() {
    let image = image_from_fn(7, 5, |_, _| Rgb([40, 50, 60]));
    assert_eq!(bounding_box(&image), None);
}

#[test]
fn letterboxed_frame() {
    // Black bars above and below rows 2..=5 of a 6 by 8 frame.
    let image = image_from_fn(6, 8, |_, y| if (2..6).contains(&y) { Rgb([200, 10, 10]) } else { Rgb([0; 3]) });
    assert_eq!(bounding_box(&image), Some(Bounds { x: 0, y: 2, width: 6, height: 4 }));
}

#[test]
fn a_pixel_between_black_and_a_near_black_one_counts_as_black() {
    // (5, 0, 0) is within the tolerance of black; (3, 0, 0) lies between them.
    let image = image_from_fn(4, 4, |x, y| match (x, y) {
        (1, 1) => Rgb([5, 0, 0]),
        (2, 2) => Rgb([3, 0, 0]),
        _ => Rgb([0; 3]),
    });
    assert_eq!(bounding_box(&image), None);
}

#[test]
fn near_black_counts_as_black() {
    // A distance of 5 in one channel is within the tolerance, 9 is not.
    let faint = image_from_fn(4, 4, |x, y| if x == 2 && y == 2 { Rgb([5, 0, 0]) } else { Rgb([0; 3]) });
    assert_eq!(bounding_box(&faint), None);
    let visible = image_from_fn(4, 4, |x, y| if x == 2 && y == 2 { Rgb([9, 0, 0]) } else { Rgb([0; 3]) });
    assert_eq!(bounding_box(&visible), Some(Bounds { x: 2, y: 2, width: 1, height: 1 }));
}

#[test]
fn channel_differences_wrap_round() {
    // 0 - 1 wraps to 255 on a u8 channel, far beyond the tolerance.
    let image = image_from_fn(3, 3, |x, y| if x == 1 && y == 1 { Rgb([0; 3]) } else { Rgb([1, 1, 1]) });
    assert_eq!(bounding_box(&image), Some(Bounds { x: 1, y: 1, width: 1, height: 1 }));
}

#[test]
fn trim_clamps_to_the_frame() {
    let image = image_from_fn(5, 4, |x, y| Rgb([x as u8, y as u8, 0]));
    let out = trim(image, &Bounds { x: 3, y: 1, width: 10, height: 2 });
    assert_eq!((out.width(), out.height()), (2, 2));
    assert_eq!(out.get_pixel(0, 0), Rgb([3, 1, 0]));
    assert_eq!(out.get_pixel(1, 1), Rgb([4, 2, 0]));
    let image = image_from_fn(5, 4, |x, y| Rgb([x as u8, y as u8, 0]));
    let out = trim(image, &Bounds { x: 9, y: 9, width: 1, height: 1 });
    assert_eq!((out.width(), out.height()), (0, 0));
}

#[test]
fn trim_to_the_whole_frame_keeps_it() {
    let image = image_from_fn(5, 4, |x, y| Rgb([x as u8, y as u8, 7]));
    let out = trim(image, &Bounds { x: 0, y: 0, width: 5, height: 4 });
    let again = image_from_fn(5, 4, |x, y| Rgb([x as u8, y as u8, 7]));
    assert_eq!(out.to_raw(), again.to_raw());
}

#[test]
fn bounds_are_refreshed_every_refresh_period() {
    let image = banded_frame();
    let old = Bounds { x: 1, y: 2, width: 3, height: 4 };
    let found = Bounds { x: 0, y: 10, width: 200, height: 110 };
    assert_eq!(refresh_bounds(0, old, &image), (found, false));
    assert_eq!(refresh_bounds(1000, old, &image), (found, false));
    assert_eq!(refresh_bounds(499, old, &image), (old, false));
    let uniform = image_from_fn(3, 3, |_, _| Rgb([0; 3]));
    assert_eq!(refresh_bounds(500, old, &uniform), (old, true));
    assert_eq!(refresh_bounds(501, old, &uniform), (old, false));
}

#[test]
fn fuzzy_match_between_a_match_and_the_reference() {
    let black = Rgb([0; 3]);
    let near = Rgb([4, 3, 5]);
    assert!(fuzzy_match(&near, &black));
    assert!(fuzzy_match(&Rgb([2, 3, 1]), &black));
    assert!(fuzzy_match(&Rgb([5, 5, 5]), &black));
    assert!(!fuzzy_match(&Rgb([5, 5, 6]), &black));
}

#[test]
fn trimming_to_the_found_bounds_keeps_the_picture_and_no_bar() {
    let image = banded_frame();
    let bounds = bounding_box(&image).unwrap();
    let black = Rgb([0; 3]);
    // Every pixel unlike the bars lies inside the bounds.
    for y in 0..150 {
        for x in 0..200 {
            if !fuzzy_match(&image.get_pixel(x, y), &black) {
                assert!(bounds.x <= x && x < bounds.x + bounds.width);
                assert!(bounds.y <= y && y < bounds.y + bounds.height);
            }
        }
    }
    let t = trim(image, &bounds);
    assert_eq!((t.width(), t.height()), (bounds.width, bounds.height));
    let w = t.width();
    let h = t.height();
    assert!((0..h).any(|y| !fuzzy_match(&t.get_pixel(0, y), &black)));
    assert!((0..h).any(|y| !fuzzy_match(&t.get_pixel(w - 1, y), &black)));
    assert!((0..w).any(|x| !fuzzy_match(&t.get_pixel(x, 0), &black)));
    assert!((0..w).any(|x| !fuzzy_match(&t.get_pixel(x, h - 1), &black)));
}
