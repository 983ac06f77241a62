use ambilight::frame::{Rgb, RgbImage};
use ambilight::imageprocessing::LedMap;

fn grey(values: &[u8]) -> Vec<Rgb> {
    values.iter().map(|&x| Rgb([x; 3])).collect()
}

/// A 4 by 3 frame with rows 1 2 3 4 / 10 0 0 5 / 9 8 7 6.
fn small_frame() -> RgbImage {
    let buf: Vec<u8> = vec![
        vec![1; 3],
        vec![2; 3],
        vec![3; 3],
        vec![4; 3],
        vec![10; 3],
        vec![0; 3],
        vec![0; 3],
        vec![5; 3],
        vec![9; 3],
        vec![8; 3],
        vec![7; 3],
        vec![6; 3],
    ]
    .into_iter()
    .flatten()
    .collect();
    RgbImage::from_raw(4, 3, buf).unwrap()
}

#[test]
fn test_led_map() {
    let mut map = LedMap::init(4, 3, 4, Some(3), Some(4), false);
    let image = small_frame();
    let mapped = map.map_rows(&image);
    let target = [8, 9, 10, 1, 2, 3, 4]
        .iter()
        .map(|&x| Rgb([x; 3]))
        .collect::<Vec<Rgb>>();
    assert_eq!(mapped, target);
}

#[test]
fn map_pixels_reads_the_same_border_as_map_rows() {
    let mut map = LedMap::init(4, 3, 4, Some(3), Some(4), false);
    let image = small_frame();
    let by_pixels = map.map_pixels(&image);
    assert_eq!(by_pixels, grey(&[8, 9, 10, 1, 2, 3, 4]));
    let by_rows = map.map_rows(&image);
    assert_eq!(by_pixels, by_rows);
}

#[test]
fn map_rows_without_skip_or_start_walks_the_whole_border() {
    let mut map = LedMap::init(4, 3, 0, None, None, false);
    let mapped = map.map_rows(&small_frame());
    assert_eq!(mapped, grey(&[1, 2, 3, 4, 5, 6, 7, 8, 9, 10]));
}

#[test]
fn map_rows_reversed_runs_backwards() {
    let mut map = LedMap::init(4, 3, 0, None, None, true);
    let mapped = map.map_rows(&small_frame());
    assert_eq!(mapped, grey(&[10, 9, 8, 7, 6, 5, 4, 3, 2, 1]));
}

#[test]
fn map_pixels_of_a_single_column() {
    let buf: Vec<u8> = vec![vec![1; 3], vec![2; 3], vec![3; 3]].into_iter().flatten().collect();
    let image = RgbImage::from_raw(1, 3, buf).unwrap();
    let mut map = LedMap::init(1, 3, 1, None, None, false);
    assert_eq!(map.map_pixels(&image), grey(&[2, 3, 1]));
}

#[test]
fn map_scaled_reads_the_perimeter_with_corners_twice() {
    let mut map = LedMap::init(4, 3, 4, Some(3), Some(4), false);
    let image = small_frame();
    let mapped = map.map_scaled(&image);
    assert_eq!(mapped, grey(&[6, 7, 8, 9, 9, 10, 1, 1, 2, 3, 4]));
    // The slot cache does not change what is read.
    let again = map.map_scaled(&image);
    assert_eq!(again, mapped);
}

#[test]
fn map_scaled_without_skip_reads_every_position() {
    let mut map = LedMap::init(4, 3, 0, None, None, false);
    let mapped = map.map_scaled(&small_frame());
    assert_eq!(mapped, grey(&[1, 2, 3, 4, 4, 5, 6, 6, 7, 8, 9, 9, 10, 1]));
    let mut turned = LedMap::init(4, 3, 0, None, None, true);
    let mut backwards = turned.map_scaled(&small_frame());
    backwards.reverse();
    assert_eq!(backwards, mapped);
}

#[test]
fn map_scaled_skip_run_wraps_past_the_end() {
    // Positions 12, 13, 0 and 1 carry no LED.
    let mut map = LedMap::init(4, 3, 0, Some(4), Some(12), false);
    let mapped = map.map_scaled(&small_frame());
    assert_eq!(mapped, grey(&[3, 4, 4, 5, 6, 6, 7, 8, 9, 9]));
}

fn map_is_ready(image: &RgbImage) -> bool {
    LedMap::init(4, 3, 2, Some(2), Some(5), false).can_map_hash(image)
}

#[test]
fn map_hash_of_a_black_frame_is_black() {
    let image = RgbImage::from_raw(8, 6, vec![0; 8 * 6 * 3]).unwrap();
    assert!(map_is_ready(&image));
    let mut map = LedMap::init(4, 3, 2, Some(2), Some(5), false);
    let mapped = map.map_hash(&image);
    assert_eq!(mapped, vec![Rgb([0; 3]); 12]);
}

#[test]
fn map_hash_scales_before_reading() {
    // The first byte rows of the frame are white, the rest black: a scaled
    // frame mixes both, while the unscaled bytes would read pure white.
    let mut buf = vec![0u8; 8 * 6 * 3];
    for b in buf.iter_mut().take(36) {
        *b = 255;
    }
    let image = RgbImage::from_raw(8, 6, buf).unwrap();
    let mut map = LedMap::init(4, 3, 0, None, None, false);
    let mapped = map.map_hash(&image);
    assert_eq!(mapped.len(), 14);
    assert_ne!(mapped[0], Rgb([255; 3]));
    assert_ne!(mapped[7], Rgb([255; 3]));
}

#[test]
fn map_scaled_of_a_uniform_frame_lights_every_led_alike() {
    let image = RgbImage::from_raw(4, 3, [7u8, 80, 200].repeat(12)).unwrap();
    let mut map = LedMap::init(4, 3, 5, Some(2), Some(13), true);
    let mapped = map.map_scaled(&image);
    assert_eq!(mapped, vec![Rgb([7, 80, 200]); 12]);
}

#[test]
fn can_map_hash_refuses_an_empty_frame() {
    let map = LedMap::init(4, 3, 0, None, None, false);
    let empty = RgbImage::from_raw(0, 5, vec![]).unwrap();
    assert!(!map.can_map_hash(&empty));
    assert!(map.can_map_hash(&small_frame()));
}

#[test]
fn start_offset_rotates_the_hash_readout() {
    let mut at_zero = LedMap::init(4, 3, 0, Some(0), Some(0), false);
    let base = at_zero.map_scaled(&small_frame());
    for s in 0..14u32 {
        let mut shifted = LedMap::init(4, 3, s, Some(0), Some(0), false);
        let rotated = shifted.map_scaled(&small_frame());
        assert_eq!(rotated.len(), 14);
        for j in 0..14usize {
            assert_eq!(rotated[j], base[(j + s as usize) % 14]);
        }
    }
}

#[test]
fn hash_readout_has_one_colour_per_led() {
    for (start, skip, skip_offset) in [(0u32, 3u32, 4u32), (5, 6, 10), (13, 14, 3), (2, 0, 13)] {
        let mut map = LedMap::init(4, 3, start, Some(skip), Some(skip_offset), false);
        assert_eq!(map.map_scaled(&small_frame()).len(), (14 - skip) as usize);
    }
}
