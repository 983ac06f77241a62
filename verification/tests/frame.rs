use ambilight::frame::{Rgb, RgbImage};

#[test]
fn from_raw_reads_row_major_pixels() {
    let buf: Vec<u8> = (0..18).collect();
    let image = RgbImage::from_raw(3, 2, buf).unwrap();
    assert_eq!(image.get_pixel(0, 0), Rgb([0, 1, 2]));
    assert_eq!(image.get_pixel(2, 0), Rgb([6, 7, 8]));
    assert_eq!(image.get_pixel(1, 1), Rgb([12, 13, 14]));
}

#[test]
fn from_raw_refuses_a_short_buffer_and_ignores_extra_bytes() {
    assert!(RgbImage::from_raw(3, 2, vec![0; 17]).is_none());
    let image = RgbImage::from_raw(3, 2, vec![9; 20]).unwrap();
    assert_eq!(image.to_raw(), vec![9; 18]);
    assert!(RgbImage::from_raw(u32::MAX, u32::MAX, vec![]).is_none());
    assert!(RgbImage::from_raw(0, 5, vec![]).is_some());
}

#[test]
fn raw_bytes_round_trip() {
    let buf: Vec<u8> = (0..36).map(|b| (b * 7) as u8).collect();
    let image = RgbImage::from_raw(4, 3, buf.clone()).unwrap();
    let back = RgbImage::from_raw(4, 3, image.to_raw()).unwrap();
    assert_eq!(back.to_raw(), buf);
}

#[test]
fn sub_image_copies_a_block() {
    let buf: Vec<u8> = (0..36).collect();
    let image = RgbImage::from_raw(4, 3, buf).unwrap();
    let sub = image.sub_image(1, 1, 2, 2);
    assert_eq!((sub.width(), sub.height()), (2, 2));
    assert_eq!(sub.get_pixel(0, 0), image.get_pixel(1, 1));
    assert_eq!(sub.get_pixel(1, 1), image.get_pixel(2, 2));
}
