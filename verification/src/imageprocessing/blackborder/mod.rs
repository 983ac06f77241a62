//! Finding and cutting away the uniform bars around the picture.

pub mod bounding_box;

use crate::frame::RgbImage;
use crate::imageprocessing::blackborder::bounding_box::{bounding_box, content_bounds};
use vstd::prelude::*;

verus! {

/// A rectangle of a frame: top-left corner `(x, y)` and its size.
#[derive(Debug, Clone, Copy, PartialEq, Eq, Structural)]
pub struct Bounds {
    pub x: u32,
    pub y: u32,
    pub width: u32,
    pub height: u32,
}

/// Every how many frames the picture's bounds are searched again.
pub const BOUNDS_REFRESH_PERIOD: u32 = 500;

/// The bounds to crop frame number `frame_count` with: on every
/// `BOUNDS_REFRESH_PERIOD`-th frame, the bounds of the picture in `img` when
/// it has any; otherwise the `current` ones. The flag tells whether this
/// frame was searched and held no picture.
pub fn refresh_bounds(frame_count: u32, current: Bounds, img: &RgbImage) -> (res: (Bounds, bool))
    requires
        frame_count % BOUNDS_REFRESH_PERIOD != 0 || (img.width() > 0 && img.height() > 0),
    ensures
        res.0 == (if frame_count % BOUNDS_REFRESH_PERIOD == 0 {
            match content_bounds(*img) {
                Some(b) => b,
                None => current,
            }
        } else {
            current
        }),
        res.1 == (frame_count % BOUNDS_REFRESH_PERIOD == 0 && content_bounds(*img) is None),
{
    if frame_count % BOUNDS_REFRESH_PERIOD == 0 {
        match bounding_box(img) {
            Some(b) => (b, false),
            None => (current, true),
        }
    } else {
        (current, false)
    }
}

} // verus!
