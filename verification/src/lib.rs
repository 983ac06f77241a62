//! Ambient-light pipeline: reads the border of a captured frame and turns it
//! into the colours of an LED strip mounted around the screen.

pub mod frame;
pub mod imageprocessing;
