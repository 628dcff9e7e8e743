//! Maximal empty areas of a rectangular container holding placed rectangles.

pub mod line;
pub mod rect;
pub mod mea;
pub mod placed_rects;
