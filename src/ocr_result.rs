use vstd::prelude::*;

verus! {

/// Fixed-point unit of every probability and score in this crate.
pub const SCORE_ONE: u32 = 1000000;

/// An integer point in one coordinate space (network, heatmap or image).
#[derive(Clone, Copy, Debug, PartialEq, Eq, Structural)]
pub struct Point {
    pub x: i32,
    pub y: i32,
}

/// An oriented text box: four corners in canonical order and its mean
/// heatmap score.
#[derive(Clone, Debug)]
pub struct TextBox {
    pub points: Vec<Point>,
    pub score: u32,
}

/// Orientation of one region: `index` 1 means rotated by 180 degrees.
#[derive(Clone, Copy, Debug, PartialEq, Eq, Structural)]
pub struct Angle {
    pub index: i32,
    pub score: u32,
}

/// Decoded text of one region. `text_score` is the mean peak probability of
/// the emitted characters, and `None` where no character was emitted.
#[derive(Clone, Debug)]
pub struct TextLine {
    pub text: String,
    pub text_score: Option<u32>,
}

/// One located, oriented and transcribed region, in source-image space.
#[derive(Clone, Debug)]
pub struct TextBlock {
    pub box_points: Vec<Point>,
    pub box_score: u32,
    pub angle_index: i32,
    pub angle_score: u32,
    pub text: String,
    pub text_score: Option<u32>,
}

/// All regions of one image.
#[derive(Clone, Debug)]
pub struct OcrResult {
    pub text_blocks: Vec<TextBlock>,
}

impl Angle {
    /// The orientation given to a region when classification is skipped.
    pub fn new() -> (r: Angle)
        ensures
            r.index == 0,
            r.score == 0,
    {
        Angle { index: 0, score: 0 }
    }
}

} // verus!
