//! Geometric and sequence-decoding core of a three-stage text recognition
//! pipeline (detector heatmap → oriented boxes → rectified strips →
//! orientation votes → greedy sequence decoding).
//!
//! Probabilities and scores are fixed-point integers: a value `p` in
//! `[0, 1]` is held as `p * SCORE_ONE`, rounded.
pub mod ocr_result;
pub mod scale_param;
pub mod geometry;
pub mod imaging;
pub mod db_net;
pub mod angle_net;
pub mod crnn_net;
pub mod ocr_utils;
pub mod ocr_lite;
