use rust_paddle_ocr::ocr_lite::{assemble_text_blocks, rotation_plan, StripAction};
use rust_paddle_ocr::ocr_result::{Angle, Point, TextBox, TextLine};
use rust_paddle_ocr::ocr_utils::OcrUtils;

fn pt(x: i32, y: i32) -> Point {
    Point { x, y }
}

#[test]
fn crop_plan_of_tilted_box() {
    let b = vec![pt(13, 20), pt(43, 24), pt(41, 40), pt(11, 36)];
    let c = OcrUtils::get_rotate_crop_plan(&b);
    assert_eq!((c.left, c.top, c.crop_width, c.crop_height), (11, 20, 32, 20));
    assert_eq!(c.points, vec![pt(2, 0), pt(32, 4), pt(30, 20), pt(0, 16)]);
    assert_eq!(c.dst_width, 30); // sqrt(916) = 30.26
    assert_eq!(c.dst_height, 16); // sqrt(260) = 16.12
}

#[test]
fn tall_strips_are_turned() {
    assert!(OcrUtils::needs_rotation(10, 15));
    assert!(!OcrUtils::needs_rotation(10, 14));
    assert!(!OcrUtils::needs_rotation(1, 1));
    assert!(OcrUtils::needs_rotation(1, 2));
}

#[test]
fn rotation_plan_follows_angles() {
    let angles = vec![Angle { index: 0, score: 5 }, Angle { index: 1, score: 7 }];
    assert_eq!(
        rotation_plan(&angles, true),
        vec![
            StripAction { rotate: false, keep_original: false },
            StripAction { rotate: true, keep_original: true }
        ]
    );
    assert_eq!(rotation_plan(&angles, false)[1], StripAction { rotate: true, keep_original: false });
}

#[test]
fn blocks_are_unpadded() {
    let boxes = vec![TextBox { points: vec![pt(60, 55), pt(90, 55), pt(90, 70), pt(60, 70)], score: 900 }];
    let angles = vec![Angle { index: 1, score: 800 }];
    let lines = vec![TextLine { text: "hi".to_string(), text_score: Some(700) }];
    let r = assemble_text_blocks(&boxes, &angles, &lines, 50);
    assert_eq!(r.text_blocks.len(), 1);
    let b = &r.text_blocks[0];
    assert_eq!(b.box_points, vec![pt(10, 5), pt(40, 5), pt(40, 20), pt(10, 20)]);
    assert_eq!((b.box_score, b.angle_index, b.angle_score), (900, 1, 800));
    assert_eq!(b.text, "hi");
    assert_eq!(b.text_score, Some(700));
}
