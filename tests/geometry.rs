use rust_paddle_ocr::db_net::{get_mini_box, unclip_distance};
use rust_paddle_ocr::geometry::{dedup, isqrt, length_of_points, order_box_points, signed_polygon_area};
use rust_paddle_ocr::ocr_result::Point;
use rust_paddle_ocr::scale_param::{detect_resize, ScaleParam};

fn pt(x: i32, y: i32) -> Point {
    Point { x, y }
}

#[test]
fn scale_param_landscape() {
    let s = ScaleParam::get_scale_param(1000, 500, 1024);
    assert_eq!((s.src_width, s.src_height, s.dst_width, s.dst_height), (1000, 500, 1024, 512));
}

#[test]
fn scale_param_takes_largest_stride_multiple() {
    // 250 -> 224, 100 * 250 / 300 = 83 -> 64
    let s = ScaleParam::get_scale_param(100, 300, 250);
    assert_eq!((s.dst_width(), s.dst_height()), (64, 224));
}

#[test]
fn scale_param_floors_at_one_stride() {
    let s = ScaleParam::get_scale_param(1000, 10, 640);
    assert_eq!((s.dst_width, s.dst_height), (640, 32));
}

#[test]
fn scale_param_sides_are_stride_multiples() {
    for &(w, h, size) in &[(1, 1, 1), (37, 1999, 777), (4000, 3000, 1124), (33, 33, 33), (640, 480, 960)] {
        let s = ScaleParam::get_scale_param(w, h, size);
        assert!(s.dst_width >= 32 && s.dst_width % 32 == 0);
        assert!(s.dst_height >= 32 && s.dst_height % 32 == 0);
    }
}

#[test]
fn scale_param_maps_back_with_rounding_and_clamping() {
    let s = ScaleParam::new(1000, 500, 1024, 512);
    assert_eq!(s.to_src_x(512), 500);
    assert_eq!(s.to_src_x(3), 3); // 2.93 rounds to 3
    assert_eq!(s.to_src_x(-4), 0);
    assert_eq!(s.to_src_x(5000), 1000);
    assert_eq!(s.to_src_y(511), 499);
}

#[test]
fn detect_resize_cases() {
    assert_eq!(detect_resize(800, 600, 1024, 50), 900);
    assert_eq!(detect_resize(800, 600, 500, 50), 600);
    assert_eq!(detect_resize(600, 800, 0, 10), 820);
}

#[test]
fn isqrt_values() {
    assert_eq!(isqrt(0), 0);
    assert_eq!(isqrt(15), 3);
    assert_eq!(isqrt(16), 4);
    assert_eq!(isqrt(1_000_000_000_000), 1_000_000);
}

#[test]
fn square_area_and_perimeter() {
    let sq = vec![pt(0, 0), pt(10, 0), pt(10, 10), pt(0, 10)];
    assert_eq!(signed_polygon_area(&sq), -200);
    assert_eq!(length_of_points(&sq), 40_000);
    let tri = vec![pt(0, 0), pt(3, 0), pt(0, 4)];
    assert_eq!(length_of_points(&tri), 12_000);
}

#[test]
fn canonical_order_axis_aligned_square() {
    let expected = vec![pt(0, 0), pt(10, 0), pt(10, 10), pt(0, 10)];
    let inputs = [
        vec![pt(10, 10), pt(0, 0), pt(0, 10), pt(10, 0)],
        vec![pt(0, 0), pt(10, 0), pt(10, 10), pt(0, 10)],
        // the same square turned by 90 degrees: corners listed from another start
        vec![pt(0, 10), pt(0, 0), pt(10, 0), pt(10, 10)],
    ];
    for input in inputs.iter() {
        assert_eq!(order_box_points(input), expected);
    }
}

#[test]
fn canonical_order_diamond() {
    // a square turned by 45 or 135 degrees
    let expected = vec![pt(5, 0), pt(10, 5), pt(5, 10), pt(0, 5)];
    let inputs = [
        vec![pt(5, 0), pt(10, 5), pt(5, 10), pt(0, 5)],
        vec![pt(0, 5), pt(5, 0), pt(10, 5), pt(5, 10)],
    ];
    for input in inputs.iter() {
        assert_eq!(order_box_points(input), expected);
    }
    // listed the other way round, the two corners of equal x sort in input
    // order, which decides which of them joins the left pair
    let r = order_box_points(&vec![pt(10, 5), pt(5, 10), pt(0, 5), pt(5, 0)]);
    assert_eq!(r, vec![pt(0, 5), pt(5, 0), pt(10, 5), pt(5, 10)]);
}

#[test]
fn canonical_order_slots() {
    let r = order_box_points(&vec![pt(7, 1), pt(2, 9), pt(9, 8), pt(1, 2)]);
    assert!(r[0].x <= r[1].x && r[0].x <= r[2].x && r[3].x <= r[1].x && r[3].x <= r[2].x);
    assert!(r[0].y <= r[3].y && r[1].y <= r[2].y);
    assert_eq!(r, vec![pt(1, 2), pt(7, 1), pt(9, 8), pt(2, 9)]);
}

#[test]
fn dedup_keeps_first_occurrences() {
    let v = vec![pt(1, 1), pt(2, 2), pt(1, 1), pt(3, 3), pt(2, 2)];
    assert_eq!(dedup(&v), vec![pt(1, 1), pt(2, 2), pt(3, 3)]);
}

#[test]
fn mini_box_of_rectangle_contour() {
    let contour = vec![pt(2, 3), pt(7, 3), pt(12, 3), pt(12, 8), pt(7, 8), pt(2, 8), pt(2, 3)];
    let (b, short2) = get_mini_box(&contour);
    assert_eq!(b, vec![pt(2, 3), pt(12, 3), pt(12, 8), pt(2, 8)]);
    assert_eq!(short2, 25);
}

#[test]
fn mini_box_of_triangle_is_not_the_input() {
    let contour = vec![pt(0, 0), pt(8, 0), pt(0, 6)];
    let (b, _) = get_mini_box(&contour);
    assert_eq!(b.len(), 4);
    assert_ne!(b[..3].to_vec(), contour);
}

#[test]
fn unclip_distance_of_rectangle() {
    // 40 x 20: area 800, perimeter 120, ratio 1.6 -> 10.666 px
    let b = vec![pt(10, 10), pt(50, 10), pt(50, 30), pt(10, 30)];
    assert_eq!(unclip_distance(&b, 1_600_000), Some(10_666));
}

#[test]
fn unclip_distance_of_square_is_a_quarter_side_times_ratio() {
    let sq = vec![pt(3, 4), pt(13, 4), pt(13, 14), pt(3, 14)];
    assert_eq!(unclip_distance(&sq, 1_600_000), Some(4_000));
    let big = vec![pt(0, 0), pt(37, 0), pt(37, 37), pt(0, 37)];
    assert_eq!(unclip_distance(&big, 1_500_000), Some(37 * 1_500_000 / 4000));
}

#[test]
fn unclip_distance_rejects_degenerate_box() {
    let unit = vec![pt(0, 0), pt(1, 0), pt(1, 1), pt(0, 1)];
    assert_eq!(unclip_distance(&unit, 1_600_000), None);
    let point = vec![pt(4, 4), pt(4, 4), pt(4, 4), pt(4, 4)];
    assert_eq!(unclip_distance(&point, 2_000_000), None);
}
