use geo_clipper::{Clipper, EndType, JoinType};
use geo_types::{Coord, LineString, Polygon};
use rust_paddle_ocr::db_net::{
    binarize, crop_grid, dilate, find_box_candidates, finish_text_box,
    finish_text_boxes, get_score, BoxCandidate,
};
use rust_paddle_ocr::ocr_result::Point;
use rust_paddle_ocr::ocr_utils::OcrUtils;
use rust_paddle_ocr::scale_param::ScaleParam;

fn pt(x: i32, y: i32) -> Point {
    Point { x, y }
}

/// Inflates a box by `distance_milli / 1000` pixels with rounded joins.
fn offset(b: &[Point], distance_milli: u128) -> Vec<Point> {
    let coords: Vec<Coord<f64>> = b.iter().map(|p| Coord { x: p.x as f64, y: p.y as f64 }).collect();
    let poly = Polygon::new(LineString::new(coords), vec![]);
    let solution = poly.offset(distance_milli as f64 / 1000.0, JoinType::Round(2.0), EndType::ClosedPolygon, 1.0);
    match solution.0.first() {
        Some(p) => p.exterior().points().map(|c| Point { x: c.x() as i32, y: c.y() as i32 }).collect(),
        None => Vec::new(),
    }
}

#[test]
fn binarize_at_threshold() {
    assert_eq!(binarize(&vec![0, 5, 10, 4], 5), vec![0, 255, 255, 0]);
}

#[test]
fn dilate_grows_right_and_down() {
    assert_eq!(dilate(&vec![255, 0, 0, 0], 2), vec![255, 255, 255, 255]);
    assert_eq!(dilate(&vec![0, 0, 0, 255], 2), vec![0, 0, 0, 255]);
    // 3 columns: a pixel at the end of row 0 does not reach the start of row 1
    assert_eq!(dilate(&vec![0, 0, 255, 0, 0, 0], 3), vec![0, 0, 255, 0, 0, 255]);
}

#[test]
fn mean_with_mask() {
    assert_eq!(OcrUtils::calculate_mean_with_mask(&vec![10, 20, 30, 40], &vec![1, 0, 1, 0]), 20);
    assert_eq!(OcrUtils::calculate_mean_with_mask(&vec![10, 20], &vec![0, 0]), 0);
}

#[test]
fn crop_window() {
    let g: Vec<u32> = (0..12).collect();
    // 3 rows x 4 cols, window at (1, 1) of 2 x 2
    assert_eq!(crop_grid(&g, 3, 4, 1, 1, 2, 2), vec![5, 6, 9, 10]);
}

#[test]
fn score_counts_only_the_polygon() {
    // a triangle over a 5 x 5 heatmap; the far corner lies outside it
    let mut pred = vec![100u32; 25];
    pred[24] = 1_000_000;
    let contour = vec![pt(0, 0), pt(4, 0), pt(0, 4)];
    assert_eq!(get_score(&contour, &pred, 5, 5), 100);
}

#[test]
fn score_of_a_single_point_contour_is_its_cell() {
    assert_eq!(get_score(&vec![pt(0, 0), pt(0, 0), pt(0, 0)], &vec![5], 1, 1), 5);
    let mut pred = vec![1u32; 12];
    pred[2 * 4 + 3] = 77;
    assert_eq!(get_score(&vec![pt(3, 2), pt(3, 2), pt(3, 2)], &pred, 3, 4), 77);
}

#[test]
fn score_of_uniform_polygon_is_the_value() {
    // a filled polygon whose cells all hold 640 scores 640, whatever lies outside
    let mut pred = vec![640u32; 36];
    pred[5] = 9;
    pred[30] = 9;
    let contour = vec![pt(1, 1), pt(4, 1), pt(4, 4), pt(1, 4)];
    assert_eq!(get_score(&contour, &pred, 6, 6), 640);
}

fn rectangle_heatmap(rows: usize, cols: usize, x0: usize, x1: usize, y0: usize, y1: usize, v: u32) -> Vec<u32> {
    let mut pred = vec![0u32; rows * cols];
    for y in y0..=y1 {
        for x in x0..=x1 {
            pred[y * cols + x] = v;
        }
    }
    pred
}

#[test]
fn one_rectangle_gives_one_candidate() {
    let pred = rectangle_heatmap(40, 60, 10, 49, 10, 29, 800_000);
    let cands = find_box_candidates(&pred, 40, 60, 500_000, 300_000, 1_600_000);
    assert_eq!(cands.len(), 1);
    let c = &cands[0];
    // the dilated region spans x 10..=50 and y 10..=30
    assert_eq!(c.min_box, vec![pt(10, 10), pt(50, 10), pt(50, 30), pt(10, 30)]);
    // 800 of the 41 x 21 filled pixels carry the value
    assert_eq!(c.score, 800 * 800_000 / 861);
    assert_eq!(c.distance, 10_666);
}

#[test]
fn weak_region_is_dropped() {
    let pred = rectangle_heatmap(40, 60, 10, 49, 10, 29, 400_000);
    assert!(find_box_candidates(&pred, 40, 60, 500_000, 300_000, 1_600_000).is_empty());
}

#[test]
fn thin_region_is_dropped() {
    // one pixel high: its dilated box is 2 px high, under the 3 px minimum
    let pred = rectangle_heatmap(20, 30, 5, 20, 8, 8, 900_000);
    assert!(find_box_candidates(&pred, 20, 30, 500_000, 300_000, 1_600_000).is_empty());
}

#[test]
fn empty_heatmap_gives_nothing() {
    let pred = vec![0u32; 32 * 32];
    assert!(find_box_candidates(&pred, 32, 32, 500_000, 300_000, 1_600_000).is_empty());
}

#[test]
fn end_to_end_single_rectangle() {
    // heatmap and source of the same size
    let s = ScaleParam::new(64, 64, 64, 64);
    let pred = rectangle_heatmap(64, 64, 16, 47, 24, 39, 700_000);
    let cands = find_box_candidates(&pred, 64, 64, 500_000, 300_000, 1_500_000);
    assert_eq!(cands.len(), 1);
    let offsets: Vec<Vec<Point>> = cands.iter().map(|c| offset(&c.min_box, c.distance)).collect();
    let boxes = finish_text_boxes(&cands, &offsets, &s);
    assert_eq!(boxes.len(), 1);
    let b = &boxes[0];
    assert_eq!(b.score, cands[0].score);
    // the inflated box encloses the rectangle, by about the offset distance
    let d = (cands[0].distance / 1000) as i32 + 2;
    let corners = [pt(16, 24), pt(48, 24), pt(48, 40), pt(16, 40)];
    for (p, c) in b.points.iter().zip(corners.iter()) {
        assert!((p.x - c.x).abs() <= d && (p.y - c.y).abs() <= d, "{:?} vs {:?}", p, c);
    }
    assert!(b.points[0].x <= 16 && b.points[0].y <= 24 && b.points[2].x >= 48 && b.points[2].y >= 40);
}

#[test]
fn boxes_come_out_in_reverse_order() {
    let s = ScaleParam::new(100, 100, 100, 100);
    let mk = |x: i32, score: u32| BoxCandidate {
        min_box: vec![pt(x, 10), pt(x + 20, 10), pt(x + 20, 30), pt(x, 30)],
        score,
        distance: 0,
    };
    let cands = vec![mk(5, 1), mk(40, 2), mk(70, 3)];
    let offsets: Vec<Vec<Point>> = cands.iter().map(|c| c.min_box.clone()).collect();
    let boxes = finish_text_boxes(&cands, &offsets, &s);
    let scores: Vec<u32> = boxes.iter().map(|b| b.score).collect();
    assert_eq!(scores, vec![3, 2, 1]);
}

#[test]
fn finish_maps_to_source_space() {
    // heatmap at half the source size
    let s = ScaleParam::new(200, 100, 100, 50);
    let poly = vec![pt(10, 10), pt(30, 10), pt(30, 20), pt(10, 20)];
    let t = finish_text_box(42, &poly, &s).unwrap();
    assert_eq!(t.points, vec![pt(20, 20), pt(60, 20), pt(60, 40), pt(20, 40)]);
    assert_eq!(t.score, 42);
}

#[test]
fn finish_rejects_small_or_empty_polygons() {
    let s = ScaleParam::new(100, 100, 100, 100);
    assert!(finish_text_box(1, &vec![], &s).is_none());
    let small = vec![pt(10, 10), pt(30, 10), pt(30, 14), pt(10, 14)];
    assert!(finish_text_box(1, &small, &s).is_none());
    let far = vec![pt(0, 0), pt(9000, 0), pt(9000, 50), pt(0, 50)];
    assert!(finish_text_box(1, &far, &s).is_none());
}

#[test]
fn offset_of_square_grows_by_the_distance() {
    // a 10 x 10 square at ratio 1.0: distance = 100 / 40 = 2.5 px
    let sq = vec![pt(0, 0), pt(10, 0), pt(10, 10), pt(0, 10)];
    let d = rust_paddle_ocr::db_net::unclip_distance(&sq, 1_000_000).unwrap();
    assert_eq!(d, 2_500);
    let coords: Vec<Coord<f64>> = sq.iter().map(|p| Coord { x: p.x as f64, y: p.y as f64 }).collect();
    let out = Polygon::new(LineString::new(coords), vec![]).offset(
        d as f64 / 1000.0,
        JoinType::Round(2.0),
        EndType::ClosedPolygon,
        1.0,
    );
    let ext = out.0[0].exterior();
    let xs: Vec<f64> = ext.points().map(|p| p.x()).collect();
    let side = xs.iter().cloned().fold(f64::MIN, f64::max) - xs.iter().cloned().fold(f64::MAX, f64::min);
    assert!((side - 15.0).abs() <= 1.0, "side {}", side);
}
