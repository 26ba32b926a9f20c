//! Detector post-processing: from a probability heatmap to oriented text
//! boxes in source-image coordinates.
//!
//! The work is split in two around the polygon offset ("unclip"), which is
//! floating-point work done by the caller: `find_box_candidates` yields, for
//! every accepted contour, its minimal box, score and offset distance; the
//! caller inflates each box by its distance; `finish_text_boxes` fits and
//! maps the inflated polygons.
use vstd::prelude::*;
use crate::geometry::{
    is_isqrt, lemma_canonical_order, lemma_isqrt_unique, perimeter_milli_prefix, side_milli, sqrt_floor,
    signed_area2_edges, canonical_order, dedup, dedup_points, dist2, dist2_exec, length_of_points, order_box_points,
    perimeter_milli, point_bounded, points_bounded, signed_area2, signed_polygon_area, COORD_LIMIT,
};
use crate::imaging::{
    contours_of, find_contours, in_grid, min_area_rect, min_rect_of, polygon_mask,
    polygon_mask_of,
};
use crate::ocr_result::{Point, TextBox, SCORE_ONE};
use crate::ocr_utils::{
    lemma_masked_mean_between, lemma_masked_mean_bounded, lemma_masked_mean_range, masked_mean, masked_within,
    OcrUtils,
};
use crate::scale_param::{map_back, ScaleParam};

verus! {

/// Minimal box side (in pixels) below which a contour is dropped.
pub const MIN_SIDE: u128 = 3;

/// Extra side length that an inflated box must have beyond `MIN_SIDE`.
pub const MIN_SIDE_MARGIN: u128 = 2;

// ---------------------------------------------------------------------------
// Binarization and dilation

pub open spec fn binarize_spec(pred: Seq<u32>, thresh: u32) -> Seq<u8> {
    Seq::new(pred.len(), |i: int| if pred[i] >= thresh { 255u8 } else { 0u8 })
}

/// Each pixel to 255 where the probability reaches `thresh`, else 0.
pub fn binarize(pred: &Vec<u32>, thresh: u32) -> (r: Vec<u8>)
    ensures
        r@ == binarize_spec(pred@, thresh),
{
    let mut r: Vec<u8> = Vec::new();
    let mut i: usize = 0;
    while i < pred.len()
        invariant
            0 <= i <= pred@.len(),
            r@.len() == i,
            forall|k: int| 0 <= k < i ==> r@[k] == binarize_spec(pred@, thresh)[k],
        decreases pred@.len() - i,
    {
        r.push(if pred[i] >= thresh { 255u8 } else { 0u8 });
        i = i + 1;
    }
    assert(r@ =~= binarize_spec(pred@, thresh));
    r
}

pub open spec fn max_u8(a: u8, b: u8) -> u8 {
    if a >= b { a } else { b }
}

/// Value of pixel `k` of a row-major mask with `cols` columns after dilation
/// by a 2 x 2 square anchored at its lower-right cell: the maximum over the
/// pixel, its left, upper and upper-left neighbours (those on the image).
pub open spec fn dilate_px(m: Seq<u8>, cols: int, k: int) -> u8 {
    let has_left = k % cols > 0;
    let has_up = k >= cols;
    let left = if has_left { m[k - 1] } else { 0u8 };
    let up = if has_up { m[k - cols] } else { 0u8 };
    let up_left = if has_left && has_up { m[k - cols - 1] } else { 0u8 };
    max_u8(max_u8(m[k], left), max_u8(up, up_left))
}

pub open spec fn dilate_spec(m: Seq<u8>, cols: int) -> Seq<u8> {
    Seq::new(m.len(), |k: int| dilate_px(m, cols, k))
}

fn max_u8_exec(a: u8, b: u8) -> (r: u8)
    ensures
        r == max_u8(a, b),
{
    if a >= b { a } else { b }
}

/// Dilation of a row-major mask with `cols` columns by a 2 x 2 square.
pub fn dilate(m: &Vec<u8>, cols: usize) -> (r: Vec<u8>)
    requires
        cols > 0,
    ensures
        r@ == dilate_spec(m@, cols as int),
{
    let mut r: Vec<u8> = Vec::new();
    let mut k: usize = 0;
    while k < m.len()
        invariant
            cols > 0,
            0 <= k <= m@.len(),
            r@.len() == k,
            forall|q: int| 0 <= q < k ==> r@[q] == dilate_px(m@, cols as int, q),
        decreases m@.len() - k,
    {
        let has_left = k % cols > 0;
        let has_up = k >= cols;
        assert(has_left ==> k >= 1) by (nonlinear_arith)
            requires has_left == (k % cols > 0), cols > 0;
        assert(has_left && has_up ==> k >= cols + 1) by (nonlinear_arith)
            requires has_left == (k % cols > 0), has_up == (k >= cols), cols > 0;
        let left = if has_left { m[k - 1] } else { 0u8 };
        let up = if has_up { m[k - cols] } else { 0u8 };
        let up_left = if has_left && has_up { m[k - cols - 1] } else { 0u8 };
        r.push(max_u8_exec(max_u8_exec(m[k], left), max_u8_exec(up, up_left)));
        k = k + 1;
    }
    assert(r@ =~= dilate_spec(m@, cols as int));
    r
}

// ---------------------------------------------------------------------------
// Minimal box

/// Canonically ordered least-area rectangle of a point set.
pub open spec fn mini_box_spec(contour: Seq<Point>) -> Seq<Point> {
    canonical_order(min_rect_of(dedup_points(contour)))
}

/// Squared length of the shorter side of a box in canonical order (sides
/// 0-1 and 0-3).
pub open spec fn short_side2(b: Seq<Point>) -> int {
    let w = dist2(b[0], b[1]);
    let h = dist2(b[0], b[3]);
    if w <= h { w } else { h }
}

/// The least-area rectangle enclosing `contour`, corners in canonical order,
/// with the square of its shorter side.
pub fn get_mini_box(contour: &Vec<Point>) -> (r: (Vec<Point>, u128))
    requires
        contour@.len() > 0,
        points_bounded(contour@),
    ensures
        r.0@ == mini_box_spec(contour@),
        r.0@.len() == 4,
        r.1 == short_side2(r.0@),
        r.0@.to_multiset() == min_rect_of(dedup_points(contour@)).to_multiset(),
        ({
            let b = r.0@;
            &&& b[0].x <= b[1].x && b[0].x <= b[2].x
            &&& b[3].x <= b[1].x && b[3].x <= b[2].x
            &&& b[0].y <= b[3].y
            &&& b[1].y <= b[2].y
        }),
{
    let pts = dedup(contour);
    let rect = min_area_rect(&pts);
    let b = order_box_points(&rect);
    proof {
        lemma_canonical_order(rect@);
    }
    let w = dist2_exec(b[0], b[1]);
    let h = dist2_exec(b[0], b[3]);
    (b, if w <= h { w } else { h })
}

// ---------------------------------------------------------------------------
// Region score

pub open spec fn min_i(a: int, b: int) -> int {
    if a <= b { a } else { b }
}

pub open spec fn max_i(a: int, b: int) -> int {
    if a >= b { a } else { b }
}

pub open spec fn clamp(v: int, lo: int, hi: int) -> int {
    min_i(max_i(v, lo), hi)
}

pub open spec fn min_x(s: Seq<Point>) -> int {
    s.fold_left(i32::MAX as int, |a: int, p: Point| min_i(a, p.x as int))
}

pub open spec fn max_x(s: Seq<Point>) -> int {
    s.fold_left(i32::MIN as int, |a: int, p: Point| max_i(a, p.x as int))
}

pub open spec fn min_y(s: Seq<Point>) -> int {
    s.fold_left(i32::MAX as int, |a: int, p: Point| min_i(a, p.y as int))
}

pub open spec fn max_y(s: Seq<Point>) -> int {
    s.fold_left(i32::MIN as int, |a: int, p: Point| max_i(a, p.y as int))
}

/// `s` translated by `(-dx, -dy)`.
pub open spec fn translate(s: Seq<Point>, dx: int, dy: int) -> Seq<Point> {
    s.map_values(|p: Point| Point { x: (p.x - dx) as i32, y: (p.y - dy) as i32 })
}

/// `s` without the trailing points equal to its first point (a polygon
/// given as an open path).
pub open spec fn open_path(s: Seq<Point>) -> Seq<Point>
    decreases s.len(),
{
    if s.len() >= 2 && s.last() == s[0] {
        open_path(s.drop_last())
    } else {
        s
    }
}

/// The `rw` x `rh` window of a row-major grid with `cols` columns whose
/// upper-left cell is `(x0, y0)`.
pub open spec fn crop_spec(g: Seq<u32>, cols: int, x0: int, y0: int, rw: int, rh: int) -> Seq<u32> {
    Seq::new((rw * rh) as nat, |j: int| g[(y0 + j / rw) * cols + x0 + j % rw])
}

pub proof fn lemma_bounds_fold(s: Seq<Point>)
    ensures
        forall|i: int|
            0 <= i < s.len() ==> {
                &&& min_x(s) <= (#[trigger] s[i]).x <= max_x(s)
                &&& min_y(s) <= s[i].y <= max_y(s)
            },
        i32::MIN <= min_x(s) <= i32::MAX,
        i32::MIN <= max_x(s) <= i32::MAX,
        i32::MIN <= min_y(s) <= i32::MAX,
        i32::MIN <= max_y(s) <= i32::MAX,
    decreases s.len(),
{
    if s.len() > 0 {
        lemma_bounds_fold(s.drop_last());
        let t = s.drop_last();
        assert(min_x(s) == min_i(min_x(t), s.last().x as int));
        assert(max_x(s) == max_i(max_x(t), s.last().x as int));
        assert(min_y(s) == min_i(min_y(t), s.last().y as int));
        assert(max_y(s) == max_i(max_y(t), s.last().y as int));
        assert forall|i: int| 0 <= i < s.len() implies {
            &&& min_x(s) <= (#[trigger] s[i]).x <= max_x(s)
            &&& min_y(s) <= s[i].y <= max_y(s)
        } by {
            if i < s.len() - 1 {
                assert(t[i] == s[i]);
            }
        }
    }
}

/// Bounding box of a non-empty point list: `(min x, max x, min y, max y)`.
fn bounding_box(s: &Vec<Point>) -> (r: (i32, i32, i32, i32))
    ensures
        r.0 == min_x(s@),
        r.1 == max_x(s@),
        r.2 == min_y(s@),
        r.3 == max_y(s@),
{
    let mut x0: i32 = i32::MAX;
    let mut x1: i32 = i32::MIN;
    let mut y0: i32 = i32::MAX;
    let mut y1: i32 = i32::MIN;
    let mut i: usize = 0;
    while i < s.len()
        invariant
            0 <= i <= s@.len(),
            x0 == min_x(s@.subrange(0, i as int)),
            x1 == max_x(s@.subrange(0, i as int)),
            y0 == min_y(s@.subrange(0, i as int)),
            y1 == max_y(s@.subrange(0, i as int)),
        decreases s@.len() - i,
    {
        let p = s[i];
        proof {
            let t = s@.subrange(0, i as int + 1);
            assert(t.drop_last() =~= s@.subrange(0, i as int));
            assert(t.last() == p);
        }
        if p.x < x0 { x0 = p.x; }
        if p.x > x1 { x1 = p.x; }
        if p.y < y0 { y0 = p.y; }
        if p.y > y1 { y1 = p.y; }
        i = i + 1;
    }
    assert(s@.subrange(0, s@.len() as int) =~= s@);
    (x0, x1, y0, y1)
}

fn clamp_exec(v: i32, lo: i32, hi: i32) -> (r: i32)
    requires
        lo <= hi,
    ensures
        r == clamp(v as int, lo as int, hi as int),
{
    let m = if v >= lo { v } else { lo };
    if m <= hi { m } else { hi }
}

proof fn lemma_crop_index(j: int, rw: int, rh: int, x0: int, y0: int, cols: int, rows: int)
    requires
        0 <= j < rw * rh,
        rw > 0,
        rh > 0,
        0 <= x0,
        x0 + rw <= cols,
        0 <= y0,
        y0 + rh <= rows,
    ensures
        0 <= (y0 + j / rw) * cols + x0 + j % rw < rows * cols,
{
    assert(0 <= j / rw < rh) by (nonlinear_arith)
        requires 0 <= j < rw * rh, rw > 0;
    assert(0 <= j % rw < rw) by (nonlinear_arith)
        requires rw > 0;
    let a = y0 + j / rw;
    let b = x0 + j % rw;
    assert(0 <= a * cols + b < rows * cols) by (nonlinear_arith)
        requires 0 <= a < rows, 0 <= b < cols;
}

/// The `rw` x `rh` window of a row-major grid with `cols` columns whose
/// upper-left cell is `(x0, y0)`, row-major.
pub fn crop_grid(g: &Vec<u32>, rows: usize, cols: usize, x0: usize, y0: usize, rw: usize, rh: usize) -> (r: Vec<u32>)
    requires
        g@.len() == rows * cols,
        rw > 0,
        rh > 0,
        x0 + rw <= cols,
        y0 + rh <= rows,
        rows * cols <= 0x1000_0000,
    ensures
        r@ == crop_spec(g@, cols as int, x0 as int, y0 as int, rw as int, rh as int),
        forall|j: int| 0 <= j < r@.len() ==> g@.contains(#[trigger] r@[j]),
{
    assert(rw * rh <= rows * cols) by (nonlinear_arith)
        requires 0 <= rw <= cols, 0 <= rh <= rows;
    let n = rw * rh;
    let mut r: Vec<u32> = Vec::new();
    let mut j: usize = 0;
    while j < n
        invariant
            n == rw * rh <= rows * cols <= 0x1000_0000,
            g@.len() == rows * cols,
            rw > 0,
            rh > 0,
            x0 + rw <= cols,
            y0 + rh <= rows,
            0 <= j <= n,
            r@.len() == j,
            forall|q: int| 0 <= q < j ==> r@[q] == crop_spec(g@, cols as int, x0 as int, y0 as int, rw as int, rh as int)[q],
            forall|q: int| 0 <= q < j ==> g@.contains(#[trigger] r@[q]),
        decreases n - j,
    {
        proof {
            lemma_crop_index(j as int, rw as int, rh as int, x0 as int, y0 as int, cols as int, rows as int);
        }
        assert(j / rw < rh && j % rw < rw) by (nonlinear_arith)
            requires 0 <= j < rw * rh, rw > 0;
        let row = y0 + j / rw;
        let col = x0 + j % rw;
        assert(row * cols + col < rows * cols) by (nonlinear_arith)
            requires 0 <= row < rows, 0 <= col < cols;
        let idx = row * cols + col;
        r.push(g[idx]);
        assert(r@[j as int] == g@[idx as int]);
        j = j + 1;
    }
    assert(r@ =~= crop_spec(g@, cols as int, x0 as int, y0 as int, rw as int, rh as int));
    r
}

/// The heatmap window that scores a contour: the contour's bounding box
/// clamped to the heatmap, as `(x0, y0, width, height)`.
pub open spec fn score_window(c: Seq<Point>, rows: int, cols: int) -> (int, int, int, int) {
    let x0 = clamp(min_x(c), 0, cols - 1);
    let x1 = clamp(max_x(c), 0, cols - 1);
    let y0 = clamp(min_y(c), 0, rows - 1);
    let y1 = clamp(max_y(c), 0, rows - 1);
    (x0, y0, x1 - x0 + 1, y1 - y0 + 1)
}

/// The contour in window coordinates, as an open path.
pub open spec fn score_path(c: Seq<Point>, rows: int, cols: int) -> Seq<Point> {
    let (x0, y0, _w, _h) = score_window(c, rows, cols);
    open_path(translate(c, x0, y0))
}

/// Score of a contour: the mean heatmap value over the filled contour
/// polygon, within the contour's bounding box clamped to the heatmap. A
/// contour whose points all coincide fills its one cell, whose value is the
/// score.
pub open spec fn score_spec(c: Seq<Point>, pred: Seq<u32>, rows: int, cols: int) -> int {
    let (x0, y0, rw, rh) = score_window(c, rows, cols);
    let poly = score_path(c, rows, cols);
    if rw <= 0 || rh <= 0 || poly.len() == 0 {
        0
    } else if poly.len() == 1 {
        pred[(y0 + poly[0].y) * cols + x0 + poly[0].x] as int
    } else {
        masked_mean(crop_spec(pred, cols, x0, y0, rw, rh), polygon_mask_of(poly, rw, rh))
    }
}

/// Every heatmap cell that scores the contour (see `score_spec`) holds a
/// value in `[lo, hi]`.
pub open spec fn score_cells_within(c: Seq<Point>, pred: Seq<u32>, rows: int, cols: int, lo: int, hi: int) -> bool {
    let (x0, y0, rw, rh) = score_window(c, rows, cols);
    let poly = score_path(c, rows, cols);
    if rw <= 0 || rh <= 0 || poly.len() == 0 {
        true
    } else if poly.len() == 1 {
        lo <= pred[(y0 + poly[0].y) * cols + x0 + poly[0].x] <= hi
    } else {
        masked_within(crop_spec(pred, cols, x0, y0, rw, rh), polygon_mask_of(poly, rw, rh), lo, hi)
    }
}

proof fn lemma_open_path(s: Seq<Point>)
    ensures
        open_path(s).len() <= s.len(),
        s.len() >= 1 ==> open_path(s).len() >= 1,
        forall|i: int| 0 <= i < open_path(s).len() ==> #[trigger] open_path(s)[i] == s[i],
        open_path(s).len() >= 2 ==> open_path(s)[0] != open_path(s)[open_path(s).len() - 1],
    decreases s.len(),
{
    if s.len() >= 2 && s.last() == s[0] {
        lemma_open_path(s.drop_last());
    }
}

/// Mean heatmap value inside a contour (see `score_spec`).
pub fn get_score(contour: &Vec<Point>, pred: &Vec<u32>, rows: usize, cols: usize) -> (r: u32)
    requires
        contour@.len() > 0,
        in_grid(contour@, cols as int, rows as int),
        pred@.len() == rows * cols,
        0 < rows <= COORD_LIMIT,
        0 < cols <= COORD_LIMIT,
    ensures
        r == score_spec(contour@, pred@, rows as int, cols as int),
        forall|lo: int, hi: int|
            #[trigger] score_cells_within(contour@, pred@, rows as int, cols as int, lo, hi) ==> lo <= r <= hi,
        (forall|i: int| 0 <= i < pred@.len() ==> #[trigger] pred@[i] <= SCORE_ONE) ==> r <= SCORE_ONE,
{
    proof {
        lemma_bounds_fold(contour@);
    }
    let (bx0, bx1, by0, by1) = bounding_box(contour);
    let x0 = clamp_exec(bx0, 0, (cols - 1) as i32);
    let x1 = clamp_exec(bx1, 0, (cols - 1) as i32);
    let y0 = clamp_exec(by0, 0, (rows - 1) as i32);
    let y1 = clamp_exec(by1, 0, (rows - 1) as i32);
    assert(contour@[0].x >= 0);
    assert(x0 <= contour@[0].x <= x1);
    assert(y0 <= contour@[0].y <= y1);
    assert forall|q: int| 0 <= q < contour@.len() implies x0 <= (#[trigger] contour@[q]).x <= x1 && y0 <= contour@[q].y <= y1 by {
        assert(0 <= contour@[q].x < cols && 0 <= contour@[q].y < rows);
    }
    let rw = x1 - x0 + 1;
    let rh = y1 - y0 + 1;
    // the contour in window coordinates
    let mut poly: Vec<Point> = Vec::new();
    let mut i: usize = 0;
    while i < contour.len()
        invariant
            0 <= i <= contour@.len(),
            in_grid(contour@, cols as int, rows as int),
            0 <= x0,
            0 <= y0,
            forall|q: int| 0 <= q < contour@.len() ==> x0 <= (#[trigger] contour@[q]).x <= x1 && y0 <= contour@[q].y <= y1,
            poly@.len() == i,
            forall|q: int| 0 <= q < i ==> poly@[q] == #[trigger] translate(contour@, x0 as int, y0 as int)[q],
        decreases contour@.len() - i,
    {
        let p = contour[i];
        assert(x0 <= p.x <= x1 && y0 <= p.y <= y1);
        poly.push(Point { x: p.x - x0, y: p.y - y0 });
        i = i + 1;
    }
    let ghost full = translate(contour@, x0 as int, y0 as int);
    assert(poly@ =~= full);
    while poly.len() >= 2 && poly[poly.len() - 1] == poly[0]
        invariant
            open_path(poly@) == open_path(full),
            poly@.len() <= full.len(),
            forall|q: int| 0 <= q < poly@.len() ==> #[trigger] poly@[q] == full[q],
        decreases poly@.len(),
    {
        let ghost before = poly@;
        poly.pop();
        assert(poly@ =~= before.drop_last());
    }
    proof {
        lemma_open_path(full);
    }
    assert(poly@ == open_path(full));
    assert(poly@ == score_path(contour@, rows as int, cols as int));
    if poly.len() < 2 {
        // all points coincide: the filled polygon is the cell of the first
        assert(poly@[0] == full[0]);
        assert(x0 + poly@[0].x == contour@[0].x && y0 + poly@[0].y == contour@[0].y);
        let p = contour[0];
        let px = p.x as usize;
        let py = p.y as usize;
        assert(rows * cols <= 0x1000_0000) by (nonlinear_arith)
            requires 0 < rows <= COORD_LIMIT, 0 < cols <= COORD_LIMIT;
        assert(py * cols + px < rows * cols) by (nonlinear_arith)
            requires 0 <= px < cols, 0 <= py < rows;
        let v = pred[py * cols + px];
        proof {
            if forall|i: int| 0 <= i < pred@.len() ==> #[trigger] pred@[i] <= SCORE_ONE {
                assert(pred@[p.y * cols + p.x] <= SCORE_ONE);
            }
        }
        return v;
    }
    assert(in_grid(poly@, rw as int, rh as int)) by {
        assert forall|q: int| 0 <= q < poly@.len() implies 0 <= (#[trigger] poly@[q]).x < rw && 0 <= poly@[q].y < rh by {
            assert(poly@[q] == full[q]);
            assert(x0 <= contour@[q].x <= x1);
            assert(y0 <= contour@[q].y <= y1);
        }
    }
    assert(rows * cols <= 0x1000_0000) by (nonlinear_arith)
        requires 0 < rows <= COORD_LIMIT, 0 < cols <= COORD_LIMIT;
    let mask = polygon_mask(&poly, rw as u32, rh as u32);
    let window = crop_grid(pred, rows, cols, x0 as usize, y0 as usize, rw as usize, rh as usize);
    assert(rw * rh <= rows * cols) by (nonlinear_arith)
        requires 0 < rw <= cols, 0 < rh <= rows;
    proof {
        if forall|i: int| 0 <= i < pred@.len() ==> #[trigger] pred@[i] <= SCORE_ONE {
            assert forall|j: int| 0 <= j < window@.len() implies #[trigger] window@[j] <= SCORE_ONE by {
                assert(pred@.contains(window@[j]));
                let k = choose|k: int| 0 <= k < pred@.len() && pred@[k] == window@[j];
                assert(pred@[k] <= SCORE_ONE);
            }
            lemma_masked_mean_bounded(window@, mask@, SCORE_ONE as int);
        }
        // the mask is not empty: the cell of the first path point is set
        let q = poly@[0];
        assert(0 <= q.y * rw + q.x < rw * rh) by (nonlinear_arith)
            requires 0 <= q.x < rw, 0 <= q.y < rh;
        assert(mask@[q.y * rw + q.x] == 1);
    }
    let r = OcrUtils::calculate_mean_with_mask(&window, &mask);
    proof {
        let q = poly@[0];
        assert forall|lo: int, hi: int|
            #[trigger] score_cells_within(contour@, pred@, rows as int, cols as int, lo, hi) implies lo <= r <= hi by {
            lemma_masked_mean_between(window@, mask@, lo, hi, q.y * rw + q.x);
        }
    }
    r
}

// ---------------------------------------------------------------------------
// Offset distance

pub open spec fn abs_i(v: int) -> int {
    if v < 0 { -v } else { v }
}

/// Offset distance of a box, in thousandths of a pixel, for an unclip ratio
/// in units of `SCORE_ONE`: `area * ratio / perimeter`, rounded down. `None`
/// for a degenerate box (both sides shorter than 1.001 px).
pub open spec fn unclip_distance_spec(b: Seq<Point>, ratio: int) -> Option<int> {
    if dist2(b[0], b[1]) <= 1 && dist2(b[0], b[3]) <= 1 {
        None
    } else if perimeter_milli(b) == 0 {
        None
    } else {
        Some(abs_i(signed_area2(b)) * ratio / (2 * perimeter_milli(b)))
    }
}

/// Distance by which a box is to be inflated (see `unclip_distance_spec`).
pub fn unclip_distance(box_points: &Vec<Point>, unclip_ratio: u32) -> (r: Option<u128>)
    requires
        box_points@.len() == 4,
    ensures
        r matches Some(d) ==> unclip_distance_spec(box_points@, unclip_ratio as int) == Some(d as int),
        r is None ==> unclip_distance_spec(box_points@, unclip_ratio as int) is None,
{
    let w = dist2_exec(box_points[0], box_points[1]);
    let h = dist2_exec(box_points[0], box_points[3]);
    if w <= 1 && h <= 1 {
        return None;
    }
    let per = length_of_points(box_points);
    if per == 0 {
        return None;
    }
    let area2 = signed_polygon_area(box_points);
    proof {
        lemma_area4_bound(box_points@);
    }
    let a: u128 = if area2 < 0 { (-area2) as u128 } else { area2 as u128 };
    assert(a * (unclip_ratio as u128) <= 0x100_0000_0000_0000_0000 * 0x1_0000_0000) by (nonlinear_arith)
        requires a <= 0x100_0000_0000_0000_0000, unclip_ratio <= 0xffff_ffff;
    Some(a * (unclip_ratio as u128) / (2 * per))
}

proof fn lemma_area4_bound(b: Seq<Point>)
    requires
        b.len() == 4,
    ensures
        abs_i(signed_area2(b)) <= 0x100_0000_0000_0000_0000,
{
    assert(signed_area2(b) == signed_area2_edges(b, 4));
    assert forall|k: int| 1 <= k <= 4 implies {
        let p = #[trigger] b[k - 1];
        let q = b[k % 4];
        -0x8_0000_0000_0000_0000 <= (q.x - p.x) * (q.y + p.y) <= 0x8_0000_0000_0000_0000
    } by {
        let p = b[k - 1];
        let q = b[k % 4];
        let dx = q.x - p.x;
        let sy = q.y + p.y;
        assert(-0x8_0000_0000_0000_0000 <= dx * sy <= 0x8_0000_0000_0000_0000) by (nonlinear_arith)
            requires -0x1_0000_0000 <= dx <= 0x1_0000_0000, -0x1_0000_0000 <= sy <= 0x1_0000_0000;
    }
    let t1: int = (b[1int % 4].x - b[0].x) * (b[1int % 4].y + b[0].y);
    let t2: int = (b[2int % 4].x - b[1].x) * (b[2int % 4].y + b[1].y);
    let t3: int = (b[3int % 4].x - b[2].x) * (b[3int % 4].y + b[2].y);
    let t4: int = (b[4int % 4].x - b[3].x) * (b[4int % 4].y + b[3].y);
    assert(b[1 - 1] == b[0]);
    assert(b[2 - 1] == b[1]);
    assert(b[3 - 1] == b[2]);
    assert(b[4 - 1] == b[3]);
    assert(signed_area2_edges(b, 0) == 0);
    assert(signed_area2_edges(b, 1) == t1);
    assert(signed_area2_edges(b, 2) == t1 + t2);
    assert(signed_area2_edges(b, 3) == t1 + t2 + t3);
    assert(signed_area2_edges(b, 4) == t1 + t2 + t3 + t4);
}

/// An axis-aligned square of side `a` at `(x, y)`, corners in canonical order.
pub open spec fn square(x: int, y: int, a: int) -> Seq<Point> {
    seq![
        Point { x: x as i32, y: y as i32 },
        Point { x: (x + a) as i32, y: y as i32 },
        Point { x: (x + a) as i32, y: (y + a) as i32 },
        Point { x: x as i32, y: (y + a) as i32 },
    ]
}

/// Offsetting a square of side `a >= 2` uses the distance
/// `area * ratio / perimeter = a * ratio / 4`; a box whose two sides are both
/// at most 1 px long gets no offset at all.
pub proof fn lemma_unclip_square(x: int, y: int, a: int, ratio: int)
    requires
        a >= 2,
        i32::MIN <= x,
        x + a <= i32::MAX,
        i32::MIN <= y,
        y + a <= i32::MAX,
    ensures
        unclip_distance_spec(square(x, y, a), ratio) == Some(a * ratio / 4000),
{
    let b = square(x, y, a);
    assert(b[0].x == x && b[0].y == y && b[1].x == x + a && b[1].y == y);
    assert(b[2].x == x + a && b[2].y == y + a && b[3].x == x && b[3].y == y + a);
    assert((x - (x + a)) * (x - (x + a)) == a * a) by (nonlinear_arith);
    assert((x + a - x) * (x + a - x) == a * a) by (nonlinear_arith);
    assert((y - (y + a)) * (y - (y + a)) == a * a) by (nonlinear_arith);
    assert((y + a - y) * (y + a - y) == a * a) by (nonlinear_arith);
    assert(dist2(b[0], b[1]) == a * a);
    assert(dist2(b[1], b[2]) == a * a);
    assert(dist2(b[2], b[3]) == a * a);
    assert(dist2(b[3], b[0]) == a * a);
    assert(a * a > 1) by (nonlinear_arith)
        requires a >= 2;
    let m = a * a * 1000000;
    assert(is_isqrt(m, 1000 * a)) by (nonlinear_arith)
        requires m == a * a * 1000000, a >= 2;
    lemma_isqrt_unique(m, sqrt_floor(m), 1000 * a);
    assert(sqrt_floor(m) == 1000 * a);
    assert(dist2(b[0], b[1]) * 1000000 == m);
    assert(b[(0int + 1) % 4] == b[1]);
    assert(side_milli(b, 0) == 1000 * a);
    assert(side_milli(b, 1) == 1000 * a);
    assert(side_milli(b, 2) == 1000 * a);
    assert(b[(3int + 1) % 4] == b[0]);
    assert(side_milli(b, 3) == 1000 * a);
    assert(perimeter_milli_prefix(b, 0) == 0);
    assert(perimeter_milli_prefix(b, 1) == 1000 * a);
    assert(perimeter_milli_prefix(b, 2) == 2000 * a);
    assert(perimeter_milli_prefix(b, 3) == 3000 * a);
    assert(perimeter_milli_prefix(b, 4) == 4000 * a);
    assert(perimeter_milli(b) == 4000 * a);
    assert(signed_area2_edges(b, 0) == 0);
    assert(b[1int % 4] == b[1]);
    assert(signed_area2_edges(b, 1) == signed_area2_edges(b, 0) + (b[1].x - b[0].x) * (b[1].y + b[0].y));
    assert(signed_area2_edges(b, 1) == a * (2 * y));
    assert(signed_area2_edges(b, 2) == a * (2 * y));
    assert((x - (x + a)) * ((y + a) + (y + a)) == -(a * (2 * y + 2 * a))) by (nonlinear_arith);
    assert((x + a - x) * (y + y) == a * (2 * y)) by (nonlinear_arith);
    assert((x + a - (x + a)) * ((y + a) + y) == 0) by (nonlinear_arith);
    assert((x - x) * (y + (y + a)) == 0) by (nonlinear_arith);
    assert(signed_area2_edges(b, 3) == a * (2 * y) - a * (2 * y + 2 * a));
    assert(signed_area2_edges(b, 4) == a * (2 * y) - a * (2 * y + 2 * a));
    assert(a * (2 * y) - a * (2 * y + 2 * a) == -2 * (a * a)) by (nonlinear_arith);
    assert(abs_i(signed_area2(b)) == 2 * (a * a));
    assert(2 * (a * a) * ratio / (2 * (4000 * a)) == a * ratio / 4000) by (nonlinear_arith)
        requires a >= 2;
}

/// A box whose sides from corner 0 are both at most 1 px long is not offset.
pub proof fn lemma_unclip_degenerate(b: Seq<Point>, ratio: int)
    requires
        b.len() == 4,
        dist2(b[0], b[1]) <= 1,
        dist2(b[0], b[3]) <= 1,
    ensures
        unclip_distance_spec(b, ratio) is None,
{
}

// ---------------------------------------------------------------------------
// First stage: contours to candidate boxes

/// A contour that passed the size and score tests: its minimal box in
/// canonical order (heatmap space), its score, and the distance (thousandths
/// of a pixel) by which the box is to be inflated.
#[derive(Clone, Debug)]
pub struct BoxCandidate {
    pub min_box: Vec<Point>,
    pub score: u32,
    pub distance: u128,
}

pub open spec fn candidate_view(c: BoxCandidate) -> (Seq<Point>, u32, u128) {
    (c.min_box@, c.score, c.distance)
}

pub open spec fn vec_views(v: Seq<Vec<Point>>) -> Seq<Seq<Point>> {
    v.map_values(|c: Vec<Point>| c@)
}

/// What becomes of one contour: `None` where it is dropped.
pub open spec fn candidate_spec(
    c: Seq<Point>,
    pred: Seq<u32>,
    rows: int,
    cols: int,
    box_score_thresh: int,
    un_clip_ratio: int,
) -> Option<(Seq<Point>, u32, u128)> {
    if c.len() <= 2 {
        None
    } else {
        let b = mini_box_spec(c);
        if short_side2(b) < MIN_SIDE * MIN_SIDE {
            None
        } else {
            let sc = score_spec(c, pred, rows, cols);
            if sc < box_score_thresh {
                None
            } else {
                match unclip_distance_spec(b, un_clip_ratio) {
                    None => None,
                    Some(d) => Some((b, sc as u32, d as u128)),
                }
            }
        }
    }
}

/// The candidates of the first `k` contours, in contour order.
pub open spec fn candidates_spec(
    cs: Seq<Seq<Point>>,
    pred: Seq<u32>,
    rows: int,
    cols: int,
    box_score_thresh: int,
    un_clip_ratio: int,
    k: int,
) -> Seq<(Seq<Point>, u32, u128)>
    decreases k,
{
    if k <= 0 {
        Seq::empty()
    } else {
        let prev = candidates_spec(cs, pred, rows, cols, box_score_thresh, un_clip_ratio, k - 1);
        match candidate_spec(cs[k - 1], pred, rows, cols, box_score_thresh, un_clip_ratio) {
            Some(v) => prev.push(v),
            None => prev,
        }
    }
}

proof fn lemma_score_range(c: Seq<Point>, pred: Seq<u32>, rows: int, cols: int)
    ensures
        0 <= score_spec(c, pred, rows, cols) <= u32::MAX,
{
    let (x0, y0, rw, rh) = score_window(c, rows, cols);
    let poly = score_path(c, rows, cols);
    lemma_masked_mean_range(crop_spec(pred, cols, x0, y0, rw, rh), polygon_mask_of(poly, rw, rh));
}

/// Every candidate has a minimal box in canonical order whose shorter side
/// is at least `MIN_SIDE` pixels, and a score of at least `box_score_thresh`.
pub proof fn lemma_candidates_pass_thresholds(
    cs: Seq<Seq<Point>>,
    pred: Seq<u32>,
    rows: int,
    cols: int,
    box_score_thresh: int,
    un_clip_ratio: int,
    k: int,
)
    requires
        0 <= k <= cs.len(),
    ensures
        forall|i: int|
            0 <= i < candidates_spec(cs, pred, rows, cols, box_score_thresh, un_clip_ratio, k).len() ==> {
                let c = #[trigger] candidates_spec(cs, pred, rows, cols, box_score_thresh, un_clip_ratio, k)[i];
                &&& short_side2(c.0) >= MIN_SIDE * MIN_SIDE
                &&& c.1 >= box_score_thresh
                &&& exists|j: int| 0 <= j < k && c.0 == mini_box_spec(#[trigger] cs[j])
            },
    decreases k,
{
    if k > 0 {
        lemma_candidates_pass_thresholds(cs, pred, rows, cols, box_score_thresh, un_clip_ratio, k - 1);
        let prev = candidates_spec(cs, pred, rows, cols, box_score_thresh, un_clip_ratio, k - 1);
        let cur = candidates_spec(cs, pred, rows, cols, box_score_thresh, un_clip_ratio, k);
        assert forall|i: int| 0 <= i < cur.len() implies {
            let c = #[trigger] cur[i];
            &&& short_side2(c.0) >= MIN_SIDE * MIN_SIDE
            &&& c.1 >= box_score_thresh
            &&& exists|j: int| 0 <= j < k && c.0 == mini_box_spec(#[trigger] cs[j])
        } by {
            if i < prev.len() {
                assert(cur[i] == prev[i]);
                let c = prev[i];
                let j = choose|j: int| 0 <= j < k - 1 && c.0 == mini_box_spec(#[trigger] cs[j]);
                assert(0 <= j < k && c.0 == mini_box_spec(cs[j]));
            } else {
                let c = cur[i];
                assert(c.0 == mini_box_spec(cs[k - 1]));
                let sc = score_spec(cs[k - 1], pred, rows, cols);
                assert(sc >= box_score_thresh);
                lemma_score_range(cs[k - 1], pred, rows, cols);
            }
        }
    }
}

/// One contour to a candidate (see `candidate_spec`).
pub fn box_candidate(
    contour: &Vec<Point>,
    pred: &Vec<u32>,
    rows: usize,
    cols: usize,
    box_score_thresh: u32,
    un_clip_ratio: u32,
) -> (r: Option<BoxCandidate>)
    requires
        in_grid(contour@, cols as int, rows as int),
        pred@.len() == rows * cols,
        0 < rows <= COORD_LIMIT,
        0 < cols <= COORD_LIMIT,
    ensures
        r matches Some(c) ==> candidate_spec(contour@, pred@, rows as int, cols as int, box_score_thresh as int, un_clip_ratio as int) == Some(candidate_view(c)),
        r is None ==> candidate_spec(contour@, pred@, rows as int, cols as int, box_score_thresh as int, un_clip_ratio as int) is None,
{
    if contour.len() <= 2 {
        return None;
    }
    assert(points_bounded(contour@)) by {
        assert forall|i: int| 0 <= i < contour@.len() implies point_bounded(#[trigger] contour@[i]) by {
            assert(0 <= contour@[i].x < cols && 0 <= contour@[i].y < rows);
        }
    }
    let (min_box, short2) = get_mini_box(contour);
    if short2 < MIN_SIDE * MIN_SIDE {
        return None;
    }
    let score = get_score(contour, pred, rows, cols);
    if score < box_score_thresh {
        return None;
    }
    match unclip_distance(&min_box, un_clip_ratio) {
        None => None,
        Some(d) => Some(BoxCandidate { min_box, score, distance: d }),
    }
}

/// Candidates of a list of contours of the heatmap, in contour order.
pub fn candidates_from_contours(
    contours: &Vec<Vec<Point>>,
    pred: &Vec<u32>,
    rows: usize,
    cols: usize,
    box_score_thresh: u32,
    un_clip_ratio: u32,
) -> (r: Vec<BoxCandidate>)
    requires
        forall|i: int| 0 <= i < contours@.len() ==> in_grid(#[trigger] contours@[i]@, cols as int, rows as int),
        pred@.len() == rows * cols,
        0 < rows <= COORD_LIMIT,
        0 < cols <= COORD_LIMIT,
    ensures
        r@.map_values(|c: BoxCandidate| candidate_view(c)) == candidates_spec(
            vec_views(contours@),
            pred@,
            rows as int,
            cols as int,
            box_score_thresh as int,
            un_clip_ratio as int,
            contours@.len() as int,
        ),
{
    let ghost cs = vec_views(contours@);
    let mut r: Vec<BoxCandidate> = Vec::new();
    let mut i: usize = 0;
    while i < contours.len()
        invariant
            0 <= i <= contours@.len(),
            cs == vec_views(contours@),
            forall|q: int| 0 <= q < contours@.len() ==> in_grid(#[trigger] contours@[q]@, cols as int, rows as int),
            pred@.len() == rows * cols,
            0 < rows <= COORD_LIMIT,
            0 < cols <= COORD_LIMIT,
            r@.map_values(|c: BoxCandidate| candidate_view(c)) == candidates_spec(
                cs, pred@, rows as int, cols as int, box_score_thresh as int, un_clip_ratio as int, i as int),
        decreases contours@.len() - i,
    {
        let ghost before = r@;
        assert(cs[i as int] == contours@[i as int]@);
        match box_candidate(&contours[i], pred, rows, cols, box_score_thresh, un_clip_ratio) {
            Some(c) => {
                r.push(c);
                assert(r@ == before.push(c));
                assert(r@.map_values(|c: BoxCandidate| candidate_view(c)) =~= before.map_values(
                    |c: BoxCandidate| candidate_view(c),
                ).push(candidate_view(c)));
            },
            None => {},
        }
        i = i + 1;
    }
    r
}

/// The candidates that a detector heatmap (`rows` x `cols`, row-major)
/// yields: binarized at `box_thresh`, dilated, its contours found, each
/// contour kept or dropped as `candidate_spec` says.
pub fn find_box_candidates(
    pred: &Vec<u32>,
    rows: usize,
    cols: usize,
    box_score_thresh: u32,
    box_thresh: u32,
    un_clip_ratio: u32,
) -> (r: Vec<BoxCandidate>)
    requires
        pred@.len() == rows * cols,
        0 < rows <= COORD_LIMIT,
        0 < cols <= COORD_LIMIT,
    ensures
        ({
            let cs = contours_of(dilate_spec(binarize_spec(pred@, box_thresh), cols as int), cols as int, rows as int);
            r@.map_values(|c: BoxCandidate| candidate_view(c)) == candidates_spec(
                cs, pred@, rows as int, cols as int, box_score_thresh as int, un_clip_ratio as int, cs.len() as int)
        }),
        (forall|i: int| 0 <= i < pred@.len() ==> #[trigger] pred@[i] < box_thresh) ==> r@.len() == 0,
{
    let binary = binarize(pred, box_thresh);
    let dilated = dilate(&binary, cols);
    assert(dilated@.len() == pred@.len());
    assert(rows * cols == cols * rows) by (nonlinear_arith);
    proof {
        if forall|i: int| 0 <= i < pred@.len() ==> #[trigger] pred@[i] < box_thresh {
            assert forall|k: int| 0 <= k < binary@.len() implies #[trigger] binary@[k] == 0 by {
                assert(pred@[k] < box_thresh);
            }
            assert forall|i: int| 0 <= i < dilated@.len() implies #[trigger] dilated@[i] == 0 by {
                let c = cols as int;
                assert(dilated@[i] == dilate_px(binary@, c, i));
                assert(i % c > 0 ==> i >= 1) by (nonlinear_arith)
                    requires c > 0, i >= 0;
                assert(i % c > 0 && i >= c ==> i >= c + 1) by (nonlinear_arith)
                    requires c > 0, i >= 0;
                if i % c > 0 {
                    assert(binary@[i - 1] == 0);
                }
                if i >= c {
                    assert(binary@[i - c] == 0);
                }
                if i % c > 0 && i >= c {
                    assert(binary@[i - c - 1] == 0);
                }
            }
        }
    }
    let contours = find_contours(&dilated, cols as u32, rows as u32);
    let ghost cs = contours_of(dilate_spec(binarize_spec(pred@, box_thresh), cols as int), cols as int, rows as int);
    assert(vec_views(contours@) =~= cs);
    let r = candidates_from_contours(&contours, pred, rows, cols, box_score_thresh, un_clip_ratio);
    assert(r@.len() == r@.map_values(|c: BoxCandidate| candidate_view(c)).len());
    r
}

// ---------------------------------------------------------------------------
// Second stage: inflated polygons to text boxes

/// Corners of a heatmap-space box mapped to the source image.
pub open spec fn map_box(b: Seq<Point>, s: ScaleParam) -> Seq<Point> {
    b.map_values(|p: Point| Point {
        x: map_back(p.x as int, s.src_width as int, s.dst_width as int) as i32,
        y: map_back(p.y as int, s.src_height as int, s.dst_height as int) as i32,
    })
}

/// The text box made from a candidate's score and its inflated polygon:
/// `None` where the polygon is empty or beyond the coordinate limit, or
/// where its minimal box has a side shorter than `MIN_SIDE + MIN_SIDE_MARGIN`.
pub open spec fn finish_spec(score: u32, offset: Seq<Point>, s: ScaleParam) -> Option<(Seq<Point>, u32)> {
    if offset.len() == 0 || !points_bounded(offset) {
        None
    } else {
        let b = mini_box_spec(offset);
        if short_side2(b) < (MIN_SIDE + MIN_SIDE_MARGIN) * (MIN_SIDE + MIN_SIDE_MARGIN) {
            None
        } else {
            Some((map_box(b, s), score))
        }
    }
}

/// All points of `p` lie in `[0, src_width] x [0, src_height]`.
pub open spec fn in_source(p: Seq<Point>, s: ScaleParam) -> bool {
    forall|i: int| 0 <= i < p.len() ==> 0 <= (#[trigger] p[i]).x <= s.src_width && 0 <= p[i].y <= s.src_height
}

pub open spec fn text_box_view(t: TextBox) -> (Seq<Point>, u32) {
    (t.points@, t.score)
}

fn points_bounded_exec(s: &Vec<Point>) -> (r: bool)
    ensures
        r == points_bounded(s@),
{
    let mut i: usize = 0;
    while i < s.len()
        invariant
            0 <= i <= s@.len(),
            forall|q: int| 0 <= q < i ==> point_bounded(#[trigger] s@[q]),
        decreases s@.len() - i,
    {
        let p = s[i];
        if !(-COORD_LIMIT < p.x && p.x < COORD_LIMIT && -COORD_LIMIT < p.y && p.y < COORD_LIMIT) {
            return false;
        }
        i = i + 1;
    }
    true
}

/// A candidate's text box from its inflated polygon (see `finish_spec`).
pub fn finish_text_box(score: u32, offset: &Vec<Point>, s: &ScaleParam) -> (r: Option<TextBox>)
    requires
        s.wf(),
    ensures
        r matches Some(t) ==> finish_spec(score, offset@, *s) == Some(text_box_view(t)),
        r is None ==> finish_spec(score, offset@, *s) is None,
        r matches Some(t) ==> in_source(t.points@, *s),
{
    if offset.len() == 0 || !points_bounded_exec(offset) {
        return None;
    }
    let (b, short2) = get_mini_box(offset);
    let limit = MIN_SIDE + MIN_SIDE_MARGIN;
    if short2 < limit * limit {
        return None;
    }
    let mut points: Vec<Point> = Vec::new();
    let mut i: usize = 0;
    while i < 4
        invariant
            0 <= i <= 4,
            b@.len() == 4,
            s.wf(),
            points@.len() == i,
            forall|q: int| 0 <= q < i ==> points@[q] == #[trigger] map_box(b@, *s)[q],
            in_source(points@, *s),
        decreases 4 - i,
    {
        points.push(Point { x: s.to_src_x(b[i].x), y: s.to_src_y(b[i].y) });
        i = i + 1;
    }
    assert(points@ =~= map_box(b@, *s));
    Some(TextBox { points, score })
}

/// Text boxes of the candidates `[lo, n)`, from the last candidate to the
/// first.
pub open spec fn boxes_desc(
    scores: Seq<u32>,
    offsets: Seq<Seq<Point>>,
    s: ScaleParam,
    lo: int,
    n: int,
) -> Seq<(Seq<Point>, u32)>
    decreases n - lo,
{
    if lo >= n {
        Seq::empty()
    } else {
        let rest = boxes_desc(scores, offsets, s, lo + 1, n);
        match finish_spec(scores[lo], offsets[lo], s) {
            Some(v) => rest.push(v),
            None => rest,
        }
    }
}

/// Text boxes from the candidates and their inflated polygons (one per
/// candidate, same order), in reverse candidate order; candidates whose
/// polygon fails `finish_spec` are left out.
pub fn finish_text_boxes(
    candidates: &Vec<BoxCandidate>,
    offsets: &Vec<Vec<Point>>,
    s: &ScaleParam,
) -> (r: Vec<TextBox>)
    requires
        candidates@.len() == offsets@.len(),
        s.wf(),
    ensures
        r@.map_values(|t: TextBox| text_box_view(t)) == boxes_desc(
            candidates@.map_values(|c: BoxCandidate| c.score),
            vec_views(offsets@),
            *s,
            0,
            candidates@.len() as int,
        ),
        forall|i: int| 0 <= i < r@.len() ==> in_source((#[trigger] r@[i]).points@, *s),
{
    let ghost scores = candidates@.map_values(|c: BoxCandidate| c.score);
    let ghost offs = vec_views(offsets@);
    let n = candidates.len();
    let mut r: Vec<TextBox> = Vec::new();
    let mut i: usize = n;
    while i > 0
        invariant
            0 <= i <= n,
            n == candidates@.len() == offsets@.len(),
            s.wf(),
            scores == candidates@.map_values(|c: BoxCandidate| c.score),
            offs == vec_views(offsets@),
            r@.map_values(|t: TextBox| text_box_view(t)) == boxes_desc(scores, offs, *s, i as int, n as int),
            forall|q: int| 0 <= q < r@.len() ==> in_source((#[trigger] r@[q]).points@, *s),
        decreases i,
    {
        i = i - 1;
        let ghost before = r@;
        assert(scores[i as int] == candidates@[i as int].score);
        assert(offs[i as int] == offsets@[i as int]@);
        match finish_text_box(candidates[i].score, &offsets[i], s) {
            Some(t) => {
                r.push(t);
                assert(r@.map_values(|t: TextBox| text_box_view(t)) =~= before.map_values(
                    |t: TextBox| text_box_view(t),
                ).push(text_box_view(t)));
            },
            None => {},
        }
    }
    r
}

} // verus!
