//! Calls into imageproc for the raster and point-set routines that the
//! detector post-processing relies on. Images cross this boundary as
//! row-major `u8` buffers, points as the crate's own `Point`.
use vstd::prelude::*;
use crate::geometry::{points_bounded, COORD_LIMIT};
use crate::ocr_result::Point;

verus! {

/// The borders that imageproc's contour following finds in a `width` x
/// `height` row-major mask (non-zero pixels are foreground).
pub uninterp spec fn contours_of(mask: Seq<u8>, width: int, height: int) -> Seq<Seq<Point>>;

/// The four corners that imageproc reports for the least-area rectangle
/// enclosing a set of points.
pub uninterp spec fn min_rect_of(points: Seq<Point>) -> Seq<Point>;

/// The `width` x `height` row-major mask, 1 inside and 0 outside, that
/// imageproc's scanline fill draws for a polygon.
pub uninterp spec fn polygon_mask_of(points: Seq<Point>, width: int, height: int) -> Seq<u8>;

/// All points of `s` lie on the `width` x `height` grid.
pub open spec fn in_grid(s: Seq<Point>, width: int, height: int) -> bool {
    forall|i: int| 0 <= i < s.len() ==> 0 <= #[trigger] s[i].x < width && 0 <= s[i].y < height
}

/// Relies on imageproc::contours::find_contours: every border (outer and
/// hole) of the 8-connected foreground regions; its documentation states
/// that all points of a border lie within the foreground, hence on the grid,
/// and a border starts only at a foreground pixel, so a mask without one has
/// no borders.
#[verifier::external_body]
pub(crate) fn find_contours(mask: &Vec<u8>, width: u32, height: u32) -> (r: Vec<Vec<Point>>)
    requires
        mask@.len() == width * height,
        0 < width <= COORD_LIMIT,
        0 < height <= COORD_LIMIT,
    ensures
        r@.len() == contours_of(mask@, width as int, height as int).len(),
        forall|i: int|
            0 <= i < r@.len() ==> #[trigger] r@[i]@ == contours_of(mask@, width as int, height as int)[i],
        forall|i: int| 0 <= i < r@.len() ==> in_grid(#[trigger] r@[i]@, width as int, height as int),
        (forall|i: int| 0 <= i < mask@.len() ==> #[trigger] mask@[i] == 0) ==> r@.len() == 0,
{
    let image = image::GrayImage::from_raw(width, height, mask.clone()).unwrap();
    imageproc::contours::find_contours::<i32>(&image)
        .into_iter()
        .map(|c| c.points.into_iter().map(|p| Point { x: p.x, y: p.y }).collect())
        .collect()
}

/// Relies on imageproc::geometry::min_area_rect: four corners (an array of
/// four). Its convex hull sorts with a comparator that is a strict order on
/// distinct points, and computes cross products in i32, hence the bounds.
#[verifier::external_body]
pub(crate) fn min_area_rect(points: &Vec<Point>) -> (r: Vec<Point>)
    requires
        points@.len() > 0,
        points@.no_duplicates(),
        points_bounded(points@),
    ensures
        r@ == min_rect_of(points@),
        r@.len() == 4,
{
    let pts: Vec<imageproc::point::Point<i32>> =
        points.iter().map(|p| imageproc::point::Point::new(p.x, p.y)).collect();
    imageproc::geometry::min_area_rect(&pts).iter().map(|p| Point { x: p.x, y: p.y }).collect()
}

/// Relies on imageproc::drawing::draw_polygon_mut, which fills a polygon
/// (given as an open path: first and last points differ, else it panics)
/// on a zeroed `width` x `height` canvas with the value 1; it also draws
/// every edge with a line from its start point, so the cell of each point
/// (all lie on the canvas) is set.
#[verifier::external_body]
pub(crate) fn polygon_mask(points: &Vec<Point>, width: u32, height: u32) -> (r: Vec<u8>)
    requires
        points@.len() >= 2,
        points@[0] != points@[points@.len() - 1],
        in_grid(points@, width as int, height as int),
        0 < width <= COORD_LIMIT,
        0 < height <= COORD_LIMIT,
    ensures
        r@ == polygon_mask_of(points@, width as int, height as int),
        r@.len() == width * height,
        forall|i: int|
            0 <= i < points@.len() ==> r@[(#[trigger] points@[i]).y * width + points@[i].x] == 1,
{
    let pts: Vec<imageproc::point::Point<i32>> =
        points.iter().map(|p| imageproc::point::Point::new(p.x, p.y)).collect();
    let mut canvas = image::GrayImage::new(width, height);
    imageproc::drawing::draw_polygon_mut(&mut canvas, &pts, image::Luma([1u8]));
    canvas.into_raw()
}

} // verus!
