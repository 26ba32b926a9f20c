//! Rectification geometry: where to crop a text box out of the image and
//! the size of the upright strip it is warped into.
use vstd::prelude::*;
use crate::db_net::{max_x, max_y, min_x, min_y};
use crate::geometry::{dist2, dist2_exec, is_isqrt, isqrt, sqrt_floor, lemma_isqrt_unique};
use crate::ocr_result::Point;

verus! {

/// How one box is rectified: the axis-aligned crop `(left, top)` of size
/// `crop_width` x `crop_height`, the box corners relative to the crop, and
/// the strip size: `dst_width` = |p0 p1| and `dst_height` = |p0 p3|, each
/// rounded down.
#[derive(Clone, Debug)]
pub struct CropPlan {
    pub left: i32,
    pub top: i32,
    pub crop_width: i32,
    pub crop_height: i32,
    pub points: Vec<Point>,
    pub dst_width: u64,
    pub dst_height: u64,
}

pub open spec fn nonneg_points(s: Seq<Point>) -> bool {
    forall|i: int| 0 <= i < s.len() ==> 0 <= (#[trigger] s[i]).x && 0 <= s[i].y
}

pub open spec fn local_points(s: Seq<Point>) -> Seq<Point> {
    s.map_values(|p: Point| Point { x: (p.x - min_x(s)) as i32, y: (p.y - min_y(s)) as i32 })
}

pub open spec fn crop_plan_ok(b: Seq<Point>, c: CropPlan) -> bool {
    &&& c.left == min_x(b)
    &&& c.top == min_y(b)
    &&& c.crop_width == max_x(b) - min_x(b)
    &&& c.crop_height == max_y(b) - min_y(b)
    &&& c.points@ == local_points(b)
    &&& c.dst_width == sqrt_floor(dist2(b[0], b[1]))
    &&& c.dst_height == sqrt_floor(dist2(b[0], b[3]))
}

fn sqrt_dist(a: Point, b: Point) -> (r: u64)
    ensures
        r == sqrt_floor(dist2(a, b)),
{
    let d = dist2_exec(a, b);
    let s = isqrt(d);
    assert(s < 0x1_0000_0000_0000) by (nonlinear_arith)
        requires s * s <= d, d <= 0x2_0000_0000_0000_0000, s >= 0;
    proof {
        lemma_isqrt_unique(dist2(a, b), sqrt_floor(dist2(a, b)), s as int);
    }
    s as u64
}

/// Raster helpers of the pipeline.
pub struct OcrUtils;

impl OcrUtils {
    /// Mean of an image over the cells of a same-sized mask that are non-zero.
    pub fn calculate_mean_with_mask(img: &Vec<u32>, mask: &Vec<u8>) -> (r: u32)
        requires
            img@.len() == mask@.len(),
            img@.len() <= 0x1000_0000,
        ensures
            r == masked_mean(img@, mask@),
    {
        let mut sum: u64 = 0;
        let mut count: u64 = 0;
        let mut i: usize = 0;
        while i < img.len()
            invariant
                img@.len() == mask@.len() <= 0x1000_0000,
                0 <= i <= img@.len(),
                sum == masked_sum(img@, mask@, i as int),
                count == masked_count(mask@, i as int),
                sum <= i * 0xffff_ffff,
                count <= i,
            decreases img@.len() - i,
        {
            if mask[i] > 0 {
                sum = sum + img[i] as u64;
                count = count + 1;
            }
            i = i + 1;
        }
        if count == 0 {
            0
        } else {
            proof {
                lemma_masked_sum_bound(img@, mask@, img@.len() as int);
            }
            assert(sum / count <= 0xffff_ffff) by (nonlinear_arith)
                requires sum <= count * 0xffff_ffff, count > 0;
            (sum / count) as u32
        }
    }

    /// Crop and strip geometry of a text box with non-negative corners.
    pub fn get_rotate_crop_plan(box_points: &Vec<Point>) -> (r: CropPlan)
        requires
            box_points@.len() == 4,
            nonneg_points(box_points@),
        ensures
            crop_plan_ok(box_points@, r),
    {
        let ghost b = box_points@;
        let mut left: i32 = i32::MAX;
        let mut right: i32 = i32::MIN;
        let mut top: i32 = i32::MAX;
        let mut bottom: i32 = i32::MIN;
        let mut i: usize = 0;
        while i < 4
            invariant
                0 <= i <= 4,
                b == box_points@,
                b.len() == 4,
                nonneg_points(b),
                0 <= left,
                0 <= top,
                left == min_x(b.subrange(0, i as int)),
                right == max_x(b.subrange(0, i as int)),
                top == min_y(b.subrange(0, i as int)),
                bottom == max_y(b.subrange(0, i as int)),
            decreases 4 - i,
        {
            let p = box_points[i];
            proof {
                let t = b.subrange(0, i as int + 1);
                assert(t.drop_last() =~= b.subrange(0, i as int));
                assert(t.last() == p);
            }
            if p.x < left { left = p.x; }
            if p.x > right { right = p.x; }
            if p.y < top { top = p.y; }
            if p.y > bottom { bottom = p.y; }
            i = i + 1;
        }
        assert(b.subrange(0, 4) =~= b);
        proof {
            crate::db_net::lemma_bounds_fold(b);
        }
        assert(0 <= b[0].x && 0 <= b[0].y);
        let mut points: Vec<Point> = Vec::new();
        let mut j: usize = 0;
        while j < 4
            invariant
                0 <= j <= 4,
                b == box_points@,
                b.len() == 4,
                nonneg_points(b),
                left == min_x(b),
                top == min_y(b),
                forall|q: int| 0 <= q < 4 ==> left <= (#[trigger] b[q]).x && top <= b[q].y,
                0 <= left,
                0 <= top,
                points@.len() == j,
                forall|q: int| 0 <= q < j ==> points@[q] == #[trigger] local_points(b)[q],
            decreases 4 - j,
        {
            let p = box_points[j];
            points.push(Point { x: p.x - left, y: p.y - top });
            j = j + 1;
        }
        assert(points@ =~= local_points(b));
        let dst_width = sqrt_dist(box_points[0], box_points[1]);
        let dst_height = sqrt_dist(box_points[0], box_points[3]);
        CropPlan {
            left,
            top,
            crop_width: right - left,
            crop_height: bottom - top,
            points,
            dst_width,
            dst_height,
        }
    }

    /// A strip at least one and a half times as tall as wide is turned a
    /// quarter turn to lie horizontally.
    pub fn needs_rotation(width: u64, height: u64) -> (r: bool)
        ensures
            r == (2 * (height as int) >= 3 * (width as int)),
    {
        2 * (height as u128) >= 3 * (width as u128)
    }
}

/// Sum and count of the first `n` values of `img` where `mask` is non-zero.
pub open spec fn masked_sum(img: Seq<u32>, mask: Seq<u8>, n: int) -> int
    decreases n,
{
    if n <= 0 {
        0
    } else {
        masked_sum(img, mask, n - 1) + if mask[n - 1] > 0 { img[n - 1] as int } else { 0 }
    }
}

pub open spec fn masked_count(mask: Seq<u8>, n: int) -> int
    decreases n,
{
    if n <= 0 {
        0
    } else {
        masked_count(mask, n - 1) + if mask[n - 1] > 0 { 1int } else { 0 }
    }
}

/// Mean of `img` over the cells where `mask` is non-zero (rounded down), 0
/// where the mask is empty.
pub open spec fn masked_mean(img: Seq<u32>, mask: Seq<u8>) -> int {
    let c = masked_count(mask, img.len() as int);
    if c == 0 { 0 } else { masked_sum(img, mask, img.len() as int) / c }
}

proof fn lemma_masked_sum_bound(img: Seq<u32>, mask: Seq<u8>, n: int)
    requires
        0 <= n <= img.len(),
    ensures
        masked_sum(img, mask, n) <= masked_count(mask, n) * 0xffff_ffff,
        0 <= masked_sum(img, mask, n),
        0 <= masked_count(mask, n),
    decreases n,
{
    if n > 0 {
        lemma_masked_sum_bound(img, mask, n - 1);
    }
}

/// Every value of `img` where `mask` is non-zero lies in `[lo, hi]`.
pub open spec fn masked_within(img: Seq<u32>, mask: Seq<u8>, lo: int, hi: int) -> bool {
    forall|j: int| 0 <= j < img.len() && mask[j] > 0 ==> lo <= #[trigger] img[j] <= hi
}

/// A mean over a mask with a set cell lies between the least and the
/// greatest of the values that the mask selects.
pub proof fn lemma_masked_mean_between(img: Seq<u32>, mask: Seq<u8>, lo: int, hi: int, set: int)
    requires
        masked_within(img, mask, lo, hi),
        0 <= set < img.len(),
        mask[set] > 0,
    ensures
        lo <= masked_mean(img, mask) <= hi,
{
    lemma_masked_sum_between(img, mask, lo, hi, img.len() as int);
    lemma_masked_count_positive(mask, set, img.len() as int);
    let c = masked_count(mask, img.len() as int);
    let s = masked_sum(img, mask, img.len() as int);
    assert(lo <= s / c <= hi) by (nonlinear_arith)
        requires c * lo <= s <= c * hi, c > 0;
}

proof fn lemma_masked_sum_between(img: Seq<u32>, mask: Seq<u8>, lo: int, hi: int, n: int)
    requires
        masked_within(img, mask, lo, hi),
        0 <= n <= img.len(),
    ensures
        masked_count(mask, n) * lo <= masked_sum(img, mask, n) <= masked_count(mask, n) * hi,
    decreases n,
{
    if n > 0 {
        lemma_masked_sum_between(img, mask, lo, hi, n - 1);
        let c = masked_count(mask, n - 1);
        if mask[n - 1] > 0 {
            assert(lo <= img[n - 1] <= hi);
            assert((c + 1) * lo == c * lo + lo && (c + 1) * hi == c * hi + hi) by (nonlinear_arith);
        }
    }
}

proof fn lemma_masked_count_positive(mask: Seq<u8>, set: int, n: int)
    requires
        0 <= set < n,
        mask[set] > 0,
    ensures
        masked_count(mask, n) > 0,
    decreases n,
{
    if n - 1 > set {
        lemma_masked_count_positive(mask, set, n - 1);
    }
    lemma_masked_count_nonneg(mask, n - 1);
}

proof fn lemma_masked_count_nonneg(mask: Seq<u8>, n: int)
    ensures
        masked_count(mask, n) >= 0,
    decreases n,
{
    if n > 0 {
        lemma_masked_count_nonneg(mask, n - 1);
    }
}

/// A masked mean is a `u32`.
pub proof fn lemma_masked_mean_range(img: Seq<u32>, mask: Seq<u8>)
    ensures
        0 <= masked_mean(img, mask) <= u32::MAX,
{
    lemma_masked_sum_bound(img, mask, img.len() as int);
    let c = masked_count(mask, img.len() as int);
    let s = masked_sum(img, mask, img.len() as int);
    if c > 0 {
        assert(0 <= s / c <= 0xffff_ffff) by (nonlinear_arith)
            requires s <= c * 0xffff_ffff, c > 0, s >= 0;
    }
}

/// A mean over a mask never exceeds a bound of all the values.
pub proof fn lemma_masked_mean_bounded(img: Seq<u32>, mask: Seq<u8>, m: int)
    requires
        img.len() <= mask.len(),
        forall|i: int| 0 <= i < img.len() ==> #[trigger] img[i] <= m,
    ensures
        masked_mean(img, mask) <= m || masked_count(mask, img.len() as int) == 0,
        masked_count(mask, img.len() as int) == 0 ==> masked_mean(img, mask) == 0,
{
    lemma_masked_sum_bounded_by(img, mask, img.len() as int, m);
    lemma_masked_sum_bound(img, mask, img.len() as int);
    let c = masked_count(mask, img.len() as int);
    let s = masked_sum(img, mask, img.len() as int);
    if c > 0 {
        assert(s / c <= m) by (nonlinear_arith)
            requires s <= c * m, c > 0, s >= 0;
    }
}

proof fn lemma_masked_sum_bounded_by(img: Seq<u32>, mask: Seq<u8>, n: int, m: int)
    requires
        0 <= n <= img.len(),
        n <= mask.len(),
        forall|i: int| 0 <= i < img.len() ==> #[trigger] img[i] <= m,
    ensures
        masked_sum(img, mask, n) <= masked_count(mask, n) * m,
    decreases n,
{
    if n > 0 {
        lemma_masked_sum_bounded_by(img, mask, n - 1, m);
        assert(masked_count(mask, n) * m == masked_count(mask, n - 1) * m + (if mask[n - 1] > 0 { m } else { 0 })) by (nonlinear_arith)
            requires masked_count(mask, n) == masked_count(mask, n - 1) + if mask[n - 1] > 0 { 1int } else { 0 };
    }
}

} // verus!
