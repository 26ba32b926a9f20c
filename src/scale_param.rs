use vstd::prelude::*;

verus! {

/// Sizes of the source image and of the detector input, which is a multiple
/// of 32 on each side. The scale factors are `dst_width / src_width` and
/// `dst_height / src_height`.
#[derive(Clone, Copy, Debug, PartialEq, Eq, Structural)]
pub struct ScaleParam {
    pub src_width: i32,
    pub src_height: i32,
    pub dst_width: i32,
    pub dst_height: i32,
}

/// The largest multiple of 32 not above `t`, and at least 32.
pub open spec fn stride_floor(t: int) -> int {
    if t / 32 * 32 < 32 { 32 } else { t / 32 * 32 }
}

/// The side proportional to `side` when the longer side is resized to `size`.
pub open spec fn proportional(side: int, longest: int, size: int) -> int {
    side * size / longest
}

pub open spec fn scale_param_spec(src_width: int, src_height: int, dst_size: int) -> ScaleParam {
    let (tw, th) = if src_width > src_height {
        (dst_size, proportional(src_height, src_width, dst_size))
    } else {
        (proportional(src_width, src_height, dst_size), dst_size)
    };
    ScaleParam {
        src_width: src_width as i32,
        src_height: src_height as i32,
        dst_width: stride_floor(tw) as i32,
        dst_height: stride_floor(th) as i32,
    }
}

/// `round(v * num / den)` for `v >= 0`, clamped to `[0, num]`.
pub open spec fn map_back(v: int, num: int, den: int) -> int {
    if v <= 0 {
        0
    } else {
        let r = (2 * (v * num) + den) / (2 * den);
        if r > num { num } else { r }
    }
}

fn stride_floor_exec(t: i32) -> (r: i32)
    requires
        t >= 0,
    ensures
        r == stride_floor(t as int),
{
    let q: i32 = t / 32 * 32;
    if q < 32 { 32 } else { q }
}

impl ScaleParam {
    pub fn new(src_width: i32, src_height: i32, dst_width: i32, dst_height: i32) -> (r: ScaleParam)
        ensures
            r == (ScaleParam { src_width, src_height, dst_width, dst_height }),
    {
        ScaleParam { src_width, src_height, dst_width, dst_height }
    }

    pub fn src_width(&self) -> (r: i32)
        ensures
            r == self.src_width,
    {
        self.src_width
    }

    pub fn src_height(&self) -> (r: i32)
        ensures
            r == self.src_height,
    {
        self.src_height
    }

    pub fn dst_width(&self) -> (r: i32)
        ensures
            r == self.dst_width,
    {
        self.dst_width
    }

    pub fn dst_height(&self) -> (r: i32)
        ensures
            r == self.dst_height,
    {
        self.dst_height
    }

    pub open spec fn wf(&self) -> bool {
        &&& self.src_width > 0
        &&& self.src_height > 0
        &&& self.dst_width >= 32
        &&& self.dst_height >= 32
        &&& self.dst_width % 32 == 0
        &&& self.dst_height % 32 == 0
    }

    /// Sizes for a source of `src_width` x `src_height` whose longer side is
    /// resized to `dst_size`, each side then taken down to a multiple of 32
    /// (and no less than 32).
    pub fn get_scale_param(src_width: i32, src_height: i32, dst_size: i32) -> (r: ScaleParam)
        requires
            src_width > 0,
            src_height > 0,
            dst_size > 0,
        ensures
            r == scale_param_spec(src_width as int, src_height as int, dst_size as int),
            r.wf(),
    {
        let w = src_width as i64;
        let h = src_height as i64;
        let size = dst_size as i64;
        let tw: i64;
        let th: i64;
        if src_width > src_height {
            tw = size;
            assert(0 <= h * size <= 0x7fff_ffff * 0x7fff_ffff) by (nonlinear_arith)
                requires 0 < h < 0x8000_0000, 0 < size < 0x8000_0000;
            assert(0 <= (h * size) as int / (w as int) <= size) by (nonlinear_arith)
                requires 0 < h < w, size > 0;
            th = h * size / w;
        } else {
            assert(0 <= w * size <= 0x7fff_ffff * 0x7fff_ffff) by (nonlinear_arith)
                requires 0 < w < 0x8000_0000, 0 < size < 0x8000_0000;
            assert(0 <= (w * size) as int / (h as int) <= size) by (nonlinear_arith)
                requires 0 < w <= h, size > 0;
            tw = w * size / h;
            th = size;
        }
        let dw = stride_floor_exec(tw as i32);
        let dh = stride_floor_exec(th as i32);
        ScaleParam { src_width, src_height, dst_width: dw, dst_height: dh }
    }

    /// Maps an x coordinate of the detector input back to the source image:
    /// `round(x / scale_x)`, clamped to `[0, src_width]`.
    pub fn to_src_x(&self, x: i32) -> (r: i32)
        requires
            self.wf(),
        ensures
            r == map_back(x as int, self.src_width as int, self.dst_width as int),
            0 <= r <= self.src_width,
    {
        map_back_exec(x, self.src_width, self.dst_width)
    }

    /// Maps a y coordinate of the detector input back to the source image:
    /// `round(y / scale_y)`, clamped to `[0, src_height]`.
    pub fn to_src_y(&self, y: i32) -> (r: i32)
        requires
            self.wf(),
        ensures
            r == map_back(y as int, self.src_height as int, self.dst_height as int),
            0 <= r <= self.src_height,
    {
        map_back_exec(y, self.src_height, self.dst_height)
    }
}

fn map_back_exec(v: i32, num: i32, den: i32) -> (r: i32)
    requires
        num > 0,
        den > 0,
    ensures
        r == map_back(v as int, num as int, den as int),
        0 <= r <= num,
{
    if v <= 0 {
        return 0;
    }
    assert(0 < (v as int) * (num as int) <= 0x7fff_ffff * 0x7fff_ffff) by (nonlinear_arith)
        requires 0 < v < 0x8000_0000, 0 < num < 0x8000_0000;
    let vn = (v as i64) * (num as i64);
    let a = 2 * vn + den as i64;
    let b = 2 * (den as i64);
    assert(0 <= a as int / b as int) by (nonlinear_arith)
        requires a >= 0, b > 0;
    let r = a / b;
    if r > num as i64 { num } else { r as i32 }
}

/// Length of the longer side given to the detector: the source's longer side,
/// or `max_side_len` where that is positive and smaller, plus the padding on
/// both ends.
pub open spec fn detect_resize_spec(width: int, height: int, max_side_len: int, padding: int) -> int {
    let longest = if width > height { width } else { height };
    let side = if max_side_len > 0 && max_side_len < longest { max_side_len } else { longest };
    side + 2 * padding
}

pub fn detect_resize(width: u32, height: u32, max_side_len: u32, padding: u32) -> (r: u64)
    ensures
        r == detect_resize_spec(width as int, height as int, max_side_len as int, padding as int),
{
    let longest = if width > height { width } else { height };
    let side = if max_side_len > 0 && max_side_len < longest { max_side_len } else { longest };
    side as u64 + 2 * (padding as u64)
}

} // verus!
