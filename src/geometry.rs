use vstd::prelude::*;
use crate::ocr_result::Point;

verus! {

/// Coordinates handed to imageproc stay strictly within this magnitude: its
/// convex hull takes cross products of coordinate differences in `i32`.
pub const COORD_LIMIT: i32 = 8192;

pub open spec fn point_bounded(p: Point) -> bool {
    -COORD_LIMIT < p.x < COORD_LIMIT && -COORD_LIMIT < p.y < COORD_LIMIT
}

pub open spec fn points_bounded(s: Seq<Point>) -> bool {
    forall|i: int| 0 <= i < s.len() ==> point_bounded(#[trigger] s[i])
}

// ---------------------------------------------------------------------------
// Integer square root

/// `r` is the integer square root of `n`.
pub open spec fn is_isqrt(n: int, r: int) -> bool {
    r >= 0 && r * r <= n < (r + 1) * (r + 1)
}

/// Floor of the square root of `n`.
pub fn isqrt(n: u128) -> (r: u128)
    requires
        n < 0x1_0000_0000_0000_0000_0000_0000,
    ensures
        is_isqrt(n as int, r as int),
{
    let mut lo: u128 = 0;
    let mut hi: u128 = 0x1_0000_0000_0000;
    assert(hi * hi > n) by (nonlinear_arith)
        requires hi == 0x1_0000_0000_0000, n < 0x1_0000_0000_0000_0000_0000_0000;
    while lo + 1 < hi
        invariant
            lo < hi <= 0x1_0000_0000_0000,
            lo * lo <= n,
            n < hi * hi,
        decreases hi - lo,
    {
        let mid = lo + (hi - lo) / 2;
        assert(mid * mid <= 0x1_0000_0000_0000 * 0x1_0000_0000_0000) by (nonlinear_arith)
            requires mid <= 0x1_0000_0000_0000;
        if mid * mid <= n {
            lo = mid;
        } else {
            hi = mid;
        }
    }
    assert(hi == lo + 1);
    lo
}

// ---------------------------------------------------------------------------
// Distances, area, perimeter

/// Squared Euclidean distance between two points.
pub open spec fn dist2(a: Point, b: Point) -> int {
    (a.x - b.x) * (a.x - b.x) + (a.y - b.y) * (a.y - b.y)
}

pub fn dist2_exec(a: Point, b: Point) -> (r: u128)
    ensures
        r == dist2(a, b),
        r <= 0x2_0000_0000_0000_0000,
{
    let dx = a.x as i128 - b.x as i128;
    let dy = a.y as i128 - b.y as i128;
    assert(0 <= dx * dx <= 0x1_0000_0000 * 0x1_0000_0000) by (nonlinear_arith)
        requires -0x1_0000_0000 <= dx <= 0x1_0000_0000;
    assert(0 <= dy * dy <= 0x1_0000_0000 * 0x1_0000_0000) by (nonlinear_arith)
        requires -0x1_0000_0000 <= dy <= 0x1_0000_0000;
    (dx * dx + dy * dy) as u128
}

/// Twice the signed area of the closed polygon `s`, by the trapezoid rule:
/// the sum over edges `i -> i+1` of `(x[i+1] - x[i]) * (y[i+1] + y[i])`.
pub open spec fn signed_area2(s: Seq<Point>) -> int
    decreases s.len(),
{
    if s.len() < 2 {
        0
    } else {
        let n = s.len() as int;
        signed_area2_edges(s, n)
    }
}

/// Sum of the trapezoid terms of the first `k` edges of the closed polygon `s`.
pub open spec fn signed_area2_edges(s: Seq<Point>, k: int) -> int
    decreases k,
{
    if k <= 0 {
        0
    } else {
        let a = s[k - 1];
        let b = s[k % s.len() as int];
        signed_area2_edges(s, k - 1) + (b.x - a.x) * (b.y + a.y)
    }
}

/// Twice the signed area of a closed polygon (the sign gives its orientation).
pub fn signed_polygon_area(points: &Vec<Point>) -> (r: i128)
    requires
        points@.len() <= 0x1_0000_0000,
    ensures
        r == signed_area2(points@),
{
    let n = points.len();
    if n < 2 {
        return 0;
    }
    let mut area: i128 = 0;
    let mut i: usize = 0;
    while i < n
        invariant
            2 <= n == points@.len() <= 0x1_0000_0000,
            0 <= i <= n,
            area == signed_area2_edges(points@, i as int),
            -i * 0x8_0000_0000_0000_0000 <= area <= i * 0x8_0000_0000_0000_0000,
        decreases n - i,
    {
        let a = points[i];
        let b = points[(i + 1) % n];
        let dx = b.x as i128 - a.x as i128;
        let sy = b.y as i128 + a.y as i128;
        assert(-0x8_0000_0000_0000_0000 <= dx * sy <= 0x8_0000_0000_0000_0000) by (nonlinear_arith)
            requires -0x1_0000_0000 <= dx <= 0x1_0000_0000, -0x1_0000_0000 <= sy <= 0x1_0000_0000;
        area = area + dx * sy;
        i = i + 1;
    }
    area
}

/// Side `i -> i+1` of the closed polygon `s`, in thousandths of a pixel
/// (floor of the exact length).
pub open spec fn side_milli(s: Seq<Point>, i: int) -> int
    recommends
        0 <= i < s.len(),
{
    let a = s[i];
    let b = s[(i + 1) % s.len() as int];
    sqrt_floor(dist2(a, b) * 1000000)
}

/// The floor of the square root of `n >= 0`.
pub open spec fn sqrt_floor(n: int) -> int {
    choose|r: int| #[trigger] is_isqrt(n, r)
}

/// Perimeter of the first `k` sides of the closed polygon `s`, each side
/// taken in thousandths of a pixel.
pub open spec fn perimeter_milli_prefix(s: Seq<Point>, k: int) -> int
    decreases k,
{
    if k <= 0 {
        0
    } else {
        perimeter_milli_prefix(s, k - 1) + side_milli(s, k - 1)
    }
}

pub open spec fn perimeter_milli(s: Seq<Point>) -> int {
    perimeter_milli_prefix(s, s.len() as int)
}

/// Integer square roots are unique.
pub proof fn lemma_isqrt_unique(n: int, r1: int, r2: int)
    requires
        is_isqrt(n, r1),
        is_isqrt(n, r2),
    ensures
        r1 == r2,
{
    if r1 < r2 {
        assert((r1 + 1) * (r1 + 1) <= r2 * r2) by (nonlinear_arith)
            requires 0 <= r1 < r2;
    } else if r2 < r1 {
        assert((r2 + 1) * (r2 + 1) <= r1 * r1) by (nonlinear_arith)
            requires 0 <= r2 < r1;
    }
}

/// Perimeter of a closed polygon in thousandths of a pixel: each side is its
/// exact length times 1000, rounded down.
pub fn length_of_points(points: &Vec<Point>) -> (r: u128)
    requires
        points@.len() <= 0x1_0000,
    ensures
        r == perimeter_milli(points@),
        r <= points@.len() * 0x1_0000_0000_0000,
{
    let n = points.len();
    let mut length: u128 = 0;
    let mut i: usize = 0;
    while i < n
        invariant
            n == points@.len() <= 0x1_0000,
            0 <= i <= n,
            length == perimeter_milli_prefix(points@, i as int),
            length <= i * 0x1_0000_0000_0000,
        decreases n - i,
    {
        let a = points[i];
        let b = points[(i + 1) % n];
        let d = dist2_exec(a, b);
        assert(d * 1000000 < 0x1_0000_0000_0000_0000_0000_0000) by (nonlinear_arith)
            requires d <= 0x2_0000_0000_0000_0000;
        let s = isqrt(d * 1000000);
        assert(s < 0x1_0000_0000_0000) by (nonlinear_arith)
            requires s * s <= d * 1000000, d * 1000000 < 0x1_0000_0000_0000_0000_0000_0000, s >= 0;
        proof {
            assert(is_isqrt(dist2(a, b) * 1000000, s as int));
            lemma_isqrt_unique(dist2(a, b) * 1000000, sqrt_floor(dist2(a, b) * 1000000), s as int);
        }
        length = length + s;
        i = i + 1;
    }
    length
}

// ---------------------------------------------------------------------------
// Canonical corner order

/// `p[j]` precedes `p[i]` when `p` is sorted by ascending x, ties kept in
/// their original order.
pub open spec fn x_before(p: Seq<Point>, j: int, i: int) -> bool {
    p[j].x < p[i].x || (p[j].x == p[i].x && j < i)
}

pub open spec fn ind(b: bool) -> int {
    if b { 1 } else { 0 }
}

/// Position of `p[i]` once the four points of `p` are stably sorted by x.
pub open spec fn x_rank(p: Seq<Point>, i: int) -> int {
    ind(x_before(p, 0, i)) + ind(x_before(p, 1, i)) + ind(x_before(p, 2, i)) + ind(
        x_before(p, 3, i),
    )
}

/// The four points of `p` stably sorted by ascending x.
pub open spec fn x_sorted(p: Seq<Point>) -> Seq<Point> {
    Seq::new(4, |k: int| p[choose|i: int| 0 <= i < 4 && #[trigger] x_rank(p, i) == k])
}

/// Corner order of four points already sorted by x: the left pair takes
/// slots 0 and 3, the right pair slots 1 and 2, and within each pair the
/// point with the smaller y comes first (slot 0, resp. slot 1); on equal y
/// the later point of the pair comes first.
pub open spec fn order_sorted_box(s: Seq<Point>) -> Seq<Point> {
    let (i1, i4) = if s[1].y > s[0].y { (0int, 1int) } else { (1int, 0int) };
    let (i2, i3) = if s[3].y > s[2].y { (2int, 3int) } else { (3int, 2int) };
    seq![s[i1], s[i2], s[i3], s[i4]]
}

/// Canonical order of the four corners of a box.
pub open spec fn canonical_order(p: Seq<Point>) -> Seq<Point> {
    order_sorted_box(x_sorted(p))
}

fn x_before_exec(p: &Vec<Point>, j: usize, i: usize) -> (r: bool)
    requires
        j < p@.len(),
        i < p@.len(),
    ensures
        r == x_before(p@, j as int, i as int),
{
    p[j].x < p[i].x || (p[j].x == p[i].x && j < i)
}

fn x_rank_exec(p: &Vec<Point>, i: usize) -> (r: usize)
    requires
        p@.len() == 4,
        i < 4,
    ensures
        r == x_rank(p@, i as int),
{
    let mut r: usize = 0;
    if x_before_exec(p, 0, i) { r = r + 1; }
    if x_before_exec(p, 1, i) { r = r + 1; }
    if x_before_exec(p, 2, i) { r = r + 1; }
    if x_before_exec(p, 3, i) { r = r + 1; }
    r
}

/// Some point of `p` has x-rank `k`.
pub open spec fn rank_taken(p: Seq<Point>, k: int) -> bool {
    exists|i: int| 0 <= i < 4 && #[trigger] x_rank(p, i) == k
}

/// The x-ranks of four points are `0, 1, 2, 3` in some order.
proof fn lemma_x_rank_permutation(p: Seq<Point>)
    requires
        p.len() == 4,
    ensures
        forall|i: int| 0 <= i < 4 ==> 0 <= #[trigger] x_rank(p, i) < 4,
        forall|i: int, j: int| 0 <= i < 4 && 0 <= j < 4 && i != j ==> x_rank(p, i) != x_rank(p, j),
        forall|k: int| 0 <= k < 4 ==> #[trigger] rank_taken(p, k),
        forall|i: int| 0 <= i < 4 ==> #[trigger] x_sorted(p)[x_rank(p, i)] == p[i],
{
    let r0 = x_rank(p, 0);
    let r1 = x_rank(p, 1);
    let r2 = x_rank(p, 2);
    let r3 = x_rank(p, 3);
    assert(r0 != r1 && r0 != r2 && r0 != r3 && r1 != r2 && r1 != r3 && r2 != r3);
    assert forall|k: int| 0 <= k < 4 implies #[trigger] rank_taken(p, k) by {
        if r0 == k {
            assert(x_rank(p, 0) == k);
        } else if r1 == k {
            assert(x_rank(p, 1) == k);
        } else if r2 == k {
            assert(x_rank(p, 2) == k);
        } else {
            assert(x_rank(p, 3) == k);
        }
    }
    assert forall|i: int| 0 <= i < 4 implies #[trigger] x_sorted(p)[x_rank(p, i)] == p[i] by {
        let k = x_rank(p, i);
        let c = choose|c: int| 0 <= c < 4 && #[trigger] x_rank(p, c) == k;
        assert(x_rank(p, c) == k);
    }
}

/// Puts the four corners of a box in canonical order: sorted by x, the two
/// leftmost take slots 0 and 3 and the two rightmost slots 1 and 2, each
/// pair ordered by y.
pub fn order_box_points(p: &Vec<Point>) -> (r: Vec<Point>)
    requires
        p@.len() == 4,
    ensures
        r@ == canonical_order(p@),
{
    proof {
        lemma_x_rank_permutation(p@);
    }
    let ranks = [x_rank_exec(p, 0), x_rank_exec(p, 1), x_rank_exec(p, 2), x_rank_exec(p, 3)];
    let mut sorted: Vec<Point> = Vec::new();
    let mut k: usize = 0;
    while k < 4
        invariant
            0 <= k <= 4,
            p@.len() == 4,
            ranks@ == seq![x_rank(p@, 0), x_rank(p@, 1), x_rank(p@, 2), x_rank(p@, 3)].map_values(|v: int| v as usize),
            forall|i: int| 0 <= i < 4 ==> 0 <= #[trigger] x_rank(p@, i) < 4,
            forall|i: int| 0 <= i < 4 ==> #[trigger] x_sorted(p@)[x_rank(p@, i)] == p@[i],
            forall|q: int| 0 <= q < 4 ==> #[trigger] rank_taken(p@, q),
            sorted@.len() == k,
            forall|q: int| 0 <= q < k ==> sorted@[q] == x_sorted(p@)[q],
        decreases 4 - k,
    {
        let ghost kk = k as int;
        assert(rank_taken(p@, kk));
        let mut i: usize = 0;
        while ranks[i] != k
            invariant
                0 <= i < 4,
                0 <= k < 4,
                p@.len() == 4,
                ranks@ == seq![x_rank(p@, 0), x_rank(p@, 1), x_rank(p@, 2), x_rank(p@, 3)].map_values(|v: int| v as usize),
                forall|j: int| 0 <= j < 4 ==> 0 <= #[trigger] x_rank(p@, j) < 4,
                exists|j: int| i <= j < 4 && #[trigger] x_rank(p@, j) == k,
            decreases 4 - i,
        {
            i = i + 1;
        }
        sorted.push(p[i]);
        k = k + 1;
    }
    let s = sorted;
    let (i1, i4) = if s[1].y > s[0].y { (0usize, 1usize) } else { (1usize, 0usize) };
    let (i2, i3) = if s[3].y > s[2].y { (2usize, 3usize) } else { (3usize, 2usize) };
    let r = vec![s[i1], s[i2], s[i3], s[i4]];
    assert(s@ =~= x_sorted(p@));
    assert(r@ =~= canonical_order(p@));
    r
}

/// The multiset of a four-point sequence, built point by point.
proof fn lemma_seq4_multiset(a: Seq<Point>)
    requires
        a.len() == 4,
    ensures
        a.to_multiset() == Seq::<Point>::empty().to_multiset().insert(a[0]).insert(a[1]).insert(a[2]).insert(
            a[3],
        ),
{
    broadcast use vstd::seq_lib::group_to_multiset_ensures;

    let e = Seq::<Point>::empty();
    assert(a =~= e.push(a[0]).push(a[1]).push(a[2]).push(a[3]));
}

/// The canonical order permutes its four points.
proof fn lemma_canonical_order_multiset(p: Seq<Point>)
    requires
        p.len() == 4,
    ensures
        canonical_order(p).to_multiset() == p.to_multiset(),
{
    lemma_x_rank_permutation(p);
    let s = x_sorted(p);
    let r = canonical_order(p);
    let e = Seq::<Point>::empty().to_multiset();
    lemma_seq4_multiset(p);
    lemma_seq4_multiset(s);
    lemma_seq4_multiset(r);
    let r0 = x_rank(p, 0);
    let r1 = x_rank(p, 1);
    let r2 = x_rank(p, 2);
    let r3 = x_rank(p, 3);
    assert(s[r0] == p[0] && s[r1] == p[1] && s[r2] == p[2] && s[r3] == p[3]);
    assert(s.to_multiset() =~= p.to_multiset());
    assert(r.to_multiset() =~= s.to_multiset());
}

/// Of any four points, the canonical order puts the two of lowest x (stable
/// order on ties) in slots 0 and 3 and the other two in slots 1 and 2; the
/// y of slot 0 is at most that of slot 3, the y of slot 1 at most that of
/// slot 2; each slot holds one of the input points and each input point
/// fills a slot.
pub proof fn lemma_canonical_order(p: Seq<Point>)
    requires
        p.len() == 4,
    ensures
        canonical_order(p).len() == 4,
        ({
            let r = canonical_order(p);
            &&& r[0].x <= r[1].x && r[0].x <= r[2].x
            &&& r[3].x <= r[1].x && r[3].x <= r[2].x
            &&& r[0].y <= r[3].y
            &&& r[1].y <= r[2].y
            &&& forall|k: int| 0 <= k < 4 ==> p.contains(#[trigger] r[k])
            &&& forall|i: int| 0 <= i < 4 ==> r.contains(#[trigger] p[i])
            &&& r.to_multiset() == p.to_multiset()
        }),
{
    lemma_canonical_order_multiset(p);
    lemma_x_rank_permutation(p);
    let s = x_sorted(p);
    let r = canonical_order(p);
    // s is sorted by x
    assert forall|a: int, b: int| 0 <= a < b < 4 implies s[a].x <= s[b].x by {
        assert(rank_taken(p, a));
        assert(rank_taken(p, b));
        let ia = choose|i: int| 0 <= i < 4 && #[trigger] x_rank(p, i) == a;
        let ib = choose|i: int| 0 <= i < 4 && #[trigger] x_rank(p, i) == b;
        assert(s[x_rank(p, ia)] == p[ia]);
        assert(s[x_rank(p, ib)] == p[ib]);
    }
    assert forall|k: int| 0 <= k < 4 implies p.contains(#[trigger] s[k]) by {
        assert(rank_taken(p, k));
        let i = choose|i: int| 0 <= i < 4 && #[trigger] x_rank(p, i) == k;
        assert(s[x_rank(p, i)] == p[i]);
    }
    assert forall|i: int| 0 <= i < 4 implies r.contains(#[trigger] p[i]) by {
        assert(s[x_rank(p, i)] == p[i]);
        let k = x_rank(p, i);
        if k == 0 || k == 1 {
            if r[0] == s[k] { assert(r[0] == p[i]); } else { assert(r[3] == p[i]); }
        } else {
            if r[1] == s[k] { assert(r[1] == p[i]); } else { assert(r[2] == p[i]); }
        }
    }
    assert forall|k: int| 0 <= k < 4 implies p.contains(#[trigger] r[k]) by {
        assert(exists|q: int| 0 <= q < 4 && r[k] == s[q]);
        let q = choose|q: int| 0 <= q < 4 && r[k] == s[q];
        assert(p.contains(s[q]));
    }
}

// ---------------------------------------------------------------------------
// Duplicate removal

/// `s` with every point after its first occurrence removed.
pub open spec fn dedup_points(s: Seq<Point>) -> Seq<Point>
    decreases s.len(),
{
    if s.len() == 0 {
        s
    } else {
        let d = dedup_points(s.drop_last());
        if d.contains(s.last()) { d } else { d.push(s.last()) }
    }
}

proof fn lemma_dedup_points(s: Seq<Point>)
    ensures
        dedup_points(s).no_duplicates(),
        dedup_points(s).len() <= s.len(),
        s.len() > 0 ==> dedup_points(s).len() > 0,
        forall|i: int| 0 <= i < dedup_points(s).len() ==> s.contains(#[trigger] dedup_points(s)[i]),
    decreases s.len(),
{
    if s.len() > 0 {
        let t = s.drop_last();
        lemma_dedup_points(t);
        let d = dedup_points(t);
        assert forall|i: int| 0 <= i < dedup_points(s).len() implies s.contains(#[trigger] dedup_points(s)[i]) by {
            if i < d.len() {
                assert(t.contains(d[i]));
                let j = choose|j: int| 0 <= j < t.len() && t[j] == d[i];
                assert(s[j] == d[i]);
            } else {
                assert(s[s.len() - 1] == s.last());
            }
        }
    }
}

/// The points of `points`, each kept at its first occurrence only.
pub fn dedup(points: &Vec<Point>) -> (r: Vec<Point>)
    ensures
        r@ == dedup_points(points@),
        r@.no_duplicates(),
        r@.len() <= points@.len(),
        points@.len() > 0 ==> r@.len() > 0,
        points_bounded(points@) ==> points_bounded(r@),
{
    proof {
        lemma_dedup_points(points@);
    }
    let mut r: Vec<Point> = Vec::new();
    let mut i: usize = 0;
    while i < points.len()
        invariant
            0 <= i <= points@.len(),
            r@ == dedup_points(points@.subrange(0, i as int)),
        decreases points@.len() - i,
    {
        let p = points[i];
        let mut found = false;
        let mut j: usize = 0;
        while j < r.len()
            invariant
                0 <= j <= r@.len(),
                found == exists|q: int| 0 <= q < j && r@[q] == p,
            decreases r@.len() - j,
        {
            if r[j] == p {
                found = true;
            }
            j = j + 1;
        }
        proof {
            let t = points@.subrange(0, i as int + 1);
            assert(t.drop_last() =~= points@.subrange(0, i as int));
            assert(t.last() == p);
        }
        if !found {
            r.push(p);
        }
        i = i + 1;
    }
    assert(points@.subrange(0, points@.len() as int) =~= points@);
    proof {
        lemma_dedup_points(points@);
        if points_bounded(points@) {
            assert forall|q: int| 0 <= q < r@.len() implies point_bounded(#[trigger] r@[q]) by {
                assert(points@.contains(r@[q]));
            }
        }
    }
    r
}

} // verus!
