//! Orientation votes: per-region 0/180 degree classification results and
//! the optional global majority override.
use vstd::prelude::*;
use crate::ocr_result::Angle;

verus! {

/// Number of classes of the orientation classifier (0 and 180 degrees).
pub const ANGLE_COLS: usize = 2;

/// First index of the largest of the first `n` values, with that value;
/// `(0, 0)` when `n` is 0.
pub open spec fn argmax_prefix(v: Seq<u32>, n: int) -> (int, u32)
    decreases n,
{
    if n <= 0 {
        (0, 0)
    } else if n == 1 {
        (0, v[0])
    } else {
        let (i, m) = argmax_prefix(v, n - 1);
        if v[n - 1] > m { (n - 1, v[n - 1]) } else { (i, m) }
    }
}

pub proof fn lemma_argmax_prefix(v: Seq<u32>, n: int)
    requires
        0 < n <= v.len(),
    ensures
        0 <= argmax_prefix(v, n).0 < n,
        argmax_prefix(v, n).1 == v[argmax_prefix(v, n).0],
        forall|j: int| 0 <= j < n ==> v[j] <= argmax_prefix(v, n).1,
        forall|j: int| 0 <= j < argmax_prefix(v, n).0 ==> v[j] < argmax_prefix(v, n).1,
    decreases n,
{
    if n > 1 {
        lemma_argmax_prefix(v, n - 1);
    }
}

/// Index and value of the largest of the first `n` values (the first such
/// index on ties).
pub fn argmax(v: &Vec<u32>, n: usize) -> (r: (usize, u32))
    requires
        n <= v@.len(),
    ensures
        r.0 == argmax_prefix(v@, n as int).0,
        r.1 == argmax_prefix(v@, n as int).1,
{
    if n == 0 {
        return (0, 0);
    }
    let mut best: usize = 0;
    let mut max_value: u32 = v[0];
    let mut i: usize = 1;
    while i < n
        invariant
            1 <= i <= n <= v@.len(),
            (best as int, max_value) == argmax_prefix(v@, i as int),
        decreases n - i,
    {
        if v[i] > max_value {
            best = i;
            max_value = v[i];
        }
        i = i + 1;
    }
    (best, max_value)
}

pub open spec fn score_to_angle_spec(output: Seq<u32>, angle_cols: int) -> Angle {
    let n = if output.len() < angle_cols { output.len() as int } else { angle_cols };
    let (i, m) = argmax_prefix(output, n);
    Angle { index: i as i32, score: m }
}

/// The classifier's answer: the class of highest score among the first
/// `angle_cols` outputs, and that score.
pub fn score_to_angle(output: &Vec<u32>, angle_cols: usize) -> (r: Angle)
    requires
        angle_cols <= i32::MAX,
    ensures
        r == score_to_angle_spec(output@, angle_cols as int),
{
    let n = if output.len() < angle_cols { output.len() } else { angle_cols };
    proof {
        if n > 0 {
            lemma_argmax_prefix(output@, n as int);
        }
    }
    let (i, m) = argmax(output, n);
    Angle { index: i as i32, score: m }
}

/// Sum of the indices of the first `k` angles.
pub open spec fn index_sum(a: Seq<Angle>, k: int) -> int
    decreases k,
{
    if k <= 0 { 0 } else { index_sum(a, k - 1) + a[k - 1].index }
}

/// The index that a majority vote over `a` gives to every region: 0 where
/// fewer than half of the regions say 1, else 1.
pub open spec fn majority_index(a: Seq<Angle>) -> i32 {
    if 2 * index_sum(a, a.len() as int) < a.len() { 0 } else { 1 }
}

pub open spec fn binary_indices(a: Seq<Angle>) -> bool {
    forall|i: int| 0 <= i < a.len() ==> 0 <= #[trigger] a[i].index <= 1
}

/// Overwrites every index with the majority vote; scores are left as they
/// were.
pub fn apply_most_angle(angles: &mut Vec<Angle>)
    requires
        binary_indices(old(angles)@),
        old(angles)@.len() <= 0x1000_0000,
    ensures
        final(angles)@.len() == old(angles)@.len(),
        forall|i: int| 0 <= i < final(angles)@.len() ==> (#[trigger] final(angles)@[i]).index == majority_index(old(angles)@),
        forall|i: int| 0 <= i < final(angles)@.len() ==> (#[trigger] final(angles)@[i]).score == old(angles)@[i].score,
{
    let ghost orig = angles@;
    let n = angles.len();
    let mut sum: u64 = 0;
    let mut i: usize = 0;
    while i < n
        invariant
            angles@ == orig,
            n == orig.len() <= 0x1000_0000,
            binary_indices(orig),
            0 <= i <= n,
            sum == index_sum(orig, i as int),
            sum <= i,
        decreases n - i,
    {
        sum = sum + angles[i].index as u64;
        i = i + 1;
    }
    let most: i32 = if 2 * sum < n as u64 { 0 } else { 1 };
    let mut j: usize = 0;
    while j < n
        invariant
            n == orig.len() == angles@.len(),
            most == majority_index(orig),
            0 <= j <= n,
            forall|q: int| 0 <= q < j ==> (#[trigger] angles@[q]).index == most,
            forall|q: int| 0 <= q < n ==> (#[trigger] angles@[q]).score == orig[q].score,
            forall|q: int| j <= q < n ==> (#[trigger] angles@[q]) == orig[q],
        decreases n - j,
    {
        let a = Angle { index: most, score: angles[j].score };
        angles.set(j, a);
        j = j + 1;
    }
}

pub open spec fn angles_spec(outputs: Seq<Seq<u32>>, part_count: int, do_angle: bool, most_angle: bool) -> Seq<Angle> {
    if !do_angle {
        Seq::new(part_count as nat, |i: int| Angle { index: 0, score: 0 })
    } else {
        let each = Seq::new(outputs.len(), |i: int| score_to_angle_spec(outputs[i], ANGLE_COLS as int));
        if most_angle {
            Seq::new(each.len(), |i: int| Angle { index: majority_index(each), score: each[i].score })
        } else {
            each
        }
    }
}

/// Orientation of each of `part_count` regions. Without `do_angle` every
/// region gets index 0 and score 0; with it, each region's classifier
/// output (`outputs`, one per region) gives its angle, and with
/// `most_angle` too the majority index then replaces every index.
pub fn get_angles(outputs: &Vec<Vec<u32>>, part_count: usize, do_angle: bool, most_angle: bool) -> (r: Vec<Angle>)
    requires
        do_angle ==> outputs@.len() == part_count,
        part_count <= 0x1000_0000,
    ensures
        r@ == angles_spec(outputs@.map_values(|o: Vec<u32>| o@), part_count as int, do_angle, most_angle),
{
    let ghost outs = outputs@.map_values(|o: Vec<u32>| o@);
    let mut angles: Vec<Angle> = Vec::new();
    if !do_angle {
        let mut i: usize = 0;
        while i < part_count
            invariant
                0 <= i <= part_count,
                angles@.len() == i,
                forall|q: int| 0 <= q < i ==> #[trigger] angles@[q] == (Angle { index: 0, score: 0 }),
            decreases part_count - i,
        {
            angles.push(Angle::new());
            i = i + 1;
        }
        assert(angles@ =~= angles_spec(outs, part_count as int, do_angle, most_angle));
        return angles;
    }
    let ghost each = Seq::new(outs.len(), |i: int| score_to_angle_spec(outs[i], ANGLE_COLS as int));
    let mut i: usize = 0;
    while i < outputs.len()
        invariant
            0 <= i <= outputs@.len() == part_count,
            outs == outputs@.map_values(|o: Vec<u32>| o@),
            each == Seq::new(outs.len(), |i: int| score_to_angle_spec(outs[i], ANGLE_COLS as int)),
            angles@.len() == i,
            forall|q: int| 0 <= q < i ==> #[trigger] angles@[q] == each[q],
            forall|q: int| 0 <= q < i ==> 0 <= (#[trigger] angles@[q]).index <= 1,
        decreases outputs@.len() - i,
    {
        let a = score_to_angle(&outputs[i], ANGLE_COLS);
        proof {
            let n = if outs[i as int].len() < 2 { outs[i as int].len() as int } else { 2 };
            if n > 0 {
                lemma_argmax_prefix(outs[i as int], n);
            }
        }
        angles.push(a);
        i = i + 1;
    }
    assert(angles@ =~= each);
    if most_angle {
        apply_most_angle(&mut angles);
        assert(angles@ =~= angles_spec(outs, part_count as int, do_angle, most_angle));
    }
    angles
}

} // verus!
