//! The orchestrator's decisions: which strips are turned and kept for
//! rollback, and the assembly of the final records in source-image space.
use vstd::prelude::*;
use crate::ocr_result::{Angle, OcrResult, Point, TextBlock, TextBox, TextLine};

verus! {

/// What is done to one strip after the orientation vote.
#[derive(Clone, Copy, Debug, PartialEq, Eq, Structural)]
pub struct StripAction {
    /// Turn the strip by 180 degrees.
    pub rotate: bool,
    /// Keep the strip as it was before turning, for the rollback.
    pub keep_original: bool,
}

/// Strips whose angle index is 1 are turned; with rollback enabled, the
/// unturned copy of each is kept.
pub fn rotation_plan(angles: &Vec<Angle>, angle_rollback: bool) -> (r: Vec<StripAction>)
    ensures
        r@.len() == angles@.len(),
        forall|i: int| 0 <= i < r@.len() ==> (#[trigger] r@[i]).rotate == (angles@[i].index == 1),
        forall|i: int| 0 <= i < r@.len() ==> (#[trigger] r@[i]).keep_original == (angles@[i].index == 1 && angle_rollback),
{
    let mut r: Vec<StripAction> = Vec::new();
    let mut i: usize = 0;
    while i < angles.len()
        invariant
            0 <= i <= angles@.len(),
            r@.len() == i,
            forall|q: int| 0 <= q < i ==> (#[trigger] r@[q]).rotate == (angles@[q].index == 1),
            forall|q: int| 0 <= q < i ==> (#[trigger] r@[q]).keep_original == (angles@[q].index == 1 && angle_rollback),
        decreases angles@.len() - i,
    {
        let rotate = angles[i].index == 1;
        r.push(StripAction { rotate, keep_original: rotate && angle_rollback });
        i = i + 1;
    }
    r
}

/// `s` moved by `-padding` on both axes.
pub open spec fn unpad(s: Seq<Point>, padding: int) -> Seq<Point> {
    s.map_values(|p: Point| Point { x: (p.x - padding) as i32, y: (p.y - padding) as i32 })
}

pub open spec fn nonneg_boxes(boxes: Seq<TextBox>) -> bool {
    forall|i: int, j: int|
        0 <= i < boxes.len() && 0 <= j < boxes[i].points@.len() ==> 0 <= (#[trigger] boxes[i].points@[j]).x
            && 0 <= boxes[i].points@[j].y
}

/// Block `i` joins box `i` (its corners moved back by the padding),
/// angle `i` and line `i`.
pub open spec fn block_ok(b: TextBlock, t: TextBox, a: Angle, l: TextLine, padding: int) -> bool {
    &&& b.box_points@ == unpad(t.points@, padding)
    &&& b.box_score == t.score
    &&& b.angle_index == a.index
    &&& b.angle_score == a.score
    &&& b.text@ == l.text@
    &&& b.text_score == l.text_score
}

fn unpad_points(points: &Vec<Point>, padding: i32) -> (r: Vec<Point>)
    requires
        padding >= 0,
        forall|j: int| 0 <= j < points@.len() ==> 0 <= (#[trigger] points@[j]).x && 0 <= points@[j].y,
    ensures
        r@ == unpad(points@, padding as int),
{
    let mut r: Vec<Point> = Vec::new();
    let mut j: usize = 0;
    while j < points.len()
        invariant
            padding >= 0,
            forall|q: int| 0 <= q < points@.len() ==> 0 <= (#[trigger] points@[q]).x && 0 <= points@[q].y,
            0 <= j <= points@.len(),
            r@.len() == j,
            forall|q: int| 0 <= q < j ==> r@[q] == #[trigger] unpad(points@, padding as int)[q],
        decreases points@.len() - j,
    {
        let p = points[j];
        r.push(Point { x: p.x - padding, y: p.y - padding });
        j = j + 1;
    }
    assert(r@ =~= unpad(points@, padding as int));
    r
}

/// The final records: one per region, in box order, with the box corners
/// taken back from the padded image to the source image.
pub fn assemble_text_blocks(
    boxes: &Vec<TextBox>,
    angles: &Vec<Angle>,
    lines: &Vec<TextLine>,
    padding: u32,
) -> (r: OcrResult)
    requires
        boxes@.len() == angles@.len(),
        lines@.len() == boxes@.len(),
        padding <= i32::MAX,
        nonneg_boxes(boxes@),
    ensures
        r.text_blocks@.len() == lines@.len(),
        forall|i: int| 0 <= i < lines@.len() ==> block_ok(
            #[trigger] r.text_blocks@[i], boxes@[i], angles@[i], lines@[i], padding as int),
{
    let mut blocks: Vec<TextBlock> = Vec::new();
    let mut i: usize = 0;
    while i < lines.len()
        invariant
            boxes@.len() == angles@.len() == lines@.len(),
            padding <= i32::MAX,
            nonneg_boxes(boxes@),
            0 <= i <= lines@.len(),
            blocks@.len() == i,
            forall|q: int| 0 <= q < i ==> block_ok(#[trigger] blocks@[q], boxes@[q], angles@[q], lines@[q], padding as int),
        decreases lines@.len() - i,
    {
        let t = &boxes[i];
        assert forall|j: int| 0 <= j < t.points@.len() implies 0 <= (#[trigger] t.points@[j]).x && 0 <= t.points@[j].y by {
            assert(0 <= boxes@[i as int].points@[j].x);
        }
        let box_points = unpad_points(&t.points, padding as i32);
        blocks.push(TextBlock {
            box_points,
            box_score: t.score,
            angle_index: angles[i].index,
            angle_score: angles[i].score,
            text: lines[i].text.clone(),
            text_score: lines[i].text_score,
        });
        i = i + 1;
    }
    OcrResult { text_blocks: blocks }
}

} // verus!
