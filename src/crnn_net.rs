//! Greedy decoding of the recognizer's timestep x class score matrix, and
//! the orientation rollback.
use vstd::prelude::*;
use crate::angle_net::{argmax_prefix, lemma_argmax_prefix};
use crate::ocr_result::TextLine;

verus! {

/// Height of the strips given to the recognizer.
pub const CRNN_DST_HEIGHT: u32 = 48;

/// Recognizer output for one strip: `height` timesteps of `width` class
/// scores, row-major.
#[derive(Clone, Debug)]
pub struct RecOutput {
    pub data: Vec<u32>,
    pub height: usize,
    pub width: usize,
}

impl RecOutput {
    pub open spec fn wf(&self) -> bool {
        &&& self.data@.len() == self.height * self.width
        &&& self.data@.len() <= 0x1000_0000
        &&& self.height <= 0x1000_0000
    }
}

pub open spec fn keys_view(keys: Seq<String>) -> Seq<Seq<char>> {
    keys.map_values(|k: String| k@)
}

pub open spec fn row_of(out: Seq<u32>, width: int, i: int) -> Seq<u32> {
    out.subrange(i * width, (i + 1) * width)
}

/// Decoder state after the first `k` timesteps: text so far, sum and count
/// of the emitted peak scores, and the class index of timestep `k - 1`.
/// A timestep emits its peak class when that class is neither the blank (0)
/// nor outside the vocabulary, nor the same as the previous timestep's.
pub open spec fn decode_prefix(out: Seq<u32>, width: int, keys: Seq<Seq<char>>, k: int) -> (Seq<char>, int, int, int)
    decreases k,
{
    if k <= 0 {
        (Seq::empty(), 0, 0, 0)
    } else {
        let (t, s, c, last) = decode_prefix(out, width, keys, k - 1);
        let (idx, val) = argmax_prefix(row_of(out, width, k - 1), width);
        if idx > 0 && idx < keys.len() && !(k - 1 > 0 && idx == last) {
            (t + keys[idx], s + val, c + 1, idx)
        } else {
            (t, s, c, idx)
        }
    }
}

/// Decoded text and its score: the mean of the emitted peak scores
/// (rounded down), `None` where nothing was emitted.
pub open spec fn decode_spec(out: Seq<u32>, height: int, width: int, keys: Seq<Seq<char>>) -> (Seq<char>, Option<u32>) {
    let (t, s, c, _l) = decode_prefix(out, width, keys, height);
    (t, if c == 0 { None } else { Some((s / c) as u32) })
}

pub open spec fn text_line_view(l: TextLine) -> (Seq<char>, Option<u32>) {
    (l.text@, l.text_score)
}

proof fn lemma_decode_bounds(out: Seq<u32>, width: int, keys: Seq<Seq<char>>, k: int)
    requires
        0 <= k,
        width >= 0,
        k * width <= out.len(),
    ensures
        0 <= decode_prefix(out, width, keys, k).2 <= k,
        0 <= decode_prefix(out, width, keys, k).1 <= decode_prefix(out, width, keys, k).2 * 0xffff_ffff,
    decreases k,
{
    if k > 0 {
        assert((k - 1) * width <= k * width) by (nonlinear_arith)
            requires k > 0, width >= 0;
        lemma_decode_bounds(out, width, keys, k - 1);
        if width > 0 {
            assert(k * width == (k - 1) * width + width) by (nonlinear_arith);
            lemma_argmax_prefix(row_of(out, width, k - 1), width);
        }
    }
}

/// Peak of timestep `i`: the first class of highest score, and the score.
fn row_argmax(v: &Vec<u32>, start: usize, width: usize) -> (r: (usize, u32))
    requires
        start + width <= v@.len(),
    ensures
        r.0 == argmax_prefix(v@.subrange(start as int, start + width), width as int).0,
        r.1 == argmax_prefix(v@.subrange(start as int, start + width), width as int).1,
{
    let ghost row = v@.subrange(start as int, start + width);
    if width == 0 {
        return (0, 0);
    }
    let len = v.len();
    let mut best: usize = 0;
    let mut max_value: u32 = v[start];
    let mut i: usize = 1;
    while i < width
        invariant
            1 <= i <= width,
            len == v@.len(),
            start + width <= v@.len(),
            row == v@.subrange(start as int, start + width),
            (best as int, max_value) == argmax_prefix(row, i as int),
        decreases width - i,
    {
        if v[start + i] > max_value {
            best = i;
            max_value = v[start + i];
        }
        i = i + 1;
    }
    (best, max_value)
}

/// Greedy decoding of a `height` x `width` score matrix (see `decode_spec`).
pub fn score_to_text_line(output: &Vec<u32>, height: usize, width: usize, keys: &Vec<String>) -> (r: TextLine)
    requires
        output@.len() == height * width,
        output@.len() <= 0x1000_0000,
        height <= 0x1000_0000,
    ensures
        text_line_view(r) == decode_spec(output@, height as int, width as int, keys_view(keys@)),
{
    let ghost kv = keys_view(keys@);
    let mut text = String::new();
    let mut sum: u64 = 0;
    let mut count: u64 = 0;
    let mut last_index: usize = 0;
    let mut i: usize = 0;
    while i < height
        invariant
            output@.len() == height * width <= 0x1000_0000,
            height <= 0x1000_0000,
            kv == keys_view(keys@),
            0 <= i <= height,
            (text@, sum as int, count as int, last_index as int) == decode_prefix(output@, width as int, kv, i as int),
            count <= i,
        decreases height - i,
    {
        assert((i + 1) * width <= height * width) by (nonlinear_arith)
            requires i < height, width >= 0;
        assert((i + 1) * width == i * width + width) by (nonlinear_arith);
        proof {
            lemma_decode_bounds(output@, width as int, kv, i as int);
            lemma_decode_bounds(output@, width as int, kv, i as int + 1);
        }
        assert(sum <= 0x1000_0000 * 0xffff_ffff) by (nonlinear_arith)
            requires sum <= count * 0xffff_ffff, count <= 0x1000_0000;
        let start = i * width;
        let (idx, val) = row_argmax(output, start, width);
        if idx > 0 && idx < keys.len() && !(i > 0 && idx == last_index) {
            text.append(keys[idx].as_str());
            sum = sum + val as u64;
            count = count + 1;
        }
        last_index = idx;
        i = i + 1;
    }
    proof {
        lemma_decode_bounds(output@, width as int, kv, height as int);
    }
    let text_score = if count == 0 {
        None
    } else {
        assert(sum / count <= 0xffff_ffff) by (nonlinear_arith)
            requires sum <= count * 0xffff_ffff, count > 0;
        Some((sum / count) as u32)
    };
    TextLine { text, text_score }
}

pub open spec fn decode_output(o: RecOutput, keys: Seq<Seq<char>>) -> (Seq<char>, Option<u32>) {
    decode_spec(o.data@, o.height as int, o.width as int, keys)
}

/// A decode asks for the rollback strip when it emitted nothing or scored
/// below the threshold.
pub open spec fn needs_rollback_spec(score: Option<u32>, threshold: u32) -> bool {
    match score {
        None => true,
        Some(s) => s < threshold,
    }
}

/// The line kept for a region: the rollback decode, where one exists and
/// the first decode asks for it, else the first decode.
pub open spec fn line_with_rollback(
    first: (Seq<char>, Option<u32>),
    rollback: Option<(Seq<char>, Option<u32>)>,
    threshold: u32,
) -> (Seq<char>, Option<u32>) {
    match rollback {
        Some(rb) => if needs_rollback_spec(first.1, threshold) { rb } else { first },
        None => first,
    }
}

/// Whether a decoded line asks for the rollback strip.
pub fn needs_rollback(line: &TextLine, threshold: u32) -> (r: bool)
    ensures
        r == needs_rollback_spec(line.text_score, threshold),
{
    match line.text_score {
        None => true,
        Some(s) => s < threshold,
    }
}

/// Text of each region: `outputs[i]` is the recognizer's output on the
/// (possibly rotated) strip `i`, `rollbacks[i]` its output on the strip
/// before rotation where one was kept. A rollback decode replaces the first
/// one whenever the first asks for it, whatever its own score.
pub fn get_text_lines(
    outputs: &Vec<RecOutput>,
    rollbacks: &Vec<Option<RecOutput>>,
    keys: &Vec<String>,
    threshold: u32,
) -> (r: Vec<TextLine>)
    requires
        outputs@.len() == rollbacks@.len(),
        forall|i: int| 0 <= i < outputs@.len() ==> (#[trigger] outputs@[i]).wf(),
        forall|i: int| 0 <= i < rollbacks@.len() ==> (#[trigger] rollbacks@[i] matches Some(o) ==> o.wf()),
    ensures
        r@.len() == outputs@.len(),
        forall|i: int| 0 <= i < r@.len() ==> text_line_view(#[trigger] r@[i]) == line_with_rollback(
            decode_output(outputs@[i], keys_view(keys@)),
            match rollbacks@[i] {
                Some(o) => Some(decode_output(o, keys_view(keys@))),
                None => None,
            },
            threshold,
        ),
{
    let mut lines: Vec<TextLine> = Vec::new();
    let mut i: usize = 0;
    while i < outputs.len()
        invariant
            0 <= i <= outputs@.len() == rollbacks@.len(),
            forall|q: int| 0 <= q < outputs@.len() ==> (#[trigger] outputs@[q]).wf(),
            forall|q: int| 0 <= q < rollbacks@.len() ==> (#[trigger] rollbacks@[q] matches Some(o) ==> o.wf()),
            lines@.len() == i,
            forall|q: int| 0 <= q < i ==> text_line_view(#[trigger] lines@[q]) == line_with_rollback(
                decode_output(outputs@[q], keys_view(keys@)),
                match rollbacks@[q] {
                    Some(o) => Some(decode_output(o, keys_view(keys@))),
                    None => None,
                },
                threshold,
            ),
        decreases outputs@.len() - i,
    {
        let o = &outputs[i];
        assert(o.wf());
        let mut line = score_to_text_line(&o.data, o.height, o.width, keys);
        match &rollbacks[i] {
            Some(rb) => {
                assert(rollbacks@[i as int] matches Some(x) ==> x.wf());
                if needs_rollback(&line, threshold) {
                    line = score_to_text_line(&rb.data, rb.height, rb.width, keys);
                }
            },
            None => {},
        }
        lines.push(line);
        i = i + 1;
    }
    lines
}

/// Rollback law: where the first decode emitted nothing and a rollback
/// strip exists, the kept line is the rollback decode, whatever its score.
pub proof fn lemma_rollback_wins(
    first: (Seq<char>, Option<u32>),
    rollback: (Seq<char>, Option<u32>),
    threshold: u32,
)
    requires
        first.1 is None,
    ensures
        line_with_rollback(first, Some(rollback), threshold) == rollback,
{
}

/// Width of the recognizer strip for a `width` x `height` image resized to
/// height 48 with its aspect ratio kept: `round(width * 48 / height)`.
pub fn crnn_dst_width(width: u32, height: u32) -> (r: u64)
    requires
        height > 0,
    ensures
        r == (2 * (width as int) * (CRNN_DST_HEIGHT as int) + height as int) / (2 * (height as int)),
{
    let w = width as u64;
    assert(w * 96 <= 0xffff_ffff * 96) by (nonlinear_arith)
        requires w <= 0xffff_ffff;
    let a = w * 96 + height as u64;
    assert(a == 2 * (width as int) * (CRNN_DST_HEIGHT as int) + height as int);
    a / (2 * height as u64)
}

/// The vocabulary: the blank symbol `#`, then `lines`, then the space.
pub fn keys_from_lines(lines: Vec<String>) -> (r: Vec<String>)
    ensures
        r@.len() == lines@.len() + 2,
        r@[0]@ == seq!['#'],
        r@[r@.len() - 1]@ == seq![' '],
        forall|i: int| 0 <= i < lines@.len() ==> #[trigger] r@[i + 1] == lines@[i],
{
    let mut keys: Vec<String> = Vec::new();
    keys.push(String::from_str("#"));
    proof {
        reveal_strlit("#");
    }
    let mut i: usize = 0;
    while i < lines.len()
        invariant
            0 <= i <= lines@.len(),
            keys@.len() == i + 1,
            keys@[0]@ == seq!['#'],
            forall|q: int| 0 <= q < i ==> #[trigger] keys@[q + 1] == lines@[q],
        decreases lines@.len() - i,
    {
        keys.push(lines[i].clone());
        i = i + 1;
    }
    keys.push(String::from_str(" "));
    proof {
        reveal_strlit(" ");
    }
    keys
}

} // verus!
