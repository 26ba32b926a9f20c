use rust_paddle_ocr::angle_net::{apply_most_angle, argmax, get_angles, score_to_angle};
use rust_paddle_ocr::crnn_net::{
    crnn_dst_width, get_text_lines, keys_from_lines, needs_rollback, score_to_text_line, RecOutput,
};
use rust_paddle_ocr::ocr_result::{Angle, TextLine};

fn keys() -> Vec<String> {
    keys_from_lines(vec!["a".to_string(), "b".to_string()])
}

#[test]
fn vocabulary_is_framed() {
    assert_eq!(keys(), vec!["#", "a", "b", " "]);
}

#[test]
fn argmax_takes_first_maximum() {
    assert_eq!(argmax(&vec![3, 9, 9, 1], 4), (1, 9));
    assert_eq!(argmax(&vec![3, 9, 9, 1], 1), (0, 3));
    assert_eq!(argmax(&vec![], 0), (0, 0));
}

#[test]
fn angle_from_scores() {
    assert_eq!(score_to_angle(&vec![100, 900], 2), Angle { index: 1, score: 900 });
    assert_eq!(score_to_angle(&vec![500, 500], 2), Angle { index: 0, score: 500 });
    assert_eq!(score_to_angle(&vec![1, 2, 3], 2), Angle { index: 1, score: 2 });
}

#[test]
fn majority_vote_forces_zero() {
    let mut a = vec![
        Angle { index: 0, score: 10 },
        Angle { index: 0, score: 20 },
        Angle { index: 1, score: 30 },
    ];
    apply_most_angle(&mut a);
    assert_eq!(a.iter().map(|x| x.index).collect::<Vec<_>>(), vec![0, 0, 0]);
    assert_eq!(a.iter().map(|x| x.score).collect::<Vec<_>>(), vec![10, 20, 30]);
}

#[test]
fn majority_vote_forces_one() {
    let mut a = vec![
        Angle { index: 1, score: 10 },
        Angle { index: 1, score: 20 },
        Angle { index: 0, score: 30 },
    ];
    apply_most_angle(&mut a);
    assert_eq!(a.iter().map(|x| x.index).collect::<Vec<_>>(), vec![1, 1, 1]);
    assert_eq!(a[2].score, 30);
}

#[test]
fn majority_vote_tie_goes_to_one() {
    let mut a = vec![Angle { index: 1, score: 1 }, Angle { index: 0, score: 2 }];
    apply_most_angle(&mut a);
    assert_eq!(a.iter().map(|x| x.index).collect::<Vec<_>>(), vec![1, 1]);
}

#[test]
fn angles_without_classification() {
    let r = get_angles(&vec![], 3, false, true);
    assert_eq!(r, vec![Angle { index: 0, score: 0 }; 3]);
}

#[test]
fn angles_with_vote() {
    let outs = vec![vec![900, 100], vec![200, 800], vec![300, 700]];
    let each = get_angles(&outs, 3, true, false);
    assert_eq!(each.iter().map(|a| a.index).collect::<Vec<_>>(), vec![0, 1, 1]);
    let voted = get_angles(&outs, 3, true, true);
    assert_eq!(voted.iter().map(|a| a.index).collect::<Vec<_>>(), vec![1, 1, 1]);
    assert_eq!(voted.iter().map(|a| a.score).collect::<Vec<_>>(), vec![900, 800, 700]);
}

#[test]
fn repeated_class_is_emitted_once() {
    // 5 timesteps x 3 classes ("#", "a", " ")
    let keys = keys_from_lines(vec!["a".to_string()]);
    let m = vec![
        1, 8, 1, //
        2, 7, 1, //
        1, 9, 0, //
        9, 0, 1, //
        8, 1, 1, //
    ];
    let line = score_to_text_line(&m, 5, 3, &keys);
    assert_eq!(line.text, "a");
    assert_eq!(line.text_score, Some(8));
}

#[test]
fn all_blank_gives_no_score() {
    let keys = keys_from_lines(vec!["a".to_string()]);
    let m = vec![9, 1, 1, 9, 0, 0, 7, 2, 2, 5, 1, 1, 6, 3, 3];
    let line = score_to_text_line(&m, 5, 3, &keys);
    assert_eq!(line.text, "");
    assert_eq!(line.text_score, None);
}

#[test]
fn repeat_after_blank_is_emitted_again_only_if_not_adjacent() {
    // a, #, a  -> "aa" ; a, a -> "a"; then b, space
    let m = vec![
        0, 10, 0, 0, //
        10, 0, 0, 0, //
        0, 20, 0, 0, //
        0, 0, 30, 0, //
        0, 0, 0, 40, //
    ];
    let line = score_to_text_line(&m, 5, 4, &keys());
    assert_eq!(line.text, "aab ");
    assert_eq!(line.text_score, Some((10 + 20 + 30 + 40) / 4));
}

fn rec(rows: Vec<Vec<u32>>) -> RecOutput {
    let height = rows.len();
    let width = rows[0].len();
    RecOutput { data: rows.into_iter().flatten().collect(), height, width }
}

#[test]
fn rollback_replaces_empty_decode() {
    let blank = rec(vec![vec![9, 0, 0, 0], vec![9, 0, 0, 0]]);
    let weak_b = rec(vec![vec![0, 0, 1, 0]]);
    let lines = get_text_lines(&vec![blank], &vec![Some(weak_b)], &keys(), 800);
    assert_eq!(lines[0].text, "b");
    assert_eq!(lines[0].text_score, Some(1));
}

#[test]
fn rollback_not_taken_when_score_is_high() {
    let good = rec(vec![vec![0, 900, 0, 0]]);
    let other = rec(vec![vec![0, 0, 950, 0]]);
    let lines = get_text_lines(&vec![good], &vec![Some(other)], &keys(), 800);
    assert_eq!(lines[0].text, "a");
}

#[test]
fn rollback_taken_below_threshold_even_if_worse() {
    let weak = rec(vec![vec![0, 500, 0, 0]]);
    let worse = rec(vec![vec![0, 0, 100, 0]]);
    let none = rec(vec![vec![0, 0, 0, 700]]);
    let lines = get_text_lines(&vec![weak, none], &vec![Some(worse), None], &keys(), 800);
    assert_eq!(lines[0].text, "b");
    assert_eq!(lines[0].text_score, Some(100));
    // no rollback strip: the first decode stays
    assert_eq!(lines[1].text, " ");
}

#[test]
fn rollback_condition() {
    let l = |s: Option<u32>| TextLine { text: String::new(), text_score: s };
    assert!(needs_rollback(&l(None), 0));
    assert!(needs_rollback(&l(Some(5)), 6));
    assert!(!needs_rollback(&l(Some(6)), 6));
}

#[test]
fn recognizer_width_rounds() {
    assert_eq!(crnn_dst_width(100, 48), 100);
    assert_eq!(crnn_dst_width(100, 32), 150);
    assert_eq!(crnn_dst_width(10, 7), 69); // 68.57
}
