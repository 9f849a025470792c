use similar::anchors::anchors;
use similar::matcher::capture_diff_slices;
use similar::patience::{common_prefix, common_suffix};
use similar::text::texts_fit;
use similar::types::{Algorithm, DiffOp};

#[test]
fn anchors_are_a_longest_rising_chain() {
    assert_eq!(anchors(&[1, 2, 3, 4], &[2, 3, 1, 4]), vec![(1, 0), (2, 1), (3, 3)]);
    assert_eq!(anchors(&[1, 2, 3], &[3, 2, 1]).len(), 1);
    assert!(anchors(&[1, 1, 2, 2], &[1, 2, 1, 2]).is_empty());
    assert!(anchors(&[1, 2], &[3, 4]).is_empty());
    assert!(anchors(&[], &[1]).is_empty());
    assert_eq!(anchors(&[7, 1, 7, 2, 7], &[7, 7, 1, 2]), vec![(1, 2), (3, 3)]);
}

#[test]
fn shared_ends_are_counted() {
    assert_eq!(common_prefix(&[1, 2, 3], &[1, 2, 4]), 2);
    assert_eq!(common_prefix(&[1, 2], &[1, 2, 3]), 2);
    assert_eq!(common_prefix(&[], &[1]), 0);
    assert_eq!(common_suffix(&[1, 2, 3], &[4, 2, 3], 0), 2);
    assert_eq!(common_suffix(&[1, 1], &[1, 1, 1], 2), 0);
    assert_eq!(common_suffix(&[1, 1], &[1, 1, 1], 1), 1);
}

#[test]
fn patience_falls_back_to_a_shortest_script() {
    let old = [1usize, 1, 2, 2, 3, 3];
    let new = [2usize, 2, 1, 1, 3, 3];
    let patient = capture_diff_slices(Algorithm::Patience, &old, &new);
    let myers = capture_diff_slices(Algorithm::Myers, &old, &new);
    assert_eq!(
        myers,
        vec![
            DiffOp::Delete { old_index: 0, old_len: 2, new_index: 0 },
            DiffOp::Equal { old_index: 2, new_index: 0, len: 2 },
            DiffOp::Insert { old_index: 4, new_index: 2, new_len: 2 },
            DiffOp::Equal { old_index: 4, new_index: 4, len: 2 },
        ]
    );
    assert_eq!(patient, myers);
}

#[test]
fn texts_fit_together() {
    assert!(texts_fit("", ""));
    assert!(texts_fit("some text", "some other text"));
}
