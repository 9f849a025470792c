use similar::group::group_diff_ops;
use similar::text::TextDiff;
use similar::types::DiffOp;
use similar::udiff::push_decimal;

#[test]
fn a_missing_newline_is_marked() {
    let diff = TextDiff::from_lines("a\nb", "a\nc\n");
    let text = diff.unified_diff().header("old", "new").to_string();
    assert_eq!(
        text,
        "--- old\n+++ new\n@@ -1,2 +1,2 @@\n a\n-b\n\\ No newline at end of file\n+c\n"
    );
    let plain = diff.unified_diff().missing_newline_hint(false).to_string();
    assert_eq!(plain, "@@ -1,2 +1,2 @@\n a\n-b\n+c\n");
}

#[test]
fn tokens_without_terminators_get_a_line_each() {
    let diff = TextDiff::from_words("a b", "a c");
    let text = diff.unified_diff().to_string();
    assert_eq!(text, "@@ -1,3 +1,3 @@\n a\n  \n-b\n+c\n");
    let forced = TextDiff::configure()
        .newline_terminated(false)
        .diff_lines("a\n", "b\n");
    assert_eq!(forced.newline_terminated(), false);
    assert_eq!(forced.unified_diff().to_string(), "@@ -1,1 +1,1 @@\n-a\n\n+b\n\n");
}

#[test]
fn equal_texts_have_no_unified_diff() {
    let diff = TextDiff::from_lines("a\nb\n", "a\nb\n");
    assert_eq!(diff.unified_diff().header("old", "new").to_string(), "");
    assert!(diff.grouped_ops(3).is_empty());
}

#[test]
fn an_empty_side_is_counted_from_zero() {
    let diff = TextDiff::from_lines("", "a\nb\n");
    assert_eq!(diff.unified_diff().to_string(), "@@ -0,0 +1,2 @@\n+a\n+b\n");
}

#[test]
fn far_changes_make_two_hunks() {
    let old = "1\n2\n3\n4\n5\n6\n7\n8\n9\n10\n11\n12\n";
    let new = "1\nb\n3\n4\n5\n6\n7\n8\n9\n10\nk\n12\n";
    let diff = TextDiff::from_lines(old, new);
    let groups = diff.grouped_ops(2);
    assert_eq!(
        groups,
        vec![
            vec![
                DiffOp::Equal { old_index: 0, new_index: 0, len: 1 },
                DiffOp::Replace { old_index: 1, old_len: 1, new_index: 1, new_len: 1 },
                DiffOp::Equal { old_index: 2, new_index: 2, len: 2 },
            ],
            vec![
                DiffOp::Equal { old_index: 8, new_index: 8, len: 2 },
                DiffOp::Replace { old_index: 10, old_len: 1, new_index: 10, new_len: 1 },
                DiffOp::Equal { old_index: 11, new_index: 11, len: 1 },
            ],
        ]
    );
    let text = diff.unified_diff().context_radius(2).header("a", "b").to_string();
    assert_eq!(
        text,
        "--- a\n+++ b\n@@ -1,4 +1,4 @@\n 1\n-2\n+b\n 3\n 4\n@@ -9,4 +9,4 @@\n 9\n 10\n-11\n+k\n 12\n"
    );
    let joined = diff.grouped_ops(4);
    assert_eq!(joined.len(), 1);
    assert_eq!(joined[0].len(), 5);
    assert_eq!(joined[0][2], DiffOp::Equal { old_index: 2, new_index: 2, len: 8 });
}

#[test]
fn no_context_leaves_the_changes_alone() {
    let ops = vec![
        DiffOp::Equal { old_index: 0, new_index: 0, len: 5 },
        DiffOp::Delete { old_index: 5, old_len: 1, new_index: 5 },
        DiffOp::Equal { old_index: 6, new_index: 5, len: 1 },
        DiffOp::Insert { old_index: 7, new_index: 6, new_len: 2 },
        DiffOp::Equal { old_index: 7, new_index: 8, len: 3 },
    ];
    let groups = group_diff_ops(&ops, 0);
    assert_eq!(
        groups,
        vec![
            vec![DiffOp::Delete { old_index: 5, old_len: 1, new_index: 5 }],
            vec![DiffOp::Insert { old_index: 7, new_index: 6, new_len: 2 }],
        ]
    );
    let groups = group_diff_ops(&ops, 1);
    assert_eq!(
        groups,
        vec![vec![
            DiffOp::Equal { old_index: 4, new_index: 4, len: 1 },
            DiffOp::Delete { old_index: 5, old_len: 1, new_index: 5 },
            DiffOp::Equal { old_index: 6, new_index: 5, len: 1 },
            DiffOp::Insert { old_index: 7, new_index: 6, new_len: 2 },
            DiffOp::Equal { old_index: 7, new_index: 8, len: 1 },
        ]]
    );
    assert!(group_diff_ops(&[], 3).is_empty());
    assert!(group_diff_ops(&ops[..1], 3).is_empty());
}

#[test]
fn numbers_are_written_in_decimal() {
    let mut out = Vec::new();
    push_decimal(&mut out, 0);
    out.push(b' ');
    push_decimal(&mut out, 7);
    out.push(b' ');
    push_decimal(&mut out, 10);
    out.push(b' ');
    push_decimal(&mut out, 1234567890);
    assert_eq!(out, b"0 7 10 1234567890");
}
