use similar::changes::{Change, ChangeTag};
use similar::ratio::Ratio;
use similar::text::TextDiff;
use similar::types::{Algorithm, DiffOp};

fn change<'a>(tag: ChangeTag, old: Option<usize>, new: Option<usize>, value: &'a str) -> Change<'a> {
    Change { tag, old_index: old, new_index: new, value: value.as_bytes() }
}

#[test]
fn test_captured_ops() {
    let diff = TextDiff::from_lines(
        "Hello World\nsome stuff here\nsome more stuff here\n",
        "Hello World\nsome amazing stuff here\nsome more stuff here\n",
    );
    assert_eq!(
        diff.ops(),
        &[
            DiffOp::Equal { old_index: 0, new_index: 0, len: 1 },
            DiffOp::Replace { old_index: 1, old_len: 1, new_index: 1, new_len: 1 },
            DiffOp::Equal { old_index: 2, new_index: 2, len: 1 },
        ][..]
    );
}

#[test]
fn test_captured_word_ops() {
    let diff = TextDiff::from_words(
        "Hello World\nsome stuff here\nsome more stuff here\n",
        "Hello World\nsome amazing stuff here\nsome more stuff here\n",
    );
    let changes = diff
        .ops()
        .iter()
        .flat_map(|op| diff.iter_changes(op))
        .collect::<Vec<_>>();
    let expected = vec![
        change(ChangeTag::Equal, Some(0), Some(0), "Hello"),
        change(ChangeTag::Equal, Some(1), Some(1), " "),
        change(ChangeTag::Equal, Some(2), Some(2), "World"),
        change(ChangeTag::Equal, Some(3), Some(3), "\n"),
        change(ChangeTag::Equal, Some(4), Some(4), "some"),
        change(ChangeTag::Equal, Some(5), Some(5), " "),
        change(ChangeTag::Insert, None, Some(6), "amazing"),
        change(ChangeTag::Insert, None, Some(7), " "),
        change(ChangeTag::Equal, Some(6), Some(8), "stuff"),
        change(ChangeTag::Equal, Some(7), Some(9), " "),
        change(ChangeTag::Equal, Some(8), Some(10), "here"),
        change(ChangeTag::Equal, Some(9), Some(11), "\n"),
        change(ChangeTag::Equal, Some(10), Some(12), "some"),
        change(ChangeTag::Equal, Some(11), Some(13), " "),
        change(ChangeTag::Equal, Some(12), Some(14), "more"),
        change(ChangeTag::Equal, Some(13), Some(15), " "),
        change(ChangeTag::Equal, Some(14), Some(16), "stuff"),
        change(ChangeTag::Equal, Some(15), Some(17), " "),
        change(ChangeTag::Equal, Some(16), Some(18), "here"),
        change(ChangeTag::Equal, Some(17), Some(19), "\n"),
    ];
    assert_eq!(changes, expected);
}

#[test]
fn test_line_ops() {
    let a = "Hello World\nsome stuff here\nsome more stuff here\n";
    let b = "Hello World\nsome amazing stuff here\nsome more stuff here\n";
    let diff = TextDiff::from_lines(a, b);
    assert_eq!(diff.newline_terminated(), true);
    let changes = diff
        .ops()
        .iter()
        .flat_map(|op| diff.iter_changes(op))
        .collect::<Vec<_>>();
    let expected = vec![
        change(ChangeTag::Equal, Some(0), Some(0), "Hello World\n"),
        change(ChangeTag::Delete, Some(1), None, "some stuff here\n"),
        change(ChangeTag::Insert, None, Some(1), "some amazing stuff here\n"),
        change(ChangeTag::Equal, Some(2), Some(2), "some more stuff here\n"),
    ];
    assert_eq!(changes, expected);
}

#[test]
fn test_virtual_newlines() {
    let diff = TextDiff::from_lines("a\nb", "a\nc\n");
    assert_eq!(diff.newline_terminated(), true);
    let changes = diff
        .ops()
        .iter()
        .flat_map(|op| diff.iter_changes(op))
        .collect::<Vec<_>>();
    let expected = vec![
        change(ChangeTag::Equal, Some(0), Some(0), "a\n"),
        change(ChangeTag::Delete, Some(1), None, "b"),
        change(ChangeTag::Insert, None, Some(1), "c\n"),
    ];
    assert_eq!(changes, expected);
    assert!(changes[1].missing_newline());
    assert!(!changes[2].missing_newline());
}

#[test]
fn test_char_diff() {
    let diff = TextDiff::from_chars("Hello World", "Hallo Welt");
    assert_eq!(
        diff.ops(),
        &[
            DiffOp::Equal { old_index: 0, new_index: 0, len: 1 },
            DiffOp::Replace { old_index: 1, old_len: 1, new_index: 1, new_len: 1 },
            DiffOp::Equal { old_index: 2, new_index: 2, len: 5 },
            DiffOp::Replace { old_index: 7, old_len: 2, new_index: 7, new_len: 1 },
            DiffOp::Equal { old_index: 9, new_index: 8, len: 1 },
            DiffOp::Replace { old_index: 10, old_len: 1, new_index: 9, new_len: 1 },
        ][..]
    );
    let patient = TextDiff::configure()
        .algorithm(Algorithm::Patience)
        .diff_chars("Hello World", "Hallo Welt");
    assert_eq!(patient.algorithm(), Algorithm::Patience);
    assert_eq!(patient.ratio(), Ratio::new(14, 21));
}

#[test]
fn test_ratio() {
    let diff = TextDiff::from_chars("abcd", "bcde");
    let ratio = diff.ratio();
    assert_eq!(ratio, Ratio::new(6, 8));
    assert_eq!(ratio.num as f32 / ratio.den as f32, 0.75);
    let diff = TextDiff::from_chars("", "");
    let ratio = diff.ratio();
    assert_eq!(ratio, Ratio::new(0, 0));
    assert!(ratio.equals(&Ratio::new(1, 1)));
}

#[test]
fn test_lifetimes_on_iter() {
    fn diff_lines<'x>(old: &'x str, new: &'x str) -> Vec<Change<'x>> {
        TextDiff::from_lines(old, new).iter_all_changes()
    }

    let a = "1\n2\n3\n".to_string();
    let b = "1\n99\n3\n".to_string();
    let changes = diff_lines(&a, &b);
    let expected = vec![
        change(ChangeTag::Equal, Some(0), Some(0), "1\n"),
        change(ChangeTag::Delete, Some(1), None, "2\n"),
        change(ChangeTag::Insert, None, Some(1), "99\n"),
        change(ChangeTag::Equal, Some(2), Some(2), "3\n"),
    ];
    assert_eq!(changes, expected);
}

#[test]
fn test_unified_diff() {
    let diff = TextDiff::from_lines(
        "Hello World\nsome stuff here\nsome more stuff here\n",
        "Hello World\nsome amazing stuff here\nsome more stuff here\n",
    );
    assert_eq!(diff.newline_terminated(), true);
    let text = diff
        .unified_diff()
        .context_radius(3)
        .header("old", "new")
        .to_string();
    assert_eq!(
        text,
        "--- old\n+++ new\n@@ -1,3 +1,3 @@\n Hello World\n-some stuff here\n+some amazing stuff here\n some more stuff here\n"
    );
}

#[test]
fn test_get_close_matches() {
    let matches = similar::text::get_close_matches(
        "appel",
        &["ape", "apple", "peach", "puppy"][..],
        3,
        Ratio::new(6, 10),
    );
    assert_eq!(matches, vec!["apple", "ape"]);
    let matches = similar::text::get_close_matches(
        "hulo",
        &[
            "hi", "hulu", "hali", "hoho", "amaz", "zulo", "blah", "hopp", "uulo", "aulo",
        ][..],
        5,
        Ratio::new(7, 10),
    );
    assert_eq!(matches, vec!["aulo", "hulu", "uulo", "zulo"]);
}

#[test]
fn close_matches_are_cut_to_n_and_to_the_cutoff() {
    let pool = ["hulu", "zulo", "uulo", "aulo", "hulo"];
    let two = similar::text::get_close_matches("hulo", &pool[..], 2, Ratio::new(7, 10));
    assert_eq!(two, vec!["hulo", "aulo"]);
    let none = similar::text::get_close_matches("hulo", &pool[..], 0, Ratio::new(7, 10));
    assert!(none.is_empty());
    let exact = similar::text::get_close_matches("hulo", &pool[..], 5, Ratio::new(1, 1));
    assert_eq!(exact, vec!["hulo"]);
    let all = similar::text::get_close_matches("", &["", "a"][..], 5, Ratio::new(1, 1));
    assert_eq!(all, vec![""]);
}

#[test]
fn ratio_of_equal_texts_is_one() {
    let diff = TextDiff::from_lines("a\nb\nc\n", "a\nb\nc\n");
    assert_eq!(diff.ratio(), Ratio::new(6, 6));
    assert_eq!(diff.ops(), &[DiffOp::Equal { old_index: 0, new_index: 0, len: 3 }][..]);
    let patient = TextDiff::configure()
        .algorithm(Algorithm::Patience)
        .diff_lines("a\nb\nc\n", "a\nb\nc\n");
    assert_eq!(patient.ratio(), Ratio::new(6, 6));
    let nothing = TextDiff::from_lines("", "");
    assert!(nothing.ops().is_empty());
    assert!(nothing.ratio().reaches(&Ratio::new(1, 1)));
}

#[test]
fn ratio_of_disjoint_texts_is_zero() {
    let diff = TextDiff::from_chars("abc", "xyz");
    assert_eq!(diff.ratio(), Ratio::new(0, 6));
    assert_eq!(
        diff.ops(),
        &[DiffOp::Replace { old_index: 0, old_len: 3, new_index: 0, new_len: 3 }][..]
    );
    let grown = TextDiff::from_chars("", "xyz");
    assert_eq!(grown.ops(), &[DiffOp::Insert { old_index: 0, new_index: 0, new_len: 3 }][..]);
    let shrunk = TextDiff::from_chars("xyz", "");
    assert_eq!(shrunk.ops(), &[DiffOp::Delete { old_index: 0, old_len: 3, new_index: 0 }][..]);
}

#[test]
fn myers_finds_the_longest_common_subsequence() {
    let diff = TextDiff::from_chars("abcabba", "cbabac");
    assert_eq!(diff.ratio(), Ratio::new(8, 13));
    let diff = TextDiff::from_chars("xmjyauz", "mzjawxu");
    assert_eq!(diff.ratio(), Ratio::new(8, 14));
}

#[test]
fn changes_give_both_sides_back() {
    let old = "one\ntwo\nthree\nfour\nfive\n";
    let new = "zero\none\nthree\nfive\nsix\nseven";
    for algorithm in [Algorithm::Myers, Algorithm::Patience] {
        let diff = TextDiff::configure().algorithm(algorithm).diff_lines(old, new);
        let changes = diff.iter_all_changes();
        let mut old_side: Vec<u8> = Vec::new();
        let mut new_side: Vec<u8> = Vec::new();
        for change in &changes {
            if change.tag() != ChangeTag::Insert {
                old_side.extend_from_slice(change.value());
            }
            if change.tag() != ChangeTag::Delete {
                new_side.extend_from_slice(change.value());
            }
        }
        assert_eq!(old_side, old.as_bytes());
        assert_eq!(new_side, new.as_bytes());
    }
}

#[test]
fn ops_partition_both_sides() {
    let old = "a b c d e f g";
    let new = "a x c d y z g h";
    for algorithm in [Algorithm::Myers, Algorithm::Patience] {
        let diff = TextDiff::configure().algorithm(algorithm).diff_words(old, new);
        let mut old_at = 0;
        let mut new_at = 0;
        let mut last = None;
        for op in diff.ops() {
            let (tag, old_range, new_range) = op.as_tag_tuple();
            assert_eq!(old_range.0, old_at);
            assert_eq!(new_range.0, new_at);
            assert!(old_range.1 > old_range.0 || new_range.1 > new_range.0);
            assert_ne!(Some(tag), last);
            old_at = old_range.1;
            new_at = new_range.1;
            last = Some(tag);
        }
        assert_eq!(old_at, diff.old_slices().len());
        assert_eq!(new_at, diff.new_slices().len());
    }
}

#[test]
fn patience_anchors_on_unique_lines() {
    let diff = TextDiff::configure()
        .algorithm(Algorithm::Patience)
        .diff_lines("x\na\nb\nc\n", "a\nb\nc\nx\n");
    assert_eq!(
        diff.ops(),
        &[
            DiffOp::Delete { old_index: 0, old_len: 1, new_index: 0 },
            DiffOp::Equal { old_index: 1, new_index: 0, len: 3 },
            DiffOp::Insert { old_index: 4, new_index: 3, new_len: 1 },
        ][..]
    );
}

#[test]
fn a_large_distance_is_cut_and_still_shortest() {
    let mut old = String::new();
    let mut new = String::new();
    for i in 0..2200 {
        old.push_str(&format!("{}\n", i));
        if i % 2 == 0 {
            new.push_str(&format!("{}\n", i));
        } else {
            new.push_str(&format!("x{}\n", i));
        }
    }
    let diff = TextDiff::from_lines(&old, &new);
    assert_eq!(diff.ratio(), Ratio::new(2200, 4400));
    let changes = diff.iter_all_changes();
    let mut old_side: Vec<u8> = Vec::new();
    let mut new_side: Vec<u8> = Vec::new();
    for change in &changes {
        if change.tag() != ChangeTag::Insert {
            old_side.extend_from_slice(change.value());
        }
        if change.tag() != ChangeTag::Delete {
            new_side.extend_from_slice(change.value());
        }
    }
    assert_eq!(old_side, old.as_bytes());
    assert_eq!(new_side, new.as_bytes());
}

#[test]
fn slices_are_diffed_as_they_are() {
    let old: Vec<&[u8]> = vec![b"a", b"b", b"c"];
    let new: Vec<&[u8]> = vec![b"a", b"c"];
    let diff = TextDiff::from_slices(&old, &new);
    assert_eq!(diff.newline_terminated(), false);
    assert_eq!(diff.algorithm(), Algorithm::Myers);
    assert_eq!(diff.old_slices(), &old[..]);
    assert_eq!(diff.new_slices(), &new[..]);
    assert_eq!(
        diff.ops(),
        &[
            DiffOp::Equal { old_index: 0, new_index: 0, len: 1 },
            DiffOp::Delete { old_index: 1, old_len: 1, new_index: 1 },
            DiffOp::Equal { old_index: 2, new_index: 1, len: 1 },
        ][..]
    );
}

#[test]
fn changes_read_as_text() {
    let diff = TextDiff::from_lines("gr\u{fc}n\n", "blau\n");
    let changes = diff.iter_all_changes();
    assert_eq!(changes[0].to_string_lossy(), "gr\u{fc}n\n");
    assert_eq!(changes[1].to_string_lossy(), "blau\n");
    let broken = Change { tag: ChangeTag::Equal, old_index: Some(0), new_index: Some(0), value: b"a\xffb" };
    assert_eq!(broken.to_string_lossy(), "a\u{fffd}b");
}
