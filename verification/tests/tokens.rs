use similar::changes::ChangeTag;
use similar::inline::char_spans;
use similar::intern::{hash_bytes, intern, same_bytes};
use similar::ratio::{get_diff_ratio, upper_seq_ratio, QuickSeqRatio, Ratio};
use similar::segment::{tokenize_graphemes, tokenize_unicode_words};
use similar::text::TextDiff;
use similar::tokenize::{tokenize_chars, tokenize_lines, tokenize_words};
use similar::types::{DiffOp, DiffTag};

fn strs<'a>(tokens: &[&'a [u8]]) -> Vec<&'a str> {
    tokens.iter().map(|t| std::str::from_utf8(t).unwrap()).collect()
}

#[test]
fn lines_keep_their_terminators() {
    assert_eq!(strs(&tokenize_lines(b"a\nb\r\nc\rd")), vec!["a\n", "b\r\n", "c\r", "d"]);
    assert_eq!(strs(&tokenize_lines(b"a\n")), vec!["a\n"]);
    assert_eq!(strs(&tokenize_lines(b"\n\n")), vec!["\n", "\n"]);
    assert_eq!(strs(&tokenize_lines(b"\r\r\n")), vec!["\r", "\r\n"]);
    assert!(tokenize_lines(b"").is_empty());
}

#[test]
fn words_and_whitespace_take_turns() {
    assert_eq!(strs(&tokenize_words(b"foo  bar\tbaz\n")), vec!["foo", "  ", "bar", "\t", "baz", "\n"]);
    assert_eq!(strs(&tokenize_words(b" x")), vec![" ", "x"]);
    assert!(tokenize_words(b"").is_empty());
}

#[test]
fn chars_are_whole_characters() {
    let text = "a\u{e9}\u{4e16}\u{1f600}!";
    assert_eq!(
        strs(&tokenize_chars(text.as_bytes())),
        vec!["a", "\u{e9}", "\u{4e16}", "\u{1f600}", "!"]
    );
    assert!(tokenize_chars(b"").is_empty());
}

#[test]
fn unicode_words_follow_word_boundaries() {
    assert_eq!(
        strs(&tokenize_unicode_words("The quick (\"brown\")  fox")),
        vec!["The", " ", "quick", " ", "(", "\"", "brown", "\"", ")", "  ", "fox"]
    );
    let diff = TextDiff::from_unicode_words("The quick fox can't jump", "The quick fox can jump");
    assert_eq!(
        diff.ops(),
        &[
            DiffOp::Equal { old_index: 0, new_index: 0, len: 6 },
            DiffOp::Replace { old_index: 6, old_len: 1, new_index: 6, new_len: 1 },
            DiffOp::Equal { old_index: 7, new_index: 7, len: 2 },
        ][..]
    );
    assert_eq!(diff.old_slices()[6], b"can't");
}

#[test]
fn graphemes_keep_their_marks() {
    assert_eq!(
        strs(&tokenize_graphemes("a\u{310}e\u{301}o\u{308}\u{332}")),
        vec!["a\u{310}", "e\u{301}", "o\u{308}\u{332}"]
    );
    let diff = TextDiff::from_graphemes("a\u{310}e\u{301}", "a\u{310}e");
    assert_eq!(
        diff.ops(),
        &[
            DiffOp::Equal { old_index: 0, new_index: 0, len: 1 },
            DiffOp::Replace { old_index: 1, old_len: 1, new_index: 1, new_len: 1 },
        ][..]
    );
    let by_chars = TextDiff::from_chars("a\u{310}e\u{301}", "a\u{310}e");
    assert_eq!(
        by_chars.ops(),
        &[
            DiffOp::Equal { old_index: 0, new_index: 0, len: 3 },
            DiffOp::Delete { old_index: 3, old_len: 1, new_index: 3 },
        ][..]
    );
}

#[test]
fn equal_tokens_get_equal_numbers() {
    let old: Vec<&[u8]> = vec![b"a", b"b", b"a", b""];
    let new: Vec<&[u8]> = vec![b"b", b"c", b"", b"a"];
    let (old_ids, new_ids) = intern(&old, &new);
    assert_eq!(old_ids[0], old_ids[2]);
    assert_ne!(old_ids[0], old_ids[1]);
    assert_eq!(old_ids[1], new_ids[0]);
    assert_eq!(old_ids[3], new_ids[2]);
    assert_eq!(old_ids[0], new_ids[3]);
    assert_ne!(new_ids[1], old_ids[0]);
    assert_ne!(new_ids[1], old_ids[1]);
    assert!(same_bytes(b"abc", b"abc"));
    assert!(!same_bytes(b"abc", b"abd"));
    assert!(!same_bytes(b"abc", b"ab"));
    assert_eq!(hash_bytes(b""), 7);
    assert_eq!(hash_bytes(b"a"), 7 * 31 + 97);
    assert_eq!(hash_bytes(b"ab"), (7 * 31 + 97) * 31 + 98);
}

#[test]
fn ratios_compare_as_fractions() {
    assert!(Ratio::new(3, 4).reaches(&Ratio::new(6, 8)));
    assert!(Ratio::new(3, 4).equals(&Ratio::new(6, 8)));
    assert!(Ratio::new(3, 4).reaches(&Ratio::new(7, 10)));
    assert!(!Ratio::new(7, 10).reaches(&Ratio::new(3, 4)));
    assert!(Ratio::new(0, 0).reaches(&Ratio::new(1, 1)));
    assert!(!Ratio::new(0, 5).reaches(&Ratio::new(1, 100)));
    assert!(Ratio::new(usize::MAX, usize::MAX).equals(&Ratio::new(1, 1)));
    let ops = [
        DiffOp::Equal { old_index: 0, new_index: 0, len: 2 },
        DiffOp::Delete { old_index: 2, old_len: 1, new_index: 2 },
        DiffOp::Equal { old_index: 3, new_index: 2, len: 1 },
    ];
    assert_eq!(get_diff_ratio(&ops, 4, 3), Ratio::new(6, 7));
    assert_eq!(get_diff_ratio(&[], 0, 0), Ratio::new(0, 0));
}

#[test]
fn quick_ratios_bound_the_ratio() {
    let old = [1usize, 2, 3, 4];
    let new = [4usize, 3, 2, 1, 1];
    let quick = QuickSeqRatio::new(&old);
    assert_eq!(quick.calc(&new), Ratio::new(8, 9));
    assert_eq!(quick.calc(&[1, 1, 1]), Ratio::new(2, 7));
    assert_eq!(quick.calc(&[]), Ratio::new(0, 4));
    assert_eq!(upper_seq_ratio(4, 5), Ratio::new(8, 9));
    assert_eq!(upper_seq_ratio(0, 0), Ratio::new(0, 0));
    let exact = similar::myers::diff(&old, &new);
    let ratio = get_diff_ratio(&exact, 4, 5);
    assert_eq!(ratio, Ratio::new(2, 9));
    assert!(quick.calc(&new).reaches(&ratio));
    assert!(upper_seq_ratio(4, 5).reaches(&quick.calc(&new)));
}

#[test]
fn operations_tell_their_ranges() {
    let op = DiffOp::Replace { old_index: 3, old_len: 2, new_index: 4, new_len: 1 };
    assert_eq!(op.tag(), DiffTag::Replace);
    assert_eq!(op.old_range(), (3, 5));
    assert_eq!(op.new_range(), (4, 5));
    assert_eq!(op.as_tag_tuple(), (DiffTag::Replace, (3, 5), (4, 5)));
    let op = DiffOp::Insert { old_index: 3, new_index: 4, new_len: 2 };
    assert_eq!(op.as_tag_tuple(), (DiffTag::Insert, (3, 3), (4, 6)));
    let op = DiffOp::Delete { old_index: 3, old_len: 2, new_index: 4 };
    assert_eq!(op.as_tag_tuple(), (DiffTag::Delete, (3, 5), (4, 4)));
    let op = DiffOp::Equal { old_index: 3, new_index: 4, len: 2 };
    assert_eq!(op.as_tag_tuple(), (DiffTag::Equal, (3, 5), (4, 6)));
}

#[test]
fn replaced_lines_are_refined_by_character() {
    let diff = TextDiff::from_lines("same\nHello World\nold only\n", "same\nHallo Welt\n");
    let ops = diff.ops().to_vec();
    assert_eq!(
        ops,
        vec![
            DiffOp::Equal { old_index: 0, new_index: 0, len: 1 },
            DiffOp::Replace { old_index: 1, old_len: 2, new_index: 1, new_len: 1 },
        ]
    );
    let same = diff.iter_inline_changes(&ops[0]);
    assert_eq!(same.len(), 1);
    assert_eq!(same[0].tag(), ChangeTag::Equal);
    assert_eq!(same[0].value(), b"same\n");
    assert!(same[0].spans().is_empty());
    let refined = diff.iter_inline_changes(&ops[1]);
    assert_eq!(refined.len(), 3);
    assert_eq!(refined[0].tag(), ChangeTag::Delete);
    assert_eq!(refined[0].old_index(), Some(1));
    assert_eq!(refined[0].new_index(), None);
    assert_eq!(refined[0].value(), b"Hello World\n");
    assert_eq!(refined[0].spans(), &vec![(1, 2), (7, 9), (10, 11)]);
    assert_eq!(refined[1].tag(), ChangeTag::Delete);
    assert_eq!(refined[1].value(), b"old only\n");
    assert!(refined[1].spans().is_empty());
    assert_eq!(refined[2].tag(), ChangeTag::Insert);
    assert_eq!(refined[2].new_index(), Some(1));
    assert_eq!(refined[2].value(), b"Hallo Welt\n");
    assert_eq!(refined[2].spans(), &vec![(1, 2), (7, 8), (9, 10)]);
    assert!(!refined[2].missing_newline());
}

#[test]
fn spans_are_byte_ranges() {
    let (old, new) = char_spans("na\u{ef}ve".as_bytes(), "naive".as_bytes());
    assert_eq!(old, vec![(2, 4)]);
    assert_eq!(new, vec![(2, 3)]);
    let (old, new) = char_spans(b"", b"abc");
    assert!(old.is_empty());
    assert_eq!(new, vec![(0, 3)]);
    let (old, new) = char_spans(b"abc", b"abc");
    assert!(old.is_empty());
    assert!(new.is_empty());
}

#[test]
fn words_know_unicode_whitespace() {
    assert_eq!(strs(&tokenize_words("a\u{a0}b".as_bytes())), vec!["a", "\u{a0}", "b"]);
    assert_eq!(
        strs(&tokenize_words("x\u{3000}\u{2003} y\u{e9}\u{2028}".as_bytes())),
        vec!["x", "\u{3000}\u{2003} ", "y\u{e9}", "\u{2028}"]
    );
    assert_eq!(
        strs(&tokenize_words("\u{1680}\u{205f}\u{85}z\u{200b}".as_bytes())),
        vec!["\u{1680}\u{205f}\u{85}", "z\u{200b}"]
    );
    for c in ['\u{9}', '\u{b}', '\u{c}', '\u{20}', '\u{2000}', '\u{200a}', '\u{2029}', '\u{202f}'] {
        let text = format!("a{}b", c);
        assert_eq!(tokenize_words(text.as_bytes()).len(), 3, "{:?}", c);
        assert!(c.is_whitespace());
    }
    for c in ['\u{200b}', '\u{2060}', '\u{feff}', '\u{e2}', '\u{80}', '_'] {
        let text = format!("a{}b", c);
        assert_eq!(tokenize_words(text.as_bytes()).len(), 1, "{:?}", c);
        assert!(!c.is_whitespace());
    }
}
