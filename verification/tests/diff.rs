use std::ops::Range;
use zeta_dyn::{
    build_edits, can_diff, diff_data_data, diff_data_end, diff_data_len, diff_data_start,
    diff_words_pos, DiffData, DiffOperation,
};

fn diff(old: &str, new: &str, offset: u64) -> DiffData {
    diff_words_pos(String::from(old), String::from(new), offset)
}

fn entry(range: Range<usize>, text: &str) -> (Range<usize>, String) {
    (range, String::from(text))
}

fn apply(old: &str, edits: &DiffData, offset: usize) -> String {
    let mut out = String::new();
    let mut at = 0;
    for (range, text) in edits {
        out.push_str(&old[at..range.start - offset]);
        out.push_str(text);
        at = range.end - offset;
    }
    out.push_str(&old[at..]);
    out
}

const OLD_CODE: &str = "
    let pivot_index = partition(arrl);
    let a = 1;
    let b = 2;
    let

}
";

const NEW_CODE: &str = "
    let pivot = partitio(arrr);
    let a = 1;
    let b = 2;
    let left = quick_sort(&arr[..pivot_index]);
    let right = quick_sort(&arr[pivot_index + 1..]);

}
";

#[test]
fn test_diff_words() {
    let old_text = String::from(
        "
    let pivot_index = partition(arrl);
    let a = 1;
    let b = 2;
    let

}
",
    );

    let new_text = String::from(
        "
    let pivot = partitio(arrr);
    let a = 1;
    let b = 2;
    let left = quick_sort(&arr[..pivot_index]);
    let right = quick_sort(&arr[pivot_index + 1..]);

}
",
    );

    let res = diff_words_pos(old_text, new_text, 0);
    println!("res: {:?}", res);
}

#[test]
fn code_sample_changes_three_words_and_adds_two_lines() {
    let res = diff(OLD_CODE, NEW_CODE, 0);
    assert_eq!(apply(OLD_CODE, &res, 0), NEW_CODE);
    assert_eq!(res[0], entry(9..20, "pivot"));
    assert_eq!(res[1], entry(23..32, "partitio"));
    assert_eq!(res[2], entry(33..37, "arrr"));
    assert_eq!(res[3].0.start, 77);
}

#[test]
fn delete_then_insert_is_one_substitution() {
    assert_eq!(diff("foo bar baz", "foo qux baz", 0), vec![entry(4..7, "qux")]);
}

#[test]
fn insertion_between_tokens_has_an_empty_range() {
    assert_eq!(diff("a c", "a b c", 0), vec![entry(2..2, "b ")]);
    assert_eq!(diff("a+c", "a+b+c", 0).len(), 1);
    assert_eq!(apply("a+c", &diff("a+c", "a+b+c", 0), 0), "a+b+c");
}

#[test]
fn insertion_inside_a_word_replaces_the_word() {
    assert_eq!(diff("ac", "abc", 0), vec![entry(0..2, "abc")]);
}

#[test]
fn insertion_step_between_equal_steps() {
    let ops = vec![
        DiffOperation::Equal("a"),
        DiffOperation::Insert("b"),
        DiffOperation::Equal("c"),
    ];
    assert_eq!(build_edits(&ops, 0), vec![entry(1..1, "b")]);
}

#[test]
fn deletion_has_an_empty_replacement() {
    assert_eq!(diff("a b c", "a c", 0).len(), 1);
    let res = diff("one two three", "one three", 0);
    assert_eq!(res.len(), 1);
    assert_eq!(res[0].1, "");
    assert_eq!(res[0].0.end - res[0].0.start, 4);
    assert_eq!(apply("one two three", &res, 0), "one three");
}

#[test]
fn same_text_gives_no_edits() {
    for text in ["", "a", "foo bar baz", "a a a a", OLD_CODE, "héllo → wörld"] {
        assert_eq!(diff(text, text, 0), vec![]);
        assert_eq!(diff(text, text, 17), vec![]);
    }
    let long = "word ".repeat(300);
    assert_eq!(diff(&long, &long, 5), vec![]);
}

#[test]
fn offset_moves_every_range() {
    for (old, new) in [
        ("foo bar baz", "foo qux baz"),
        (OLD_CODE, NEW_CODE),
        ("", "abc"),
        ("a b c d e", "a x c y e z"),
    ] {
        let base = diff(old, new, 0);
        for k in [1usize, 7, 1000] {
            let moved = diff(old, new, k as u64);
            assert_eq!(moved.len(), base.len());
            for (m, b) in moved.iter().zip(base.iter()) {
                assert_eq!(m.0.start, b.0.start + k);
                assert_eq!(m.0.end, b.0.end + k);
                assert_eq!(m.1, b.1);
            }
        }
    }
    assert_eq!(diff("foo bar baz", "foo qux baz", 100), vec![entry(104..107, "qux")]);
}

#[test]
fn applying_the_script_gives_the_new_text() {
    let texts = [
        "",
        "a",
        "foo bar baz",
        "foo qux baz",
        "the quick brown fox",
        "the slow brown dog jumps",
        "x = y + z;",
        "x == y - z",
        "héllo wörld",
        "héllo → world ≠ 中文",
        OLD_CODE,
        NEW_CODE,
    ];
    for old in texts {
        for new in texts {
            let res = diff(old, new, 0);
            assert_eq!(apply(old, &res, 0), new, "{:?} -> {:?}", old, new);
            let res = diff(old, new, 31);
            assert_eq!(apply(old, &res, 31), new, "{:?} -> {:?}", old, new);
        }
    }
}

#[test]
fn long_texts_round_trip() {
    let old: String = (0..400).map(|i| format!("w{} ", i % 37)).collect();
    let new: String = (0..400).map(|i| format!("w{} ", (i * 7) % 41)).collect();
    let res = diff(&old, &new, 3);
    assert_eq!(apply(&old, &res, 3), new);
}

#[test]
fn entries_increase_and_stay_apart() {
    for (old, new) in [
        (OLD_CODE, NEW_CODE),
        (NEW_CODE, OLD_CODE),
        ("a b c d e f g", "a x c y e z g"),
        ("", "abc"),
        ("abc", ""),
    ] {
        let res = diff(old, new, 10);
        for e in &res {
            assert!(10 <= e.0.start && e.0.start <= e.0.end && e.0.end <= 10 + old.len());
        }
        for pair in res.windows(2) {
            assert!(pair[0].0.end < pair[1].0.start);
            assert!(pair[0].0.start < pair[1].0.start);
        }
    }
}

#[test]
fn ranges_count_bytes() {
    assert_eq!(diff("é b", "é c", 0), vec![entry(3..4, "c")]);
    assert_eq!(diff("中文 b", "中文 c", 2), vec![entry(9..10, "c")]);
    assert_eq!(diff("a é", "a ü", 0), vec![entry(2..4, "ü")]);
}

#[test]
fn empty_sides() {
    assert_eq!(diff("", "", 0), vec![]);
    assert_eq!(diff("", "abc", 0), vec![entry(0..0, "abc")]);
    assert_eq!(diff("abc", "", 0), vec![entry(0..3, "")]);
    assert_eq!(diff("", "abc", 5), vec![entry(5..5, "abc")]);
}

#[test]
fn equal_steps_only_move_the_cursor() {
    let ops = vec![DiffOperation::Equal("foo"), DiffOperation::Equal(" ")];
    assert_eq!(build_edits(&ops, 0), vec![]);
    assert_eq!(build_edits(&Vec::new(), 9), vec![]);
}

#[test]
fn deletions_that_touch_grow_one_entry() {
    let ops = vec![
        DiffOperation::Equal("ab"),
        DiffOperation::Delete("cd"),
        DiffOperation::Delete("é"),
        DiffOperation::Equal("x"),
        DiffOperation::Delete("y"),
    ];
    assert_eq!(build_edits(&ops, 0), vec![entry(2..6, ""), entry(7..8, "")]);
    assert_eq!(build_edits(&ops, 10), vec![entry(12..16, ""), entry(17..18, "")]);
}

#[test]
fn insertions_at_one_place_are_joined() {
    let ops = vec![
        DiffOperation::Equal("ab"),
        DiffOperation::Insert("x"),
        DiffOperation::Insert("yz"),
        DiffOperation::Equal("c"),
        DiffOperation::Insert("!"),
    ];
    assert_eq!(build_edits(&ops, 0), vec![entry(2..2, "xyz"), entry(3..3, "!")]);
}

#[test]
fn insert_after_delete_joins_and_delete_after_insert_joins() {
    let ops = vec![
        DiffOperation::Delete("old"),
        DiffOperation::Insert("new"),
        DiffOperation::Delete("er"),
        DiffOperation::Insert("!"),
    ];
    assert_eq!(build_edits(&ops, 4), vec![entry(4..9, "new!")]);
    let ops = vec![
        DiffOperation::Equal("a"),
        DiffOperation::Insert("b"),
        DiffOperation::Delete("c"),
    ];
    assert_eq!(build_edits(&ops, 0), vec![entry(1..2, "b")]);
}

#[test]
fn equal_step_separates_entries() {
    let ops = vec![
        DiffOperation::Delete("a"),
        DiffOperation::Equal(" "),
        DiffOperation::Insert("b"),
    ];
    assert_eq!(build_edits(&ops, 0), vec![entry(0..1, ""), entry(2..2, "b")]);
}

#[test]
fn accessors_read_entries_by_index() {
    let data = diff("a b c d e", "a x c y e", 10);
    assert_eq!(data, vec![entry(12..13, "x"), entry(16..17, "y")]);
    assert_eq!(diff_data_len(&data), 2);
    assert_eq!(diff_data_start(&data, 0), Some(12));
    assert_eq!(diff_data_end(&data, 0), Some(13));
    assert_eq!(diff_data_data(&data, 0), Some(String::from("x")));
    assert_eq!(diff_data_start(&data, 1), Some(16));
    assert_eq!(diff_data_end(&data, 1), Some(17));
    assert_eq!(diff_data_data(&data, 1), Some(String::from("y")));
}

#[test]
fn accessors_give_nothing_out_of_bounds() {
    let data = diff("a b", "a c", 0);
    assert_eq!(diff_data_len(&data), 1);
    assert_eq!(diff_data_start(&data, 1), None);
    assert_eq!(diff_data_end(&data, 1), None);
    assert_eq!(diff_data_data(&data, 1), None);
    assert_eq!(diff_data_start(&data, u64::MAX), None);
    assert_eq!(diff_data_end(&data, 1 << 40), None);
    assert_eq!(diff_data_data(&data, 1 << 32), None);
    let empty: DiffData = Vec::new();
    assert_eq!(diff_data_len(&empty), 0);
    assert_eq!(diff_data_start(&empty, 0), None);
    assert_eq!(diff_data_end(&empty, 0), None);
    assert_eq!(diff_data_data(&empty, 0), None);
}

#[test]
fn limits_are_told_before_the_call() {
    assert!(can_diff("", "", 0));
    assert!(can_diff("foo bar", "foo baz", 12));
    assert!(can_diff("abc", "", (usize::MAX - 3) as u64));
    assert!(!can_diff("abc", "", (usize::MAX - 2) as u64));
    assert!(!can_diff("a", "", u64::MAX));
    assert!(can_diff("", "", u64::MAX) == (usize::MAX as u64 == u64::MAX));
}
