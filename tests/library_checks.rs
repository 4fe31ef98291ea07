use subdiff::conf::{CharacterClassExpansion, Conf, ContextLineFormat, ContextLineTokenization};
use subdiff::driver::diff_lines;
use subdiff::edit::{Edit, EditKind};
use subdiff::hunked::{group_hunks, write_context_line};
use subdiff::select::{build_selector, omit_spans, select_captures, SelectorError};
use subdiff::wdiff::{class_of_atom, separate_final_newline, tokenize, CharacterClass};

fn lines(ls: &[&str]) -> Vec<Vec<u8>> {
    ls.iter().map(|l| l.as_bytes().to_vec()).collect()
}

fn diff_with(conf: &Conf, res: &[&str], ignore_re: Option<&str>, old: &str, new: &str) -> (i32, String) {
    let res: Vec<String> = res.iter().map(|s| s.to_string()).collect();
    let sel = match build_selector(&res, ignore_re) {
        Ok(sel) => sel,
        Err(_) => panic!("selector does not compile"),
    };
    let split = |s: &str| -> Vec<Vec<u8>> {
        let mut v = vec![];
        let mut cur = vec![];
        for b in s.bytes() {
            cur.push(b);
            if b == b'\n' {
                v.push(std::mem::take(&mut cur));
            }
        }
        if !cur.is_empty() {
            v.push(cur);
        }
        v
    };
    let mut out = vec![];
    match diff_lines(&mut out, conf, &sel, &split(old), &split(new)) {
        Ok(code) => (code, String::from_utf8(out).unwrap()),
        Err(_) => panic!("ambiguous selection"),
    }
}

fn context_line(conf: &Conf, a: &str, b: &str) -> String {
    let mut out = vec![];
    write_context_line(&mut out, conf, &a.as_bytes().to_vec(), &b.as_bytes().to_vec());
    String::from_utf8(out).unwrap()
}

#[test]
fn identical_files_give_no_output() {
    let conf = Conf::default();
    assert_eq!(diff_with(&conf, &[], None, "a\nb\nc\n", "a\nb\nc\n"), (0, String::new()));
}

#[test]
fn single_addition_with_one_line_of_context() {
    let conf = Conf { context: 1, ..Conf::default() };
    assert_eq!(
        diff_with(&conf, &[], None, "a\nb\nc\n", "a\nb\nx\nc\n"),
        (1, "@@ -2,2 +2,3 @@\n b\n+x\n c\n".to_string())
    );
}

#[test]
fn removals_come_before_additions() {
    let conf = Conf { context: 1, ..Conf::default() };
    assert_eq!(
        diff_with(&conf, &[], None, "a\nb\nc\n", "a\nB\nc\n"),
        (1, "@@ -1,3 +1,3 @@\n a\n-b\n+B\n c\n".to_string())
    );
}

#[test]
fn missing_newline_on_new_side() {
    let conf = Conf { context: 0, ..Conf::default() };
    assert_eq!(
        diff_with(&conf, &[], None, "a\nb\n", "a\nB"),
        (1, "@@ -2 +2 @@\n-b\n+B\n\\ No newline at end of file\n".to_string())
    );
}

#[test]
fn missing_newline_on_both_sides_marks_both() {
    let conf = Conf { context: 0, ..Conf::default() };
    assert_eq!(
        diff_with(&conf, &[], None, "a\nb", "a\nB"),
        (
            1,
            "@@ -2 +2 @@\n-b\n\\ No newline at end of file\n+B\n\\ No newline at end of file\n".to_string()
        )
    );
}

#[test]
fn ignored_digits_give_no_hunks() {
    let conf = Conf { context: 1, ..Conf::default() };
    assert_eq!(diff_with(&conf, &[], Some(r"\b\d\b"), "a 1 c\n", "a 2 c\n"), (0, String::new()));
}

#[test]
fn distant_changes_make_separate_hunks() {
    let conf = Conf { context: 1, ..Conf::default() };
    let (code, out) = diff_with(&conf, &[], None, "a\nb\nc\nd\ne\nf\ng\n", "A\nb\nc\nd\ne\nf\nG\n");
    assert_eq!(code, 1);
    assert_eq!(out, "@@ -1,2 +1,2 @@\n-a\n+A\n b\n@@ -6,2 +6,2 @@\n f\n-g\n+G\n");
}

#[test]
fn nearby_changes_share_a_hunk() {
    let conf = Conf { context: 1, ..Conf::default() };
    let (_, out) = diff_with(&conf, &[], None, "a\nb\nc\nd\n", "A\nb\nc\nD\n");
    assert_eq!(out, "@@ -1,4 +1,4 @@\n-a\n+A\n b\n c\n-d\n+D\n");
}

#[test]
fn changed_context_is_marked_on_request() {
    let conf = Conf { context: 1, mark_changed_context: true, ..Conf::default() };
    let (_, out) = diff_with(&conf, &[r"^(\w+) "], None, "k 1\nz\n", "k 2\ny\n");
    assert_eq!(out, "@@ -1,2 +1,2 @@\n!k {-1}{+2}\n-z\n+y\n");
}

#[test]
fn display_selected_shows_keys() {
    let conf = Conf { context: 1, display_selected: true, ..Conf::default() };
    let (_, out) = diff_with(&conf, &[r"^(\w+) "], None, "k 1\nz q\n", "k 2\ny q\n");
    assert_eq!(out, "@@ -1,2 +1,2 @@\n k\n-z\n+y\n");
}

#[test]
fn old_and_new_context_formats() {
    let old = Conf { context_format: ContextLineFormat::Old, ..Conf::default() };
    assert_eq!(context_line(&old, "ab\n", "ac\n"), " ab\n");
    let new = Conf { context_format: ContextLineFormat::New, ..Conf::default() };
    assert_eq!(context_line(&new, "ab\n", "ac\n"), " ac\n");
}

#[test]
fn narrow_classes_summarise_a_run() {
    let conf = Conf {
        context_format: ContextLineFormat::CC(CharacterClassExpansion::Narrow),
        ..Conf::default()
    };
    assert_eq!(context_line(&conf, "aa zbw c\n", "aa zxw c\n"), " aa \\a+ c\n");
}

#[test]
fn wide_classes_count_bytes() {
    let conf = Conf {
        context_format: ContextLineFormat::CC(CharacterClassExpansion::Wide),
        ..Conf::default()
    };
    assert_eq!(context_line(&conf, "g 019 h\n", "g 0229 h\n"), " g 0\\d{1,2}9 h\n");
    assert_eq!(context_line(&conf, "x 12 y\n", "x 34 y\n"), " x \\d{2} y\n");
    assert_eq!(context_line(&conf, "x 1 y\n", "x 345 y\n"), " x \\d{1,3} y\n");
}

#[test]
fn word_tokens_diff_whole_words() {
    let conf = Conf { context_tokenization: ContextLineTokenization::Word, ..Conf::default() };
    assert_eq!(context_line(&conf, "foo bar\n", "foo baz\n"), " foo {-bar}{+baz}\n");
}

#[test]
fn tokenize_splits_at_word_boundaries() {
    let words = tokenize(b"ab cd\n");
    assert_eq!(words, vec![b"".to_vec(), b"ab".to_vec(), b" ".to_vec(), b"cd".to_vec(), b"\n".to_vec()]);
}

#[test]
fn tokenize_keeps_final_newline_alone() {
    let words = tokenize(b"a#\n");
    assert_eq!(words, vec![b"".to_vec(), b"a".to_vec(), b"#".to_vec(), b"\n".to_vec()]);
}

#[test]
fn character_classes_of_atoms() {
    assert_eq!(class_of_atom(b"ab1"), CharacterClass::Word);
    assert_eq!(class_of_atom(b"  "), CharacterClass::White);
    assert_eq!(class_of_atom(b"a "), CharacterClass::Any);
    assert_eq!(class_of_atom(b""), CharacterClass::Any);
    assert_eq!(CharacterClass::Alpha.merge(&CharacterClass::Digit), CharacterClass::Word);
    assert!(CharacterClass::Word.accepts(b"z9"));
    assert!(!CharacterClass::Alpha.accepts(b"9"));
}

#[test]
fn nested_captures_are_skipped() {
    let line = b"abcdef";
    let caps = vec![Some((0, 4)), Some((1, 2)), None, Some((4, 6))];
    assert_eq!(select_captures(line, &caps), b"abcdef\n".to_vec());
    let caps = vec![Some((2, 3))];
    assert_eq!(select_captures(line, &caps), b"c\n".to_vec());
}

#[test]
fn spans_are_deleted() {
    assert_eq!(omit_spans(b"a 1 c 22\n", &vec![(2, 3), (6, 8)]), b"a  c \n".to_vec());
    assert_eq!(omit_spans(b"abc", &vec![]), b"abc".to_vec());
}

#[test]
fn grouping_without_context() {
    let e = |kind, o, n| Edit { kind, old_index: o, new_index: n };
    let edits = vec![
        e(EditKind::Common, 0, 0),
        e(EditKind::Added, 1, 1),
        e(EditKind::Removed, 1, 2),
        e(EditKind::Common, 2, 2),
        e(EditKind::Removed, 3, 3),
    ];
    let hunks = group_hunks(0, &edits);
    assert_eq!(hunks.len(), 2);
    assert_eq!(hunks[0].items, vec![e(EditKind::Removed, 1, 2), e(EditKind::Added, 1, 1)]);
    assert_eq!((hunks[0].old_start, hunks[0].old_len, hunks[0].new_start, hunks[0].new_len), (1, 1, 1, 1));
    assert_eq!(hunks[1].items, vec![e(EditKind::Removed, 3, 3)]);
    assert_eq!((hunks[1].old_len, hunks[1].new_len), (1, 0));
}

#[test]
fn format_names() {
    assert_eq!(ContextLineFormat::new("cc"), ContextLineFormat::CC(CharacterClassExpansion::Narrow));
    assert_eq!(ContextLineFormat::new("ccwide"), ContextLineFormat::CC(CharacterClassExpansion::Wide));
    assert_eq!(ContextLineFormat::new("wdiff"), ContextLineFormat::Wdiff);
    assert_eq!(ContextLineFormat::new("old"), ContextLineFormat::Old);
    assert_eq!(ContextLineFormat::new("new"), ContextLineFormat::New);
    assert_eq!(ContextLineFormat::allowed_values(), vec!["cc", "ccwide", "wdiff", "old", "new"]);
}

#[test]
fn pattern_without_group_is_refused() {
    match build_selector(&vec!["abc".to_string()], None) {
        Err(SelectorError::NoCaptureGroup { pattern }) => assert_eq!(pattern, "abc"),
        _ => panic!("expected a refusal"),
    }
}

#[test]
fn pattern_that_does_not_compile_is_refused() {
    match build_selector(&vec!["(a".to_string()], None) {
        Err(SelectorError::Compile { pattern, .. }) => assert_eq!(pattern, "(a"),
        _ => panic!("expected a refusal"),
    }
    match build_selector(&vec![], Some("[z")) {
        Err(SelectorError::Compile { pattern, .. }) => assert_eq!(pattern, "[z"),
        _ => panic!("expected a refusal"),
    }
}

#[test]
fn line_matched_by_two_patterns_is_ambiguous() {
    let res = vec![r"^(a)".to_string(), r"(b)$".to_string()];
    let sel = match build_selector(&res, None) {
        Ok(sel) => sel,
        Err(_) => panic!("selector does not compile"),
    };
    let mut out = vec![];
    match diff_lines(&mut out, &Conf::default(), &sel, &lines(&["ab\n"]), &lines(&["ab\n"])) {
        Err(amb) => assert_eq!(amb.line, b"ab\n".to_vec()),
        Ok(_) => panic!("expected an ambiguity"),
    }
    assert!(out.is_empty());
}

#[test]
fn every_output_line_starts_with_a_marker() {
    let conf = Conf { context: 1, ..Conf::default() };
    let (_, out) = diff_with(&conf, &[], None, "a\nb\nc\nd\ne\nf", "a\nx\nc\nd\ne\ng");
    for line in out.lines() {
        let c = line.as_bytes()[0];
        assert!(b" +-!@\\".contains(&c), "line {:?}", line);
    }
}

#[test]
fn wdiff_output_recovers_both_sides() {
    let conf = Conf::default();
    let out = context_line(&conf, "abcd\n", "aefd\n");
    let body = &out[1..];
    let mut old = String::new();
    let mut new = String::new();
    let mut mode = ' ';
    let mut chars = body.chars().peekable();
    while let Some(c) = chars.next() {
        if c == '{' && mode == ' ' {
            mode = chars.next().unwrap();
        } else if c == '}' && mode != ' ' {
            mode = ' ';
        } else {
            if mode != '+' {
                old.push(c);
            }
            if mode != '-' {
                new.push(c);
            }
        }
    }
    assert_eq!(old, "abcd\n");
    assert_eq!(new, "aefd\n");
}

#[test]
fn final_newline_is_separated() {
    let words = vec![b"a".to_vec(), b"#\n".to_vec()];
    assert_eq!(separate_final_newline(words), vec![b"a".to_vec(), b"#".to_vec(), b"\n".to_vec()]);
    let words = vec![b"a".to_vec(), b"\n".to_vec()];
    assert_eq!(separate_final_newline(words.clone()), words);
}

#[test]
fn projection_twice_equals_once() {
    let sel = match build_selector(&vec![r"^(\w+)\s".to_string()], None) {
        Ok(sel) => sel,
        Err(_) => panic!("selector does not compile"),
    };
    let once = match sel.project(b"ab cd\n") {
        Ok(k) => k,
        Err(_) => panic!("ambiguous"),
    };
    assert_eq!(once, b"ab\n".to_vec());
    let twice = match sel.project(&once) {
        Ok(k) => k,
        Err(_) => panic!("ambiguous"),
    };
    assert_eq!(twice, once);
}

#[test]
fn empty_files_compare_equal() {
    let conf = Conf::default();
    assert_eq!(diff_with(&conf, &[], None, "", ""), (0, String::new()));
}

#[test]
fn everything_added_to_an_empty_file() {
    let conf = Conf::default();
    assert_eq!(diff_with(&conf, &[], None, "", "a\nb\n"), (1, "@@ -0,0 +1,2 @@\n+a\n+b\n".to_string()));
    assert_eq!(diff_with(&conf, &[], None, "a\n", ""), (1, "@@ -1 +0,0 @@\n-a\n".to_string()));
}
