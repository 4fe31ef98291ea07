use subdiff::conf::{CharacterClassExpansion, Conf, ContextLineFormat, ContextLineTokenization};
use subdiff::driver::diff_lines;
use subdiff::hunked::write_context_line;
use subdiff::select::{build_selector, Selector};

fn lines(ls: &[&str]) -> Vec<Vec<u8>> {
    ls.iter().map(|l| l.as_bytes().to_vec()).collect()
}

fn join_lines(ls: Vec<&str>) -> Vec<u8> {
    let mut acc = vec![];
    for l in ls {
        acc.extend(l.bytes());
        acc.push(b'\n');
    }
    acc
}

fn selector(res: Option<Vec<&str>>, ignore_re: Option<&str>) -> Selector {
    let res: Vec<String> = res.unwrap_or_default().into_iter().map(|s| s.to_string()).collect();
    match build_selector(&res, ignore_re) {
        Ok(sel) => sel,
        Err(_) => panic!("selector does not compile"),
    }
}

fn run(conf: &Conf, res: Option<Vec<&str>>, ignore_re: Option<&str>, old: &[&str], new: &[&str]) -> (i32, Vec<u8>) {
    let sel = selector(res, ignore_re);
    let mut out = vec![];
    match diff_lines(&mut out, conf, &sel, &lines(old), &lines(new)) {
        Ok(code) => (code, out),
        Err(_) => panic!("ambiguous selection"),
    }
}

fn check_output(conf: &Conf, res: Option<Vec<&str>>, ignore_re: Option<&str>, old: &[&str], new: &[&str], expected: &[u8]) {
    let (_, out) = run(conf, res, ignore_re, old, new);
    assert_eq!(String::from_utf8_lossy(&out), String::from_utf8_lossy(expected));
}

fn check_wdiff(s1: &str, s2: &str, exp: &str) {
    let conf = Conf {
        context: usize::MAX,
        context_tokenization: ContextLineTokenization::Char,
        ..Conf::default()
    };
    let mut out = vec![];
    write_context_line(&mut out, &conf, &s1.as_bytes().to_vec(), &s2.as_bytes().to_vec());
    assert_eq!(String::from_utf8_lossy(&out[1..]), exp);
}

#[test]
fn context_wdiff() {
    check_wdiff("", "", "");
    check_wdiff("", "a", "{+a}");
    check_wdiff("a", "", "{-a}");
    check_wdiff("a", "a", "a");

    check_wdiff("ab", "ab", "ab");
    check_wdiff("ac", "abc", "a{+b}c");
    check_wdiff("abc", "ac", "a{-b}c");

    check_wdiff("ad", "abcd", "a{+bc}d");
    check_wdiff("abcd", "ad", "a{-bc}d");
    check_wdiff("ac", "abcd", "a{+b}c{+d}");
    check_wdiff("acd", "abc", "a{+b}c{-d}");
    check_wdiff("abc", "adc", "a{-b}{+d}c");
    check_wdiff("abcd", "aefd", "a{-bc}{+ef}d");
}

fn do_newline_at_eof(conf: &Conf, expected: [&str; 6]) {
    // Both files end without a newline.
    check_output(conf, None, None, &["a\n", "b"], &["a\n", "b"], expected[0].as_bytes());
    // Both files end at a newline.
    check_output(conf, None, None, &["a\n", "b\n"], &["a\n", "b\n"], expected[1].as_bytes());
    // Old file ends without a newline.
    check_output(conf, None, None, &["a\n", "b"], &["a\n", "b\n"], expected[2].as_bytes());
    // New file ends without a newline.
    check_output(conf, None, None, &["a\n", "b\n"], &["a\n", "b"], expected[3].as_bytes());
    // The marker after a removal run that is not at the end of the hunk.
    check_output(conf, None, None, &["a\n", "b\n", "c\n", "d\n", "e\n", "f"], &["a\n"], expected[4].as_bytes());
    check_output(conf, None, None, &["a\n"], &["a\n", "b\n", "c\n", "d\n", "e\n", "f"], expected[5].as_bytes());
}

#[test]
fn newline_at_eof_handling() {
    let no_context = [
        "",
        "",
        "@@ -2 +2 @@\n-b\n\\ No newline at end of file\n+b\n",
        "@@ -2 +2 @@\n-b\n+b\n\\ No newline at end of file\n",
        "@@ -2,5 +1,0 @@\n-b\n-c\n-d\n-e\n-f\n\\ No newline at end of file\n",
        "@@ -1,0 +2,5 @@\n+b\n+c\n+d\n+e\n+f\n\\ No newline at end of file\n",
    ];
    let one_line = [
        "",
        "",
        "@@ -1,2 +1,2 @@\n a\n-b\n\\ No newline at end of file\n+b\n",
        "@@ -1,2 +1,2 @@\n a\n-b\n+b\n\\ No newline at end of file\n",
        "@@ -1,6 +1 @@\n a\n-b\n-c\n-d\n-e\n-f\n\\ No newline at end of file\n",
        "@@ -1 +1,6 @@\n a\n+b\n+c\n+d\n+e\n+f\n\\ No newline at end of file\n",
    ];
    for context in 0..2 {
        let conf = Conf { debug: false, context, ..Conf::default() };
        do_newline_at_eof(&conf, if context == 0 { no_context } else { one_line });
    }
}

#[test]
fn single_re_works() {
    let conf = Conf { debug: false, context: 1, ..Conf::default() };
    let re = Some(vec![r"^(\w+)\s+\w+\s+\w+$"]);
    let expected = join_lines(vec!["@@ -2,2 +2,2 @@", " d e f", "-g h i", "+x h i"]);
    check_output(
        &conf,
        re,
        None,
        &["a b c\n", "d e f\n", "g h i\n"],
        &["a x c\n", "d e f\n", "x h i\n"],
        &expected,
    )
}

#[test]
fn multiple_res_work() {
    let conf = Conf {
        debug: false,
        context: 1,
        context_format: ContextLineFormat::Wdiff,
        context_tokenization: ContextLineTokenization::Char,
        ..Conf::default()
    };
    let re = Some(vec![
        // only last word matches, if line starts with a letter
        r"^[a-z]+\s+\w+\s+(\w+)$",
        // only last word matches, if line starts with a digit
        r"^\d+\s+\w+\s+(\w+)$",
    ]);
    let expected = join_lines(vec![
        "@@ -1,6 +1,6 @@",
        " a {-b}{+x} c",
        "-d e f",
        "+d e x",
        " {-1}{+2} g h",
        "-1 i j",
        "+1 i x",
        " k l m",
        "-& o p",
        "+& x p",
    ]);
    check_output(
        &conf,
        re,
        None,
        &["a b c\n", "d e f\n", "1 g h\n", "1 i j\n", "k l m\n", "& o p\n"],
        &["a x c\n", "d e x\n", "2 g h\n", "1 i x\n", "k l m\n", "& x p\n"],
        &expected,
    )
}

#[test]
fn ignore_re_works() {
    let conf = Conf {
        debug: false,
        context: 1,
        context_tokenization: ContextLineTokenization::Char,
        ..Conf::default()
    };
    let ignore_re = Some(r"\b\d\b|0x[a-f0-9]+");
    let expected = join_lines(vec!["@@ -2,2 +2,2 @@", " d e 0x{-f00}{+eac}", "-g h i", "+x h i"]);
    check_output(
        &conf,
        None,
        ignore_re,
        &["a 1 c\n", "d e 0xf00\n", "g h i\n"],
        &["a 2 c\n", "d e 0xeac\n", "x h i\n"],
        &expected,
    )
}

#[test]
fn re_and_ignore_re_work() {
    let conf = Conf {
        debug: false,
        context: 1,
        context_tokenization: ContextLineTokenization::Char,
        ..Conf::default()
    };
    let re = Some(vec![r"^[a-z]+\s+\w+\s+(\w+)$", r"^\d+\s+\w+\s+(\w+)$"]);
    let ignore_re = Some(r"\b\d\b|0x[a-f0-9]+");
    let expected = join_lines(vec![
        "@@ -2,5 +2,5 @@",
        " d e 0x{-f00}{+eac}",
        "-1 i j",
        "+1 i x",
        " 1 l {-2}{+3}",
        " & {-3}{+4} o",
        "-& p q",
        "+# p q",
    ]);
    check_output(
        &conf,
        re,
        ignore_re,
        &["a b c\n", "d e 0xf00\n", "1 i j\n", "1 l 2\n", "& 3 o\n", "& p q\n"],
        &["a x c\n", "d e 0xeac\n", "1 i x\n", "1 l 3\n", "& 4 o\n", "# p q\n"],
        &expected,
    )
}

#[test]
fn character_class_wide() {
    let conf = Conf {
        debug: false,
        context: 100,
        context_format: ContextLineFormat::CC(CharacterClassExpansion::Wide),
        context_tokenization: ContextLineTokenization::Char,
        ..Conf::default()
    };
    let re = Some(vec![r"^[a-z]+\s+\S+\s+(\w+)$"]);
    let expected = join_lines(vec![
        r"@@ -1,6 +1,6 @@",
        r" a z\a{1}w c",
        r"-1 e f",
        r"+1 e x",
        r" g 0\d{1,2}9 h",
        r" j z\w{2}w k",
        r" n z.{3}w o",
        r" p a\a{1}c\a{1}ef q",
    ]);
    check_output(
        &conf,
        re,
        None,
        &["a zbw c\n", "1 e f\n", "g 019 h\n", "j zl2w k\n", "n zp1@w o\n", "p abcdef q\n"],
        &["a zxw c\n", "1 e x\n", "g 0229 h\n", "j zm3w k\n", "n zx24w o\n", "p axcyef q\n"],
        &expected,
    )
}

#[test]
fn character_class_narrow() {
    let conf = Conf {
        debug: false,
        context: 100,
        context_format: ContextLineFormat::CC(CharacterClassExpansion::Narrow),
        context_tokenization: ContextLineTokenization::Char,
        ..Conf::default()
    };
    let re = Some(vec![r"^[a-z]+\s+\S+\s+(\w+)$"]);
    let expected = join_lines(vec![
        r"@@ -1,8 +1,8 @@",
        r" aa \a+ c",
        r"-1 e f",
        r"+1 e x",
        r" g \d+ h",
        r" j \w+ k",
        r" n z.+w o",
        r" p \a+ r",
        r" \a+ \d+ u",
        r" \a+ \d+ w",
    ]);
    check_output(
        &conf,
        re,
        None,
        &["aa zbw c\n", "1 e f\n", "g 019 h\n", "j zl2w k\n", "n zp1@w o\n", "p abcdef r\n", "jun 12 u\n", "abcdef 7 w\n"],
        &["aa zxw c\n", "1 e x\n", "g 0229 h\n", "j zm3w k\n", "n zx24w o\n", "p aBCDEf r\n", "nov 09 u\n", "axcyef 8 w\n"],
        &expected,
    )
}
