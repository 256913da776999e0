use server::shell::text_cmds::{
    grep_args, grep_text, head_tail_text, stat_answer, test_step, wc_text, GrepOptions,
    StatQuery, TestStep,
};

fn s(v: &[&str]) -> Vec<String> {
    v.iter().map(|x| x.to_string()).collect()
}

fn opts(ignore_case: bool, invert: bool, number: bool) -> GrepOptions {
    GrepOptions {
        ignore_case,
        invert,
        number,
    }
}

#[test]
fn grep_selects_lines_like_grep() {
    let one = vec![(String::new(), "apple\nBanana\ncherry\n".to_string())];
    assert_eq!(grep_text("an", &one, opts(false, false, false)), ("Banana\n".to_string(), true));
    assert_eq!(grep_text("AN", &one, opts(true, false, true)), ("2:Banana\n".to_string(), true));
    assert_eq!(
        grep_text("an", &one, opts(false, true, false)),
        ("apple\ncherry\n".to_string(), true)
    );
    assert_eq!(grep_text("zzz", &one, opts(false, false, false)), (String::new(), false));
    let two = vec![
        ("a.txt".to_string(), "x\ny".to_string()),
        ("b.txt".to_string(), "y".to_string()),
    ];
    assert_eq!(
        grep_text("y", &two, opts(false, false, false)),
        ("a.txt:y\nb.txt:y\n".to_string(), true)
    );
}

#[test]
fn grep_flags_are_read_before_the_pattern() {
    let (o, rest) = grep_args(&s(&["-in", "-v", "pat", "-x", "file"]));
    assert_eq!(o, opts(true, true, true));
    assert_eq!(rest, s(&["pat", "-x", "file"]));
}

#[test]
fn head_tail_and_wc_on_text() {
    assert_eq!(head_tail_text("1\n2\n3\n", 2, true), "1\n2\n");
    assert_eq!(head_tail_text("1\n2\n3\n", 2, false), "2\n3\n");
    assert_eq!(head_tail_text("1\n2", 10, false), "1\n2\n");
    assert_eq!(head_tail_text("", 3, true), "");
    assert_eq!(wc_text("a b\nc\n", ""), "2 3 6\n");
    assert_eq!(wc_text("a b\nc\n", "l"), "2\n");
    assert_eq!(wc_text("héllo", "c"), "6\n");
    assert_eq!(wc_text("  one  two ", "w"), "2\n");
}

fn done(step: TestStep) -> bool {
    match step {
        TestStep::Done(b) => b,
        other => panic!("{other:?}"),
    }
}

#[test]
fn test_evaluates_its_operators() {
    assert!(!done(test_step(false, &[])));
    assert!(done(test_step(false, &s(&["x"]))));
    assert!(done(test_step(false, &s(&["-z", ""]))));
    assert!(done(test_step(true, &s(&["a", "=", "a", "]"]))));
    assert!(done(test_step(false, &s(&["3", "-lt", "10"]))));
    assert!(!done(test_step(false, &s(&["3", "-lt", "x"]))));
    assert!(matches!(
        test_step(false, &s(&["-d", "dir"])),
        TestStep::Stat { path, query: StatQuery::IsDir } if path == "dir"
    ));
    assert!(matches!(test_step(true, &s(&["a"])), TestStep::Fail(m) if m == "[: missing `]'"));
    assert!(matches!(
        test_step(false, &s(&["-q", "a"])),
        TestStep::Fail(m) if m == "test: -q: unary operator expected"
    ));
    assert!(matches!(
        test_step(false, &s(&["a", "-q", "b"])),
        TestStep::Fail(m) if m == "test: -q: binary operator expected"
    ));
    assert!(matches!(
        test_step(false, &s(&["a", "b", "c", "d"])),
        TestStep::Fail(m) if m == "test: too many arguments"
    ));
    assert!(stat_answer(StatQuery::Exists, Some(true)));
    assert!(!stat_answer(StatQuery::IsFile, Some(true)));
    assert!(!stat_answer(StatQuery::IsDir, None));
}
