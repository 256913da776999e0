use server::shell::builtins::{
    basename, echo, int_cmp, normalize, parse_count, parse_i64_str, parse_usize_str,
    split_flags, split_parent, IntOp,
};
use server::shell::lexer::{lex, LexError, Token};
use server::shell::parser::{parse_script, Node, ParseError};

fn s(v: &[&str]) -> Vec<String> {
    v.iter().map(|x| x.to_string()).collect()
}

#[test]
fn echo_joins_and_honours_dash_n() {
    assert_eq!(echo(&s(&["a", "b"])), "a b\n");
    assert_eq!(echo(&s(&["-n", "a", "b"])), "a b");
    assert_eq!(echo(&[]), "\n");
}

#[test]
fn flags_are_collected_until_the_first_operand() {
    let (flags, rest) = split_flags(&s(&["-rf", "-v", "dir", "-x", "-"]));
    assert_eq!(flags, "rfv");
    assert_eq!(rest, s(&["dir", "-x", "-"]));
}

#[test]
fn counts_parse_like_head_and_tail() {
    assert_eq!(parse_count(&s(&["-n", "3", "f"]), 10), (3, s(&["f"])));
    assert_eq!(parse_count(&s(&["-5", "f", "g"]), 10), (5, s(&["f", "g"])));
    assert_eq!(parse_count(&s(&["-n7"]), 10), (7, s(&[])));
    assert_eq!(parse_count(&s(&["-n", "x", "f"]), 10), (10, s(&["f"])));
    assert_eq!(parse_count(&s(&["-nx", "f"]), 10), (10, s(&["-nx", "f"])));
    assert_eq!(parse_count(&s(&["-n"]), 4), (4, s(&[])));
}

#[test]
fn numbers_parse_like_str_parse() {
    assert_eq!(parse_usize_str("42"), Some(42));
    assert_eq!(parse_usize_str("+7"), Some(7));
    assert_eq!(parse_usize_str("-7"), None);
    assert_eq!(parse_usize_str("+"), None);
    assert_eq!(parse_usize_str(""), None);
    assert_eq!(parse_usize_str("18446744073709551616"), None);
    assert_eq!(parse_i64_str("-9223372036854775808"), Some(i64::MIN));
    assert_eq!(parse_i64_str("9223372036854775808"), None);
    assert_eq!(parse_i64_str("-12"), Some(-12));
    assert!(int_cmp("3", "10", IntOp::Lt));
    assert!(!int_cmp("3", "x", IntOp::Ne));
    assert!(int_cmp("-1", "-1", IntOp::Ge));
}

#[test]
fn paths_normalize_against_the_cwd() {
    assert_eq!(normalize("a/b", "../c/./d"), "a/c/d");
    assert_eq!(normalize("a/b", "/x//y/"), "x/y");
    assert_eq!(normalize("", "../../z"), "z");
    assert_eq!(normalize("a", ""), "a");
    assert_eq!(split_parent("a/b/c"), ("a/b".to_string(), "c".to_string()));
    assert_eq!(split_parent("c"), ("".to_string(), "c".to_string()));
    assert_eq!(basename("x/y/"), "");
}

#[test]
fn lexer_reports_unbalanced_quotes() {
    assert!(matches!(lex("echo 'a"), Err(LexError::UnbalancedSingleQuote)));
    assert!(matches!(lex("echo \"a"), Err(LexError::UnbalancedDoubleQuote)));
    assert!(matches!(lex("sleep 1 &"), Err(LexError::Background)));
    let tokens = lex("a && b | c").unwrap();
    assert_eq!(tokens.len(), 5);
    assert!(matches!(tokens[1], Token::AndAnd));
}

#[test]
fn parser_builds_command_trees() {
    assert!(matches!(parse_script("echo a; echo b"), Ok(Node::Sequence(items)) if items.len() == 2));
    assert!(matches!(parse_script("a && b"), Ok(Node::And(_, _))));
    assert!(matches!(parse_script("a | b | c"), Ok(Node::Pipeline(cmds)) if cmds.len() == 3));
    assert!(matches!(parse_script("if true; then echo y; fi"), Ok(Node::If { .. })));
    assert!(matches!(parse_script("for x in 1 2; do echo $x; done"), Ok(Node::For { .. })));
    assert!(matches!(parse_script("while false; do echo; done"), Ok(Node::While { .. })));
}

#[test]
fn parse_errors_carry_their_kind() {
    assert!(parse_script("if true; then echo").is_err());
    assert!(matches!(parse_script("echo 'x"), Err(ParseError::Lex(LexError::UnbalancedSingleQuote))));
    assert!(matches!(parse_script("echo >"), Err(ParseError::ExpectedRedirectTarget)));
}

#[test]
fn normalizing_twice_changes_nothing() {
    for (base, path) in [("a/b", "../c"), ("a/b", "/x//y/"), ("", "../../z"), ("a", "."), ("q", "..")] {
        let once = normalize(base, path);
        assert!(!once.starts_with('/'));
        assert_eq!(normalize("", &once), once);
    }
    assert_eq!(normalize("a/b", "../c"), "a/c");
}

#[test]
fn normalized_paths_are_relative_and_absolute_paths_ignore_the_cwd() {
    for base in ["", "a/b", "..", "./x"] {
        for path in ["/x/../y", "z", "../q", ""] {
            assert!(!normalize(base, path).starts_with('/'));
        }
        assert_eq!(normalize(base, "/x/../y"), normalize("", "/x/../y"));
    }
    assert_eq!(normalize("..", "a"), "../a");
}
