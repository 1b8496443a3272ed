use rbrep::error::Error;
use rbrep::expr::{Expr, ExprKind};

fn one(pattern: &str) -> Expr {
    let mut tree = Expr::tree_from(pattern).unwrap();
    assert_eq!(tree.len(), 1, "{pattern} is one node");
    tree.remove(0)
}

fn bad(pattern: &str) -> usize {
    match Expr::tree_from(pattern) {
        Err(Error::BadSyntax(at)) => at,
        _ => panic!("{pattern} is no pattern"),
    }
}

#[test]
fn empty_pattern_compiles_to_nothing() {
    assert!(Expr::tree_from("").unwrap().is_empty());
}

#[test]
fn white_space_alone_compiles_to_nothing() {
    assert!(Expr::tree_from(" \t\n ").unwrap().is_empty());
}

#[test]
fn two_hex_digits_are_a_byte() {
    let e = one("30");
    assert!(matches!(e.kind(), ExprKind::Byte { value: 0x30 }));
    assert_eq!(e.mul(), 1);
    assert!(!e.many());
    assert!(!e.optional());
}

#[test]
fn hex_digits_come_in_both_cases() {
    assert!(matches!(one("aB").kind(), ExprKind::Byte { value: 0xab }));
    assert!(matches!(one("Fe").kind(), ExprKind::Byte { value: 0xfe }));
    assert!(matches!(one("09").kind(), ExprKind::Byte { value: 0x09 }));
}

#[test]
fn white_space_is_skipped_before_every_character() {
    assert!(matches!(one(" 3 0 ").kind(), ExprKind::Byte { value: 0x30 }));
    assert!(matches!(one("? ?").kind(), ExprKind::Any));
    assert!(matches!(one("30 - 32").kind(), ExprKind::Range { from: 0x30, to: 0x32 }));
    let e = one("31 * 2 + ;");
    assert_eq!(e.mul(), 2);
    assert!(e.many());
    let tree = Expr::tree_from("30\n31\t32").unwrap();
    assert_eq!(tree.len(), 3);
}

#[test]
fn wildcard() {
    assert!(matches!(one("??").kind(), ExprKind::Any));
}

#[test]
fn range_runs_from_the_smaller_to_the_larger() {
    assert!(matches!(one("30-32").kind(), ExprKind::Range { from: 0x30, to: 0x32 }));
    assert!(matches!(one("32-30").kind(), ExprKind::Range { from: 0x30, to: 0x32 }));
    assert!(matches!(one("41-41").kind(), ExprKind::Range { from: 0x41, to: 0x41 }));
}

#[test]
fn string_holds_the_bytes_between_the_quotes() {
    match one("\"Hello\"").kind() {
        ExprKind::String { value } => assert_eq!(value.as_bytes(), b"Hello"),
        _ => panic!("a string"),
    }
    match one("\"a b \"").kind() {
        ExprKind::String { value } => assert_eq!(value.as_bytes(), b"a b "),
        _ => panic!("a string"),
    }
    match one("\"\"").kind() {
        ExprKind::String { value } => assert!(value.is_empty()),
        _ => panic!("a string"),
    }
    match one("\"h\u{e9}\"").kind() {
        ExprKind::String { value } => assert_eq!(value.as_bytes(), &[0x68, 0xc3, 0xa9]),
        _ => panic!("a string"),
    }
}

#[test]
fn brackets_make_a_disjunction() {
    match one("(3032)").kind() {
        ExprKind::Group { nodes, and } => {
            assert!(!*and);
            assert_eq!(nodes.len(), 2);
            assert!(matches!(nodes[0].kind(), ExprKind::Byte { value: 0x30 }));
            assert!(matches!(nodes[1].kind(), ExprKind::Byte { value: 0x32 }));
        }
        _ => panic!("a group"),
    }
    match one("( )").kind() {
        ExprKind::Group { nodes, and } => {
            assert!(!*and);
            assert!(nodes.is_empty());
        }
        _ => panic!("a group"),
    }
}

#[test]
fn ampersand_and_brackets_make_a_conjunction() {
    match one("&(30(3132)\"x\")").kind() {
        ExprKind::Group { nodes, and } => {
            assert!(*and);
            assert_eq!(nodes.len(), 3);
            assert!(matches!(nodes[1].kind(), ExprKind::Group { and: false, .. }));
            assert!(matches!(nodes[2].kind(), ExprKind::String { .. }));
        }
        _ => panic!("a group"),
    }
}

#[test]
fn ampersand_and_a_byte_make_a_mask() {
    assert!(matches!(one("&30").kind(), ExprKind::And { value: 0x30 }));
    assert!(matches!(one("& f0").kind(), ExprKind::And { value: 0xf0 }));
}

#[test]
fn negation_takes_one_node() {
    match one("!&30").kind() {
        ExprKind::Not { expr } => assert!(matches!(expr.kind(), ExprKind::And { value: 0x30 })),
        _ => panic!("a negation"),
    }
    let tree = Expr::tree_from("!3031").unwrap();
    assert_eq!(tree.len(), 2);
    assert!(matches!(tree[0].kind(), ExprKind::Not { .. }));
    assert!(matches!(tree[1].kind(), ExprKind::Byte { value: 0x31 }));
}

#[test]
fn suffix_behind_a_negation_belongs_to_the_negation() {
    let e = one("!30*2;");
    assert_eq!(e.mul(), 2);
    match e.kind() {
        ExprKind::Not { expr } => {
            assert_eq!(expr.mul(), 1);
            assert!(matches!(expr.kind(), ExprKind::Byte { value: 0x30 }));
        }
        _ => panic!("a negation"),
    }
}

#[test]
fn suffix_behind_a_group_belongs_to_the_group() {
    let e = one("(3031)*3;");
    assert_eq!(e.mul(), 3);
    match e.kind() {
        ExprKind::Group { nodes, .. } => {
            assert_eq!(nodes[0].mul(), 1);
            assert_eq!(nodes[1].mul(), 1);
        }
        _ => panic!("a group"),
    }
}

#[test]
fn count_sets_the_repetitions() {
    let e = one("31*2;");
    assert_eq!(e.mul(), 2);
    assert!(!e.many());
    assert!(!e.optional());
    assert_eq!(one("31*007;").mul(), 7);
    assert_eq!(one("31*4294967295;").mul(), u32::MAX);
}

#[test]
fn count_zero_makes_the_node_optional() {
    let e = one("31*0;");
    assert_eq!(e.mul(), 1);
    assert!(e.optional());
    assert!(!e.many());
}

#[test]
fn plus_makes_the_node_greedy() {
    let e = one("31*1+;");
    assert_eq!(e.mul(), 1);
    assert!(e.many());
    assert!(!e.optional());
    let e = one("31*0+;");
    assert_eq!(e.mul(), 1);
    assert!(e.many());
    assert!(e.optional());
    let e = one("31*3+;");
    assert_eq!(e.mul(), 3);
    assert!(e.many());
}

#[test]
fn no_count_is_stored_as_zero() {
    for pattern in ["30*0;", "(30*0;31*0+;)*0;", "!30*0;", "&(30*0;)"] {
        fn check(e: &Expr) {
            assert!(e.mul() >= 1);
            if e.optional() {
                assert_eq!(e.mul(), 1);
            }
            match e.kind() {
                ExprKind::Not { expr } => check(expr),
                ExprKind::Group { nodes, .. } => nodes.iter().for_each(check),
                _ => {}
            }
        }
        Expr::tree_from(pattern).unwrap().iter().for_each(check);
    }
}

#[test]
fn syntax_errors_tell_where() {
    assert_eq!(bad("3"), 1);
    assert_eq!(bad("3g"), 2);
    assert_eq!(bad("zz"), 0);
    assert_eq!(bad("30 zz"), 3);
    assert_eq!(bad("+5"), 0);
    assert_eq!(bad("?"), 1);
    assert_eq!(bad("?x"), 1);
    assert_eq!(bad("(30"), 3);
    assert_eq!(bad("(30 "), 4);
    assert_eq!(bad(")"), 0);
    assert_eq!(bad("\"abc"), 4);
    assert_eq!(bad("&"), 1);
    assert_eq!(bad("&3"), 2);
    assert_eq!(bad("!"), 1);
    assert_eq!(bad("30-"), 3);
    assert_eq!(bad("30-+5"), 5);
    assert_eq!(bad("30*;"), 3);
    assert_eq!(bad("30*x;"), 3);
    assert_eq!(bad("30*2"), 4);
    assert_eq!(bad("30*2+"), 5);
    assert_eq!(bad("30*2 x"), 5);
    assert_eq!(bad("30*4294967296;"), 13);
    assert_eq!(bad("30*99999999999999999999999;"), 26);
}

#[test]
fn a_digit_run_does_not_go_on_behind_white_space() {
    assert_eq!(bad("30*1 2;"), 5);
}

#[test]
fn syntax_error_lies_within_the_pattern() {
    let patterns = [
        "3", "3 ", " 3", "?", "(", "((", "\"", "&", "& ", "!", "!!", "30-", "30 - 3", "30*",
        "30*1", "30*1+", "*", ";", "30*1;*", "(30))", "h", "30 \u{e9}", "\u{e9}",
    ];
    for pattern in patterns {
        let at = bad(pattern);
        assert!(at <= pattern.chars().count(), "{pattern}: {at}");
    }
}
