use rbrep::error::Error;
use rbrep::expr::{Expr, ExprKind};
use rbrep::output::{ExprOutData, ExprOutput, MatchOutput};

fn one(pattern: &str) -> Expr {
    Expr::tree_from(pattern).unwrap().remove(0)
}

#[test]
fn new_node_has_no_modifier() {
    let e = Expr::new(ExprKind::Any, 3);
    assert!(matches!(e.kind(), ExprKind::Any));
    assert_eq!(e.mul(), 3);
    assert!(!e.many());
    assert!(!e.optional());
}

#[test]
fn single_node_takes_one_byte() {
    assert_eq!(Expr::single_len(), 1);
    for pattern in ["30", "??", "&30", "!30", "30-39", "!\"abc\""] {
        assert_eq!(one(pattern).kind().len(), 1, "{pattern}");
        assert_eq!(one(pattern).len(), 1, "{pattern}");
        assert!(!one(pattern).is_empty());
    }
}

#[test]
fn string_takes_its_bytes() {
    assert_eq!(one("\"Hello\"").len(), 5);
    assert_eq!(one("\"h\u{e9}\"").len(), 3);
    assert_eq!(one("\"\"").len(), 0);
    assert!(one("\"\"").is_empty());
    assert!(one("\"\"").kind().is_empty());
}

#[test]
fn conjunction_takes_the_sum_and_disjunction_the_greatest() {
    assert_eq!(one("&(30\"abc\"31)").len(), 5);
    assert_eq!(one("(30\"abc\"31)").len(), 3);
    assert_eq!(one("&()").len(), 0);
    assert_eq!(one("()").len(), 0);
    assert_eq!(one("&((30\"ab\")&(3031\"abc\"))").len(), 7);
}

#[test]
fn count_multiplies_the_length() {
    assert_eq!(one("30*4;").len(), 4);
    assert_eq!(one("30*4;").kind().len(), 1);
    assert_eq!(one("\"ab\"*3;").len(), 6);
    assert_eq!(one("&(30*2;\"ab\"*3;)").len(), 8);
    assert_eq!(one("(30*2;\"ab\"*3;)*2;").len(), 12);
    assert_eq!(one("30*0;").len(), 1);
    assert_eq!(Expr::new(ExprKind::Any, 0).len(), 0);
}

#[test]
fn clone_keeps_the_tree() {
    let e = one("&(30(31\"ab\")*2+;!32*0;)*3;");
    let c = e.clone();
    assert_eq!(c.mul(), 3);
    assert_eq!(c.len(), e.len());
    match (e.kind(), c.kind().clone()) {
        (ExprKind::Group { nodes: a, and: x }, ExprKind::Group { nodes: b, and: y }) => {
            assert_eq!(*x, y);
            assert_eq!(a.len(), b.len());
            assert_eq!(b[1].mul(), 2);
            assert!(b[1].many());
            assert!(b[2].optional());
            assert!(matches!(b[2].kind(), ExprKind::Not { .. }));
        }
        _ => panic!("a group"),
    }
}

#[test]
fn errors_have_words() {
    assert_eq!(Error::BadSyntax(3).message(), "Syntax error");
    assert_eq!(Error::EndOfFile.message(), "Unknown error");
    assert_eq!(Error::Io.message(), "Unknown error");
    assert_eq!(Error::Unknown.message(), "Unknown error");
}

#[test]
fn output_holds_what_was_pushed() {
    let mut out = ExprOutput::default();
    assert!(out.is_empty());
    out.push(ExprOutData::new(7, true));
    out.push(ExprOutData::new(8, false));
    assert_eq!(out.len(), 2);
    assert!(!out.is_empty());
    let copy = out.clone();
    out.push(ExprOutData::new(9, false));
    assert_eq!(copy.as_slice(), &[ExprOutData::new(7, true), ExprOutData::new(8, false)]);
    assert_eq!(out.as_slice()[2].value, 9);
    assert!(!out.as_slice()[2].highlight);
    assert_eq!(ExprOutData::default(), ExprOutData::new(0, false));
}
