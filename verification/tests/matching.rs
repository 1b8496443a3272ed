use rbrep::expr::matcher::MatchList;
use rbrep::expr::{Expr, ExprKind};
use rbrep::input::{FileBufferInput, MatchInput, MemorySource};
use rbrep::output::{ExprOutData, ExprOutput, MatchOutput};

fn window(input: &[u8]) -> FileBufferInput<MemorySource> {
    FileBufferInput::new(MemorySource::new(input.to_vec()))
}

/// The bytes of the match at the start of `input`.
fn at_start(pattern: &str, input: &[u8]) -> Vec<ExprOutData> {
    let tree = Expr::tree_from(pattern).unwrap();
    let out: ExprOutput = Expr::start_match(&tree, &mut window(input)).unwrap();
    out.as_slice().to_vec()
}

/// The matches in `input`: offset, values, marks.
fn scan(pattern: &str, input: &[u8], stop_after: Option<usize>) -> Vec<(usize, Vec<u8>, Vec<bool>)> {
    let tree = Expr::tree_from(pattern).unwrap();
    let mut list = MatchList::new();
    let n = Expr::for_each_match::<_, ExprOutput, _>(&tree, &mut window(input), &mut list, stop_after)
        .unwrap();
    let found = list.into_vec();
    assert_eq!(n, found.len());
    found
        .into_iter()
        .map(|f| {
            (
                f.offset,
                f.bytes.iter().map(|b| b.value).collect(),
                f.bytes.iter().map(|b| b.highlight).collect(),
            )
        })
        .collect()
}

fn offsets(pattern: &str, input: &[u8]) -> Vec<usize> {
    scan(pattern, input, None).into_iter().map(|m| m.0).collect()
}

fn values(pattern: &str, input: &[u8]) -> Vec<u8> {
    at_start(pattern, input).iter().map(|b| b.value).collect()
}

#[test]
fn byte_matches_at_offset_zero() {
    assert_eq!(scan("30", b"01", None), vec![(0, vec![0x30], vec![true])]);
}

#[test]
fn wildcard_takes_any_byte_without_a_mark() {
    assert_eq!(
        scan("??", b"01", None),
        vec![(0, vec![0x30], vec![false]), (1, vec![0x31], vec![false])]
    );
}

#[test]
fn string_matches_with_all_bytes_marked() {
    assert_eq!(
        scan("\"Hello\"", b"12Hello34", None),
        vec![(2, vec![0x48, 0x65, 0x6c, 0x6c, 0x6f], vec![true; 5])]
    );
}

#[test]
fn range_does_not_hold_its_upper_end() {
    assert_eq!(
        scan("30-32", b"01234", None),
        vec![(0, vec![0x30], vec![true]), (1, vec![0x31], vec![true])]
    );
    assert!(at_start("30-32", b"2").is_empty());
    assert!(at_start("41-41", b"A").is_empty());
    assert_eq!(values("32-30", b"1"), vec![0x31]);
}

#[test]
fn conjunction_takes_its_children_in_sequence() {
    assert_eq!(scan("&(3032)", b"02134", None), vec![(0, vec![0x30, 0x32], vec![true, true])]);
}

#[test]
fn optional_and_greedy_node_takes_none_or_many() {
    assert_eq!(
        scan("3031*0+;32", b"0001112", None),
        vec![(2, vec![0x30, 0x31, 0x31, 0x31, 0x32], vec![true; 5])]
    );
    assert_eq!(scan("3031*0+;32", b"0002", None), vec![(2, vec![0x30, 0x32], vec![true, true])]);
}

#[test]
fn mask_matches_a_byte_with_a_common_bit() {
    assert_eq!(values("&0f", &[0x10, 0x01]), Vec::<u8>::new());
    assert_eq!(values("&0f", &[0x18]), vec![0x18]);
    assert_eq!(values("&00", &[0xff]), Vec::<u8>::new());
}

#[test]
fn negation_takes_one_marked_byte_where_the_node_fails() {
    assert_eq!(at_start("!30", b"1"), vec![ExprOutData::new(0x31, true)]);
    assert!(at_start("!30", b"0").is_empty());
    assert!(at_start("!30", b"").is_empty());
    assert_eq!(at_start("!\"ab\"", b"ax"), vec![ExprOutData::new(0x61, true)]);
    assert!(at_start("!\"ab\"", b"ab").is_empty());
    // a node that takes no byte has failed, also where it is optional
    assert_eq!(values("!30*0;", b"1"), vec![0x31]);
}

#[test]
fn negated_wildcard_never_matches() {
    assert!(offsets("!??", b"0123").is_empty());
}

#[test]
fn disjunction_takes_the_first_alternative_that_matches() {
    assert_eq!(values("(\"ab\"\"a\")", b"abc"), b"ab".to_vec());
    assert_eq!(values("(\"a\"\"ab\")", b"abc"), b"a".to_vec());
    assert_eq!(values("(3031)", b"1"), vec![0x31]);
    assert!(at_start("(3031)", b"2").is_empty());
    assert!(at_start("()", b"2").is_empty());
}

#[test]
fn order_of_alternatives_decides_the_marks_not_the_match() {
    let first = at_start("(??30)", b"0");
    let second = at_start("(30??)", b"0");
    assert_eq!(first, vec![ExprOutData::new(0x30, false)]);
    assert_eq!(second, vec![ExprOutData::new(0x30, true)]);
}

#[test]
fn alternative_that_fails_leaves_nothing_behind() {
    // the conjunction takes a byte before it fails
    assert_eq!(values("(&(3031)30)", b"00"), vec![0x30]);
    assert_eq!(values("(&(3031)\"0\")32", b"02"), vec![0x30, 0x32]);
}

#[test]
fn string_that_matches_in_part_yields_nothing() {
    assert!(at_start("\"Hello\"", b"Help").is_empty());
    assert!(at_start("\"Hello\"", b"Hell").is_empty());
    assert_eq!(values("(\"Hello\"\"He\")", b"Help"), b"He".to_vec());
}

#[test]
fn empty_string_takes_nothing() {
    assert!(at_start("\"\"", b"abc").is_empty());
    assert_eq!(values("\"\"*0;30", b"0"), vec![0x30]);
}

#[test]
fn conjunction_fails_where_a_child_fails() {
    assert!(at_start("&(3031)", b"00").is_empty());
    assert!(at_start("&(3031)", b"0").is_empty());
    assert!(at_start("&()", b"0").is_empty());
}

#[test]
fn optional_child_that_fails_takes_nothing() {
    assert_eq!(values("&(3031*0;32)", b"02"), vec![0x30, 0x32]);
    assert_eq!(values("&(3031*0;32)", b"012"), vec![0x30, 0x31, 0x32]);
    assert_eq!(values("3031*0;", b"0"), vec![0x30]);
}

#[test]
fn optional_node_is_satisfied_where_the_plain_node_fails() {
    assert!(at_start("&(3132)", b"2").is_empty());
    assert_eq!(values("&(31*0;32)", b"2"), vec![0x32]);
    assert!(at_start("3132", b"2").is_empty());
    assert_eq!(values("31*0;32", b"2"), vec![0x32]);
    // a pattern that takes no byte does not match
    assert!(at_start("31*0;", b"2").is_empty());
}

#[test]
fn count_asks_for_all_repetitions() {
    assert_eq!(scan("31*2;", b"00112233", None), vec![(2, vec![0x31, 0x31], vec![true, true])]);
    assert!(at_start("31*3;", b"112").is_empty());
    assert_eq!(values("31*3;", b"1111"), vec![0x31; 3]);
    assert_eq!(values("(3031)*3;", b"0102"), vec![0x30, 0x31, 0x30]);
    assert_eq!(values("\"ab\"*2;", b"ababab"), b"abab".to_vec());
}

#[test]
fn greedy_node_goes_on_behind_its_count() {
    assert_eq!(values("31*1+;", b"1112"), vec![0x31; 3]);
    assert_eq!(values("31*2+;", b"1112"), vec![0x31; 3]);
    assert_eq!(values("31*2+;", b"112"), vec![0x31; 2]);
    assert!(at_start("31*2+;", b"12").is_empty());
    assert_eq!(values("31*1+;32", b"1112"), vec![0x31, 0x31, 0x31, 0x32]);
    assert_eq!(values("??*1+;", b"abc"), b"abc".to_vec());
    assert_eq!(values("(30\"ab\")*1+;", b"0ab0x"), b"0ab0".to_vec());
}

#[test]
fn greedy_node_gives_nothing_back() {
    assert!(at_start("31*1+;31", b"111").is_empty());
}

#[test]
fn end_of_the_stream_is_no_error() {
    let tree = Expr::tree_from("3031").unwrap();
    let mut input = window(b"0");
    let out: ExprOutput = Expr::start_match(&tree, &mut input).unwrap();
    assert!(out.is_empty());
    assert_eq!(out.len(), 0);
    assert!(offsets("30313233", b"012").is_empty());
    assert_eq!(offsets("3031*0;", b"00"), vec![0, 1]);
    assert_eq!(offsets("\"ab\"", b"aab"), vec![1]);
}

#[test]
fn empty_stream_has_no_match() {
    assert!(offsets("??", b"").is_empty());
    assert!(offsets("30*0;", b"").is_empty());
    assert!(offsets("", b"").is_empty());
}

#[test]
fn empty_pattern_has_no_match() {
    assert!(offsets("", b"0123").is_empty());
}

#[test]
fn scan_makes_an_attempt_at_every_offset() {
    assert_eq!(offsets("3030", b"00000"), vec![0, 1, 2, 3]);
    assert_eq!(offsets("30*1+;", b"0001"), vec![0, 1, 2]);
    assert_eq!(
        scan("30*1+;", b"0001", None).into_iter().map(|m| m.1.len()).collect::<Vec<_>>(),
        vec![3, 2, 1]
    );
}

#[test]
fn scan_stops_after_the_cap() {
    assert_eq!(offsets("??", b"0123"), vec![0, 1, 2, 3]);
    assert_eq!(scan("??", b"0123", Some(2)).len(), 2);
    assert_eq!(scan("??", b"0123", Some(2))[1].0, 1);
    assert!(scan("??", b"0123", Some(0)).is_empty());
    assert_eq!(scan("??", b"0123", Some(9)).len(), 4);
}

#[test]
fn scan_goes_on_where_an_earlier_scan_stopped() {
    let tree = Expr::tree_from("31").unwrap();
    let mut input = window(b"01110");
    let mut list = MatchList::new();
    assert_eq!(
        Expr::for_each_match::<_, ExprOutput, _>(&tree, &mut input, &mut list, Some(1)).unwrap(),
        1
    );
    assert_eq!(input.pos(), 1);
    input.advance(1).unwrap();
    assert_eq!(
        Expr::for_each_match::<_, ExprOutput, _>(&tree, &mut input, &mut list, None).unwrap(),
        2
    );
    assert!(input.eof());
    let found: Vec<usize> = list.into_vec().iter().map(|f| f.offset).collect();
    assert_eq!(found, vec![1, 2, 3]);
}

#[test]
fn node_with_count_zero_takes_nothing() {
    let tree = vec![Expr::new(ExprKind::Any, 0), Expr::new(ExprKind::Byte { value: 0x30 }, 1)];
    let out: ExprOutput = Expr::start_match(&tree, &mut window(b"0")).unwrap();
    // a node that takes no byte and is not optional has failed
    assert!(out.is_empty());
}

#[test]
fn attempt_adds_to_what_the_output_holds() {
    let tree = Expr::tree_from("3132").unwrap();
    let mut input = window(b"012");
    let mut out = ExprOutput::default();
    out.push(ExprOutData::new(0xff, false));
    // the output holds one byte: the attempt starts one byte into the window
    assert_eq!(tree[0].apply_match(&mut input, &mut out).unwrap(), 1);
    assert_eq!(tree[1].kind().apply_match(&mut input, &mut out).unwrap(), 1);
    assert_eq!(tree[1].apply_match(&mut input, &mut out).unwrap(), 0);
    assert_eq!(
        out.as_slice(),
        &[ExprOutData::new(0xff, false), ExprOutData::new(0x31, true), ExprOutData::new(0x32, true)]
    );
    let mut out = ExprOutput::default();
    assert_eq!(Expr::match_all(&tree, &mut input, &mut out).unwrap(), 0);
    assert_eq!(Expr::match_any(&tree, &mut input, &mut out).unwrap(), 0);
    input.advance(1).unwrap();
    assert_eq!(Expr::match_any(&tree, &mut input, &mut out).unwrap(), 1);
    assert_eq!(Expr::match_all(&tree, &mut input, &mut out).unwrap(), 0);
    assert_eq!(out.len(), 1);
    let mut out = ExprOutput::default();
    assert_eq!(Expr::match_all(&tree, &mut input, &mut out).unwrap(), 2);
}
