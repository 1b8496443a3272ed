use rbrep::parser::Parser;

#[test]
fn new_parser_stands_at_the_start() {
    let p = Parser::new("ab");
    assert_eq!(p.pos, 0);
    assert_eq!(p.src, "ab");
    assert!(!p.is_end());
    assert!(Parser::new("").is_end());
}

#[test]
fn peek_reads_nul_at_the_end() {
    let mut p = Parser::new("a");
    assert_eq!(p.peek(), 'a');
    p.pos = 1;
    assert_eq!(p.peek(), '\0');
    p.pos = 7;
    assert_eq!(p.peek(), '\0');
    assert!(p.is_end());
}

#[test]
fn trim_moves_past_white_space() {
    let mut p = Parser::new(" \t\n\u{a0}x ");
    p.trim();
    assert_eq!(p.pos, 4);
    p.trim();
    assert_eq!(p.pos, 4);
    p.pos = 5;
    p.trim();
    assert_eq!(p.pos, 6);
    p.trim();
    assert_eq!(p.pos, 6);
}

#[test]
fn peek_trim_looks_behind_white_space() {
    let mut p = Parser::new("  x");
    assert_eq!(p.peek_trim(), 'x');
    assert_eq!(p.pos, 2);
}

#[test]
fn adv_takes_a_character_behind_white_space() {
    let mut p = Parser::new(" a b");
    assert_eq!(p.adv(), 'a');
    assert_eq!(p.pos, 2);
    assert_eq!(p.next(), 'b');
    assert_eq!(p.pos, 4);
}

#[test]
fn adv_stays_at_the_end() {
    let mut p = Parser::new("a ");
    assert_eq!(p.adv(), 'a');
    assert_eq!(p.adv(), '\0');
    assert_eq!(p.pos, 2);
    assert_eq!(p.adv(), '\0');
    assert_eq!(p.pos, 2);
}

#[test]
fn adv_if_takes_only_what_is_expected() {
    let mut p = Parser::new("ab");
    assert!(!p.adv_if('b'));
    assert_eq!(p.pos, 0);
    assert!(p.adv_if('a'));
    assert_eq!(p.pos, 1);
    assert!(p.next_if('b'));
    assert_eq!(p.pos, 2);
    assert!(!p.next_if('b'));
}

#[test]
fn adv_if_does_not_skip_white_space_first() {
    let mut p = Parser::new(" a");
    assert!(!p.adv_if('a'));
    assert_eq!(p.pos, 0);
}

#[test]
fn adv_if_trim_skips_white_space_first() {
    let mut p = Parser::new("  a b");
    assert!(p.adv_if_trim('a'));
    assert_eq!(p.pos, 3);
    assert!(!p.adv_if_trim('a'));
    assert_eq!(p.pos, 4);
}

#[test]
fn until_takes_what_the_test_accepts() {
    let mut p = Parser::new("123ab");
    assert_eq!(p.until(|c| c.is_ascii_digit()), "123");
    assert_eq!(p.pos, 3);
    assert_eq!(p.until(|c| c.is_ascii_digit()), "");
    assert_eq!(p.pos, 3);
    assert_eq!(p.until(|c| c.is_ascii_alphabetic()), "ab");
    assert!(p.is_end());
    assert_eq!(p.until(|_| true), "");
}

#[test]
fn until_behind_the_end_takes_nothing() {
    let mut p = Parser::new("ab");
    p.pos = 5;
    assert_eq!(p.until(|_| true), "");
    assert_eq!(p.pos, 5);
}

#[test]
fn positions_count_characters() {
    let mut p = Parser::new("\u{e9}x");
    assert_eq!(p.adv(), '\u{e9}');
    assert_eq!(p.pos, 1);
    assert_eq!(p.peek(), 'x');
    assert_eq!(p.until(|c| c == 'x'), "x");
    assert!(p.is_end());
}
