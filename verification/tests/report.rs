use rbrep::config::Config;
use rbrep::expr::Expr;
use rbrep::input::{FileBufferInput, MemorySource};
use rbrep::output::ExprOutData;
use rbrep::report::{decimal, hex, lay_out, match_line, TextOutput};

fn report(pattern: &str, input: &[u8], cfg: &Config) -> (String, usize) {
    let tree = Expr::tree_from(pattern).unwrap();
    let mut window = FileBufferInput::new(MemorySource::new(input.to_vec()));
    let (text, done) = Expr::apply(&tree, &mut window, String::new(), "in", cfg);
    (text, done.unwrap())
}

fn bytes(values: &[u8]) -> Vec<ExprOutData> {
    values.iter().map(|v| ExprOutData::new(*v, true)).collect()
}

#[test]
fn hex_fills_up_with_zeros() {
    assert_eq!(hex(0, 8), "00000000");
    assert_eq!(hex(0x2a, 8), "0000002a");
    assert_eq!(hex(0xdeadbeef, 8), "deadbeef");
    assert_eq!(hex(0x1_2345_6789, 8), "123456789");
    assert_eq!(hex(0xab, 2), "ab");
    assert_eq!(hex(0x0f, 2), "0f");
    assert_eq!(hex(0, 0), "0");
    assert_eq!(hex(255, 1), "ff");
}

#[test]
fn decimal_writes_the_number() {
    assert_eq!(decimal(0), "0");
    assert_eq!(decimal(7), "7");
    assert_eq!(decimal(1203), "1203");
    assert_eq!(decimal(usize::MAX), usize::MAX.to_string());
}

#[test]
fn line_has_offset_tab_bytes_and_newline() {
    assert_eq!(match_line(2, &bytes(&[0x48, 0x65]), 0, false), "00000002\t4865\n");
    assert_eq!(match_line(0, &[], 1, false), "00000000\t\n");
}

#[test]
fn blank_stands_between_groups_of_bytes() {
    let data = bytes(&[1, 2, 3, 4, 5]);
    assert_eq!(match_line(0, &data, 1, false), "00000000\t01 02 03 04 05\n");
    assert_eq!(match_line(0, &data, 2, false), "00000000\t0102 0304 05\n");
    assert_eq!(match_line(0, &data, 5, false), "00000000\t0102030405\n");
    assert_eq!(match_line(0, &data, 0, false), "00000000\t0102030405\n");
}

#[test]
fn lay_out_takes_the_cells_as_they_are() {
    let cells = vec!["<a>".to_string(), "b".to_string(), "".to_string()];
    assert_eq!(lay_out("@", &cells, 1), "@\t<a> b \n");
}

#[test]
fn colours_mark_offset_and_constrained_bytes() {
    console::set_colors_enabled(true);
    let data = vec![ExprOutData::new(0x30, true), ExprOutData::new(0x31, false)];
    assert_eq!(
        match_line(1, &data, 1, true),
        "\u{1b}[32m00000001\u{1b}[0m\t\u{1b}[31m30\u{1b}[0m 31\n"
    );
    let mut cfg = Config::new();
    cfg.pretty = true;
    let (text, n) = report("30", b"0", &cfg);
    assert_eq!(n, 1);
    assert_eq!(
        text,
        "\u{1b}[35min\u{1b}[0m\n\u{1b}[32m00000000\u{1b}[0m\t\u{1b}[31m30\u{1b}[0m\n"
    );
}

#[test]
fn report_names_the_stream_once() {
    let (text, n) = report("??", b"ab", &Config::new());
    assert_eq!(text, "in\n00000000\t61\n00000001\t62\n");
    assert_eq!(n, 2);
}

#[test]
fn report_without_a_match_is_empty() {
    assert_eq!(report("30", b"abc", &Config::new()), (String::new(), 0));
}

#[test]
fn report_counts_where_asked() {
    let mut cfg = Config::new();
    cfg.count = true;
    assert_eq!(report("??", b"abc", &cfg), ("in\n3\n".to_string(), 3));
    assert_eq!(report("30", b"abc", &cfg), ("0\n".to_string(), 0));
}

#[test]
fn report_stops_after_the_cap() {
    let mut cfg = Config::new();
    cfg.stop_after = Some(2);
    assert_eq!(report("??", b"abcd", &cfg), ("in\n00000000\t61\n00000001\t62\n".to_string(), 2));
    cfg.stop_after = Some(0);
    assert_eq!(report("??", b"abcd", &cfg), (String::new(), 0));
    cfg.count = true;
    cfg.stop_after = Some(3);
    assert_eq!(report("??", b"abcd", &cfg), ("in\n3\n".to_string(), 3));
}

#[test]
fn report_uses_the_space_of_the_config() {
    let mut cfg = Config::new();
    cfg.space = 2;
    assert_eq!(report("\"abcde\"", b"abcde", &cfg).0, "in\n00000000\t6162 6364 65\n");
}

#[test]
fn report_goes_behind_what_the_output_holds() {
    let tree = Expr::tree_from("61").unwrap();
    let mut window = FileBufferInput::new(MemorySource::new(b"a".to_vec()));
    let mut out = String::from("before\n");
    out.put("more\n").unwrap();
    let (text, _) = Expr::apply(&tree, &mut window, out, "in", &Config::new());
    assert_eq!(text, "before\nmore\nin\n00000000\t61\n");
}

#[test]
fn default_config_is_plain() {
    let cfg = Config::default();
    assert!(cfg.expr.is_empty());
    assert!(cfg.paths.is_empty());
    assert!(!cfg.dbg_expr_tree);
    assert_eq!(cfg.space, 0);
    assert!(!cfg.pretty);
    assert!(!cfg.count);
    assert_eq!(cfg.stop_after, None);
}
